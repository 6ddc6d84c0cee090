//! What travels between the local shim and the provider.
//!
//! Every field here is opaque. The types are the contract: none of these structs can carry a
//! plaintext or a key, so a bug cannot leak one.

use crate::blind_index::BucketToken;
use crate::envelope::{NamespaceHandle, SealedItem};
use crate::store::{Candidate, IndexMode};
use crate::text::{decimal, decimal_text, law_decimals_spell_their_number};
use vstd::prelude::*;
use vstd::string::StringExecFns;

verus! {

/// Why the provider did not do what it was asked.
#[derive(Debug)]
pub enum TransportError {
    Http { status: u16, body: String },
    PaymentRequired(String),
    Unreachable(String),
    NotFound,
}

impl TransportError {
    /// What the error says.
    pub open spec fn text(self) -> Seq<char> {
        match self {
            TransportError::Http { status, body } => "provider returned "@ + decimal_text(
                status as nat,
            ) + ": "@ + body@,
            TransportError::PaymentRequired(why) => "payment required: "@ + why@,
            TransportError::Unreachable(why) => "provider is unreachable: "@ + why@,
            TransportError::NotFound => "item not found"@,
        }
    }

    /// The error as a sentence.
    pub fn message(&self) -> (r: String)
        ensures
            r@ == self.text(),
    {
        match self {
            TransportError::Http { status, body } => {
                let mut s = "provider returned ".to_owned();
                s.append(decimal(*status as u64).as_str());
                s.append(": ");
                s.append(body.as_str());
                s
            },
            TransportError::PaymentRequired(why) => {
                let mut s = "payment required: ".to_owned();
                s.append(why.as_str());
                s
            },
            TransportError::Unreachable(why) => {
                let mut s = "provider is unreachable: ".to_owned();
                s.append(why.as_str());
                s
            },
            TransportError::NotFound => "item not found".to_owned(),
        }
    }
}

/// A sealed write. Note what is absent: no text, no embedding, no key.
#[derive(Debug, Clone, PartialEq)]
pub struct SealedWrite {
    pub namespace: NamespaceHandle,
    pub item_id: String,
    pub sealed: SealedItem,
    pub tokens: Vec<BucketToken>,
    pub mode: IndexMode,
    pub expires_at: Option<u64>,
}

/// A sealed search: bucket tokens only.
#[derive(Debug, Clone, PartialEq)]
pub struct SealedSearch {
    pub namespace: NamespaceHandle,
    pub tokens: Vec<BucketToken>,
    pub limit: usize,
}

/// One request to the provider and what it answered.
pub enum Exchange {
    Write(SealedWrite, Result<(), TransportError>),
    Read(NamespaceHandle, Seq<char>, Result<SealedItem, TransportError>),
    Search(SealedSearch, Result<Vec<Candidate>, TransportError>),
    Forget(NamespaceHandle, Seq<char>, Result<bool, TransportError>),
}

/// The provider side, as the shim sees it. What it answers is its own business: nothing is promised
/// of it here.
pub trait ProviderTransport {
    /// Stores a sealed item.
    fn write(&mut self, req: SealedWrite) -> (r: Result<(), TransportError>);

    /// Fetches a sealed item.
    fn read(&mut self, ns: &NamespaceHandle, item_id: &str) -> (r: Result<
        SealedItem,
        TransportError,
    >);

    /// Asks for candidates.
    fn search(&mut self, req: SealedSearch) -> (r: Result<Vec<Candidate>, TransportError>);

    /// Asks for an item to be deleted.
    fn forget(&mut self, ns: &NamespaceHandle, item_id: &str) -> (r: Result<bool, TransportError>);
}

/// Whether an exchange is a call of the provider: the request is what it was handed, and the reply
/// is what it answered.
pub open spec fn crosses<T: ProviderTransport>(p: &mut T, x: Exchange) -> bool {
    match x {
        Exchange::Write(req, r) => call_ensures(T::write, (p, req), r),
        Exchange::Read(ns, id, r) => exists|t: &str|
            t@ == id && #[trigger] call_ensures(T::read, (p, &ns, t), r),
        Exchange::Search(req, r) => call_ensures(T::search, (p, req), r),
        Exchange::Forget(ns, id, r) => exists|t: &str|
            t@ == id && #[trigger] call_ensures(T::forget, (p, &ns, t), r),
    }
}

/// The only way to a provider, with a record of everything that has crossed it.
pub struct Link<T: ProviderTransport> {
    provider: T,
    log: Ghost<Seq<Exchange>>,
}

impl<T: ProviderTransport> Link<T> {
    /// Everything that has crossed to the provider and back, in order.
    pub closed spec fn log(&self) -> Seq<Exchange> {
        self.log@
    }

    /// The provider at the other end.
    pub closed spec fn provider(&self) -> T {
        self.provider
    }

    /// A link that nothing has crossed yet.
    pub fn new(provider: T) -> (r: Self)
        ensures
            r.provider() == provider,
            r.log() == Seq::<Exchange>::empty(),
    {
        Link { provider, log: Ghost(Seq::empty()) }
    }

    /// Stores a sealed item.
    pub fn write(&mut self, req: SealedWrite) -> (r: Result<(), TransportError>)
        ensures
            final(self).log() == old(self).log().push(Exchange::Write(req, r)),
            exists|p: &mut T|
                *p == old(self).provider() && *final(p) == final(self).provider()
                    && #[trigger] crosses(p, Exchange::Write(req, r)),
    {
        let ghost asked = req;
        let r = self.provider.write(req);
        proof {
            let p = choose|p: &mut T|
                *p == old(self).provider() && *final(p) == self.provider && #[trigger] call_ensures(
                    T::write,
                    (p, asked),
                    r,
                );
            assert(crosses(p, Exchange::Write(asked, r)));
            self.log@ = self.log@.push(Exchange::Write(asked, r));
        }
        r
    }

    /// Fetches a sealed item.
    pub fn read(&mut self, ns: &NamespaceHandle, item_id: &str) -> (r: Result<
        SealedItem,
        TransportError,
    >)
        ensures
            final(self).log() == old(self).log().push(Exchange::Read(*ns, item_id@, r)),
            exists|p: &mut T|
                *p == old(self).provider() && *final(p) == final(self).provider()
                    && #[trigger] crosses(p, Exchange::Read(*ns, item_id@, r)),
    {
        let r = self.provider.read(ns, item_id);
        proof {
            let p = choose|p: &mut T|
                *p == old(self).provider() && *final(p) == self.provider && #[trigger] call_ensures(
                    T::read,
                    (p, ns, item_id),
                    r,
                );
            assert(crosses(p, Exchange::Read(*ns, item_id@, r)));
            self.log@ = self.log@.push(Exchange::Read(*ns, item_id@, r));
        }
        r
    }

    /// Asks for candidates.
    pub fn search(&mut self, req: SealedSearch) -> (r: Result<Vec<Candidate>, TransportError>)
        ensures
            final(self).log() == old(self).log().push(Exchange::Search(req, r)),
            exists|p: &mut T|
                *p == old(self).provider() && *final(p) == final(self).provider()
                    && #[trigger] crosses(p, Exchange::Search(req, r)),
    {
        let ghost asked = req;
        let r = self.provider.search(req);
        proof {
            let p = choose|p: &mut T|
                *p == old(self).provider() && *final(p) == self.provider && #[trigger] call_ensures(
                    T::search,
                    (p, asked),
                    r,
                );
            assert(crosses(p, Exchange::Search(asked, r)));
            self.log@ = self.log@.push(Exchange::Search(asked, r));
        }
        r
    }

    /// Asks for an item to be deleted.
    pub fn forget(&mut self, ns: &NamespaceHandle, item_id: &str) -> (r: Result<
        bool,
        TransportError,
    >)
        ensures
            final(self).log() == old(self).log().push(Exchange::Forget(*ns, item_id@, r)),
            exists|p: &mut T|
                *p == old(self).provider() && *final(p) == final(self).provider()
                    && #[trigger] crosses(p, Exchange::Forget(*ns, item_id@, r)),
    {
        let r = self.provider.forget(ns, item_id);
        proof {
            let p = choose|p: &mut T|
                *p == old(self).provider() && *final(p) == self.provider && #[trigger] call_ensures(
                    T::forget,
                    (p, ns, item_id),
                    r,
                );
            assert(crosses(p, Exchange::Forget(*ns, item_id@, r)));
            self.log@ = self.log@.push(Exchange::Forget(*ns, item_id@, r));
        }
        r
    }
}

/// An error's sentence carries what the provider said: it ends in it, and a refusal gives its status
/// before it, so that no two are told alike.
pub proof fn law_errors_carry_what_was_said(
    status: u16,
    body: String,
    other_status: u16,
    other_body: String,
)
    ensures
        (TransportError::Http { status, body }).text() == (TransportError::Http {
            status: other_status,
            body: other_body,
        }).text() ==> status == other_status && body@ == other_body@,
        TransportError::PaymentRequired(body).text() == TransportError::PaymentRequired(
            other_body,
        ).text() ==> body@ == other_body@,
        TransportError::Unreachable(body).text() == TransportError::Unreachable(other_body).text()
            ==> body@ == other_body@,
{
    let x = (TransportError::Http { status, body }).text();
    let y = (TransportError::Http { status: other_status, body: other_body }).text();
    let label = "provider returned "@;
    let (a, b) = (decimal_text(status as nat), decimal_text(other_status as nat));
    let n = label.len() as int;
    reveal_strlit(": ");
    law_decimals_spell_their_number(status as nat);
    law_decimals_spell_their_number(other_status as nat);
    if x == y {
        assert(x[n + a.len()] == ':');
        assert(y[n + b.len()] == ':');
        if a.len() < b.len() {
            assert(y[n + a.len()] == b[a.len() as int]);
        }
        if b.len() < a.len() {
            assert(x[n + b.len()] == a[b.len() as int]);
        }
        assert(a =~= x.subrange(n, n + a.len()));
        assert(b =~= y.subrange(n, n + b.len()));
        assert(body@ =~= x.skip(n + a.len() + 2));
        assert(other_body@ =~= y.skip(n + b.len() + 2));
    }
    let p = "payment required: "@;
    let u = "provider is unreachable: "@;
    assert(body@ =~= (p + body@).skip(p.len() as int));
    assert(other_body@ =~= (p + other_body@).skip(p.len() as int));
    assert(body@ =~= (u + body@).skip(u.len() as int));
    assert(other_body@ =~= (u + other_body@).skip(u.len() as int));
}

} // verus!
