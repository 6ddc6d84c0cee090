//! Embedders, and the guard that stops swapping one from silently destroying an index.
//!
//! An embedder sees the plaintext, so a remote one ships every memory to a third party in the
//! clear. A non-loopback endpoint is therefore refused, not warned about, and the escape hatch is
//! explicit and named after what it costs.
//!
//! Bucket tokens are derived from the embedding, so two models produce two disjoint token spaces
//! over the same memories. The model identity is recorded beside the key on first use and checked
//! on every start; a mismatch refuses to run and says what changed.

use crate::blind_index::IndexParams;
use crate::text::{
    chars_of, decimal, decimal_text, join, law_decimals_spell_their_number, same_text,
};
use std::path::{Path, PathBuf};
use vstd::prelude::*;
use vstd::slice::{slice_subrange, slice_to_vec};
use vstd::string::{StrSliceExecFns, StringExecFns};
use vstd::utf8::encode_utf8;

verus! {

/// Why an embedding could not be produced. Every variant is a refusal, and none is a fallback:
/// returning a different vector space on failure is the silent corruption this module exists to
/// prevent.
#[derive(Debug)]
pub enum EmbedError {
    Unreachable { url: String, source: String },
    Empty,
    Malformed(String),
    NotLocal(String),
    ModelChanged { recorded: String, current: String },
    ParamsChanged { recorded: String, current: String },
}

impl EmbedError {
    /// What the error says.
    pub open spec fn text(self) -> Seq<char> {
        match self {
            EmbedError::Unreachable { url, source } => "the embedder at "@ + url@
                + " is not reachable: "@ + source@ + ". Is Ollama running?"@,
            EmbedError::Empty => "the embedder returned no vector for this text"@,
            EmbedError::Malformed(why) =>
                "the embedder answered but the response could not be read: "@ + why@,
            EmbedError::NotLocal(url) => "refusing a non-loopback embedder at "@ + url@
                + ": an embedder sees plaintext, so a remote one ships every memory to a third party in the clear. Pass --i-accept-sending-plaintext-to-a-remote-embedder if that is genuinely what you want."@,
            EmbedError::ModelChanged { recorded, current } => "this namespace was indexed with `"@
                + recorded@ + "` and you are running `"@ + current@
                + "`. Bucket tokens come from the embedding, so the two do not share a token space: everything stored before would become unfindable and everything after would look fine, with no error. Re-index deliberately, or put the old model back."@,
            EmbedError::ParamsChanged { recorded, current } => "this namespace was indexed at `"@
                + recorded@ + "` bands x bits and you are running `"@ + current@
                + "`. A bucket token is that many hyperplane signs, so the two do not share a token space: the same silent forgetting as changing the model. Re-index deliberately, or put the old parameters back."@,
        }
    }

    /// The error as a sentence.
    pub fn message(&self) -> (r: String)
        ensures
            r@ == self.text(),
    {
        match self {
            EmbedError::Unreachable { url, source } => {
                let mut s = join("the embedder at ", url.as_str());
                s.append(" is not reachable: ");
                s.append(source.as_str());
                s.append(". Is Ollama running?");
                s
            },
            EmbedError::Empty => "the embedder returned no vector for this text".to_owned(),
            EmbedError::Malformed(why) => join(
                "the embedder answered but the response could not be read: ",
                why.as_str(),
            ),
            EmbedError::NotLocal(url) => {
                let mut s = join("refusing a non-loopback embedder at ", url.as_str());
                s.append(
                    ": an embedder sees plaintext, so a remote one ships every memory to a third party in the clear. Pass --i-accept-sending-plaintext-to-a-remote-embedder if that is genuinely what you want.",
                );
                s
            },
            EmbedError::ModelChanged { recorded, current } => {
                let mut s = join("this namespace was indexed with `", recorded.as_str());
                s.append("` and you are running `");
                s.append(current.as_str());
                s.append(
                    "`. Bucket tokens come from the embedding, so the two do not share a token space: everything stored before would become unfindable and everything after would look fine, with no error. Re-index deliberately, or put the old model back.",
                );
                s
            },
            EmbedError::ParamsChanged { recorded, current } => {
                let mut s = join("this namespace was indexed at `", recorded.as_str());
                s.append("` bands x bits and you are running `");
                s.append(current.as_str());
                s.append(
                    "`. A bucket token is that many hyperplane signs, so the two do not share a token space: the same silent forgetting as changing the model. Re-index deliberately, or put the old parameters back.",
                );
                s
            },
        }
    }
}

/// Text in, vector out, and the two questions about vectors that only floating point answers.
///
/// A vector is a run of binary32 values, each given by its bits. What an embedder answers is its
/// own business: nothing here is promised of it.
pub trait Embedder {
    /// The vector of a text. Fallible, deliberately.
    fn embed(&self, text: &str) -> (r: Result<Vec<u32>, EmbedError>);

    /// How this embedder identifies itself in the manifest. Two embedders that could produce
    /// different vectors for the same text must not share an id.
    fn id(&self) -> (r: String);

    /// Whether a vector lies on the non-negative side of a hyperplane. A component of the
    /// hyperplane is a word: zero stands for minus one, the largest word for one.
    fn side(&self, plane: &Vec<u32>, embedding: &Vec<u32>) -> (r: bool);

    /// The cosine similarity of two vectors, as the bits of a binary32 value.
    fn similarity(&self, a: &Vec<u32>, b: &Vec<u32>) -> (r: u32);
}

/// Whether an embedder may have answered this for a text.
pub open spec fn embeds_as<E: Embedder>(
    e: &E,
    text: Seq<char>,
    r: Result<Vec<u32>, EmbedError>,
) -> bool {
    exists|t: &str| t@ == text && #[trigger] call_ensures(E::embed, (e, t), r)
}

/// Whether an embedder may have put a vector on this side of a hyperplane.
pub open spec fn lies_on<E: Embedder>(
    e: &E,
    plane: Seq<u32>,
    embedding: Vec<u32>,
    side: bool,
) -> bool {
    exists|p: Vec<u32>| p@ == plane && #[trigger] call_ensures(E::side, (e, &p, &embedding), side)
}

/// Whether an embedder may have scored two vectors so.
pub open spec fn scores_as<E: Embedder>(e: &E, a: Vec<u32>, b: Vec<u32>, score: u32) -> bool {
    call_ensures(E::similarity, (e, &a, &b), score)
}

/// So a boxed embedder of any kind can stand where one is asked for. It answers as the embedder in
/// the box does.
impl<T: Embedder + ?Sized> Embedder for Box<T> {
    fn embed(&self, text: &str) -> (r: Result<Vec<u32>, EmbedError>)
        ensures
            call_ensures(T::embed, (&**self, text), r),
    {
        (**self).embed(text)
    }

    fn id(&self) -> (r: String)
        ensures
            call_ensures(T::id, (&**self,), r),
    {
        (**self).id()
    }

    fn side(&self, plane: &Vec<u32>, embedding: &Vec<u32>) -> (r: bool)
        ensures
            call_ensures(T::side, (&**self, plane, embedding), r),
    {
        (**self).side(plane, embedding)
    }

    fn similarity(&self, a: &Vec<u32>, b: &Vec<u32>) -> (r: u32)
        ensures
            call_ensures(T::similarity, (&**self, a, b), r),
    {
        (**self).similarity(a, b)
    }
}

/// Whether a model's vectors are centred: whether its shared direction is known and subtracted.
pub open spec fn centred_model(model: Seq<char>) -> bool {
    canonical(model) == "nomic-embed-text"@
}

/// A model's name without the tag that an untagged pull is reported under.
pub open spec fn canonical(model: Seq<char>) -> Seq<char> {
    let tag = ":latest"@;
    if model.len() >= tag.len() && model.skip(model.len() - tag.len()) == tag {
        model.take(model.len() - tag.len())
    } else {
        model
    }
}

/// The identity of a model's vectors. It carries whether centring is applied: a centred index and
/// an uncentred one over the same model are disjoint token spaces, exactly as two different models
/// are.
pub open spec fn model_id(model: Seq<char>) -> Seq<char> {
    if centred_model(model) {
        "ollama:"@ + canonical(model) + "+centred-v1"@
    } else {
        "ollama:"@ + canonical(model)
    }
}

/// A model's name without its `:latest` tag, which names the same weights.
///
/// Normalised before the identity is built. Without this the same model pulled two ways gets two
/// identities and the manifest refuses to start over a change that never happened.
pub fn canonical_model(model: &str) -> (r: String)
    ensures
        r@ == canonical(model@),
{
    let n: usize = model.unicode_len();
    proof {
        reveal_strlit(":latest");
    }
    if n >= 7 && same_text(model.substring_char(n - 7, n), ":latest") {
        proof {
            assert(model@.skip(n - 7) =~= model@.subrange(n - 7, n as int));
            assert(model@.take(n - 7) =~= model@.subrange(0, n - 7));
        }
        model.substring_char(0, n - 7).to_owned()
    } else {
        proof {
            if n >= 7 {
                assert(model@.skip(n - 7) =~= model@.subrange(n - 7, n as int));
            }
        }
        model.to_owned()
    }
}

/// Whether there is a reference mean for a model.
pub fn is_centred(model: &str) -> (r: bool)
    ensures
        r == centred_model(model@),
{
    same_text(canonical_model(model).as_str(), "nomic-embed-text")
}

/// Where a text begins to match a separator, if anywhere.
pub open spec fn found_at(s: Seq<char>, sep: Seq<char>) -> Option<int>
    decreases s.len(),
{
    if s.len() < sep.len() || s.len() == 0 {
        None
    } else if s.take(sep.len() as int) == sep {
        Some(0)
    } else {
        match found_at(s.drop_first(), sep) {
            Some(i) => Some(i + 1),
            None => None,
        }
    }
}

/// What a text holds before the first occurrence of a separator, or all of it.
pub open spec fn before_first(s: Seq<char>, sep: Seq<char>) -> Seq<char> {
    match found_at(s, sep) {
        Some(i) => s.take(i),
        None => s,
    }
}

/// What follows the scheme of a URL, up to any further scheme separator, or all of it where there
/// is none.
pub open spec fn after_scheme(url: Seq<char>) -> Seq<char> {
    match found_at(url, "://"@) {
        Some(i) => before_first(url.skip(i + 3), "://"@),
        None => url,
    }
}

/// Where a character last occurs in a text, if anywhere.
pub open spec fn last_at(s: Seq<char>, c: char) -> Option<int>
    decreases s.len(),
{
    if s.len() == 0 {
        None
    } else if s.last() == c {
        Some(s.len() - 1)
    } else {
        last_at(s.drop_last(), c)
    }
}

/// Whether what looks like a port is the rest of a user name, so that the host comes after it.
pub open spec fn hides_host(port: Seq<char>) -> bool {
    exists|i: int|
        0 <= i < port.len() && #[trigger] port[i] == '@' && forall|j: int|
            0 <= j < i ==> port[j] != '?' && port[j] != '#'
}

/// Whether a host is this machine.
pub open spec fn loopback_host(host: Seq<char>) -> bool {
    host == "127.0.0.1"@ || host == "localhost"@ || host == "::1"@ || host == "[::1]"@
}

/// Whether a URL leads to this machine: what stands before its path is a loopback name, or is one
/// and a port, and nothing behind it makes another host of it.
pub open spec fn loopback_url(url: Seq<char>) -> bool {
    let authority = before_first(after_scheme(url), "/"@);
    ||| loopback_host(authority)
    ||| last_at(authority, ':') matches Some(i) && loopback_host(authority.take(i)) && !hides_host(
        authority.skip(i + 1),
    )
}

/// A found separator is where it is said to be.
proof fn found_at_bounds(s: Seq<char>, sep: Seq<char>)
    ensures
        match found_at(s, sep) {
            Some(i) => 0 <= i && i + sep.len() <= s.len() && i < s.len() && s.subrange(
                i,
                i + sep.len(),
            ) == sep,
            None => true,
        },
    decreases s.len(),
{
    if s.len() < sep.len() || s.len() == 0 {
    } else if s.take(sep.len() as int) == sep {
        assert(s.subrange(0, sep.len() as int) =~= s.take(sep.len() as int));
    } else {
        let rest = s.drop_first();
        found_at_bounds(rest, sep);
        if let Some(i) = found_at(rest, sep) {
            assert(s.subrange(i + 1, i + 1 + sep.len()) =~= rest.subrange(i, i + sep.len()));
        }
    }
}

/// Where a run of characters begins to match a separator, if anywhere.
fn find(s: &Vec<char>, from: usize, sep: &Vec<char>) -> (r: Option<usize>)
    requires
        from <= s.len(),
        sep.len() > 0,
    ensures
        match r {
            Some(i) => found_at(s@.skip(from as int), sep@) == Some(i as int) && from + i
                + sep@.len() <= s@.len(),
            None => found_at(s@.skip(from as int), sep@) is None,
        },
{
    let mut i: usize = from;
    while i < s.len()
        invariant
            from <= i <= s.len(),
            sep.len() > 0,
            match found_at(s@.skip(i as int), sep@) {
                Some(k) => found_at(s@.skip(from as int), sep@) == Some(k + i - from),
                None => found_at(s@.skip(from as int), sep@) is None,
            },
        decreases s.len() - i,
    {
        let ghost rest = s@.skip(i as int);
        if sep.len() <= s.len() - i {
            let mut j: usize = 0;
            let mut same = true;
            while j < sep.len()
                invariant
                    i + sep.len() <= s.len(),
                    j <= sep.len(),
                    same == forall|k: int| 0 <= k < j ==> s@[i + k] == #[trigger] sep@[k],
                decreases sep.len() - j,
            {
                if s[i + j] != sep[j] {
                    same = false;
                }
                j = j + 1;
            }
            if same {
                proof {
                    assert(rest.take(sep@.len() as int) =~= sep@);
                }
                return Some(i - from);
            }
            proof {
                let k = choose|k: int| 0 <= k < sep@.len() && s@[i + k] != #[trigger] sep@[k];
                assert(rest.take(sep@.len() as int)[k] != sep@[k]);
            }
        }
        proof {
            assert(rest.drop_first() =~= s@.skip(i + 1));
            found_at_bounds(s@.skip(i + 1), sep@);
        }
        i = i + 1;
    }
    None
}

/// Where a character last occurs in a run, if anywhere.
fn find_last(s: &Vec<char>, c: char) -> (r: Option<usize>)
    ensures
        match r {
            Some(i) => last_at(s@, c) == Some(i as int) && i < s@.len(),
            None => last_at(s@, c) is None,
        },
{
    let mut i: usize = s.len();
    proof {
        assert(s@.take(i as int) =~= s@);
    }
    while i > 0
        invariant
            i <= s.len(),
            last_at(s@, c) == last_at(s@.take(i as int), c),
        decreases i,
    {
        proof {
            assert(s@.take(i as int).drop_last() =~= s@.take(i - 1));
        }
        if s[i - 1] == c {
            return Some(i - 1);
        }
        i = i - 1;
    }
    None
}

/// Whether what looks like a port is the rest of a user name.
fn port_hides_host(port: &[char]) -> (r: bool)
    ensures
        r == hides_host(port@),
{
    let mut i: usize = 0;
    while i < port.len()
        invariant
            i <= port.len(),
            forall|j: int| 0 <= j < i ==> port@[j] != '?' && port@[j] != '#' && port@[j] != '@',
        decreases port.len() - i,
    {
        if port[i] == '@' {
            return true;
        }
        if port[i] == '?' || port[i] == '#' {
            proof {
                assert(!hides_host(port@));
            }
            return false;
        }
        i = i + 1;
    }
    false
}

/// Whether a host is this machine.
fn is_loopback_host(host: &str) -> (r: bool)
    ensures
        r == loopback_host(host@),
{
    same_text(host, "127.0.0.1") || same_text(host, "localhost") || same_text(host, "::1")
        || same_text(host, "[::1]")
}

/// Whether a URL leads to this machine. Loopback only, unless the caller has said in as many words
/// that they accept the cost.
pub fn is_loopback(url: &str) -> (r: bool)
    ensures
        r == loopback_url(url@),
{
    let u = chars_of(url);
    let scheme = chars_of("://");
    let slash = chars_of("/");
    proof {
        reveal_strlit("://");
        reveal_strlit("/");
        assert(u@.skip(0) =~= u@);
    }
    let mut start: usize = 0;
    let mut end: usize = u.len();
    if let Some(i) = find(&u, 0, &scheme) {
        start = i + 3;
        if let Some(j) = find(&u, start, &scheme) {
            end = start + j;
        }
    }
    let ghost rest = after_scheme(url@);
    proof {
        assert(rest =~= u@.subrange(start as int, end as int));
    }
    let run = slice_to_vec(slice_subrange(u.as_slice(), start, end));
    proof {
        assert(run@.skip(0) =~= rest);
    }
    let len: usize = match find(&run, 0, &slash) {
        Some(i) => i,
        None => run.len(),
    };
    let ghost authority = before_first(rest, "/"@);
    let name = slice_to_vec(slice_subrange(run.as_slice(), 0, len));
    proof {
        assert(name@ =~= authority);
        assert(authority =~= url@.subrange(start as int, start + len));
    }
    if is_loopback_host(url.substring_char(start, start + len)) {
        return true;
    }
    match find_last(&name, ':') {
        Some(i) => {
            proof {
                assert(authority.take(i as int) =~= url@.subrange(start as int, start + i));
                assert(authority.skip(i + 1) =~= name@.subrange(i + 1, len as int));
            }
            is_loopback_host(url.substring_char(start, start + i)) && !port_hides_host(
                slice_subrange(name.as_slice(), i + 1, len),
            )
        },
        None => false,
    }
}

/// A text without the slashes at its end.
pub open spec fn without_slashes(s: Seq<char>) -> Seq<char>
    decreases s.len(),
{
    if s.len() > 0 && s.last() == '/' {
        without_slashes(s.drop_last())
    } else {
        s
    }
}

/// A text without the slashes at its end.
pub fn trim_slashes(s: &str) -> (r: String)
    ensures
        r@ == without_slashes(s@),
{
    let c = chars_of(s);
    let mut n: usize = c.len();
    proof {
        assert(s@.take(n as int) =~= s@);
    }
    while n > 0 && c[n - 1] == '/'
        invariant
            c@ == s@,
            n <= c.len(),
            without_slashes(s@) == without_slashes(s@.take(n as int)),
        decreases n,
    {
        proof {
            assert(s@.take(n as int).drop_last() =~= s@.take(n - 1));
        }
        n = n - 1;
    }
    proof {
        assert(s@.take(n as int) =~= s@.subrange(0, n as int));
    }
    s.substring_char(0, n).to_owned()
}

/// Ollama's embeddings endpoint, on this machine.
#[derive(Debug)]
pub struct Ollama {
    url: String,
    model: String,
}

impl Ollama {
    /// Where the endpoint is.
    pub closed spec fn at(&self) -> Seq<char> {
        self.url@
    }

    /// The model asked of it.
    pub closed spec fn running(&self) -> Seq<char> {
        self.model@
    }

    /// An endpoint on this machine, or one elsewhere where the caller has said so in as many words.
    pub fn new(url: &str, model: &str, allow_remote: bool) -> (r: Result<Self, EmbedError>)
        ensures
            match r {
                Ok(o) => {
                    &&& allow_remote || loopback_url(url@)
                    &&& o.at() == without_slashes(url@)
                    &&& o.running() == model@
                },
                Err(e) => {
                    &&& !allow_remote && !loopback_url(url@)
                    &&& e matches EmbedError::NotLocal(refused)
                    &&& refused@ == url@
                },
            },
    {
        if !allow_remote && !is_loopback(url) {
            return Err(EmbedError::NotLocal(url.to_owned()));
        }
        Ok(Ollama { url: trim_slashes(url), model: model.to_owned() })
    }

    /// The URL that embeds a text.
    pub fn endpoint(&self) -> (r: String)
        ensures
            r@ == self.at() + "/api/embeddings"@,
    {
        join(self.url.as_str(), "/api/embeddings")
    }

    /// Where the endpoint is.
    pub fn url(&self) -> (r: &str)
        ensures
            r@ == self.at(),
    {
        self.url.as_str()
    }

    /// The model asked of it.
    pub fn model(&self) -> (r: &str)
        ensures
            r@ == self.running(),
    {
        self.model.as_str()
    }

    /// The identity of the model's vectors, which says whether centring is applied.
    pub fn id(&self) -> (r: String)
        ensures
            r@ == model_id(self.running()),
    {
        let mut s = join("ollama:", canonical_model(self.model.as_str()).as_str());
        if is_centred(self.model.as_str()) {
            s.append("+centred-v1");
        }
        s
    }
}

/// What an endpoint's answer comes to, given the vector read out of it or why none could be.
pub fn accept_embedding(parsed: Result<Vec<u32>, String>) -> (r: Result<Vec<u32>, EmbedError>)
    ensures
        match parsed {
            Err(why) => r matches Err(EmbedError::Malformed(m)) && m@ == why@,
            Ok(v) => if v@.len() == 0 {
                r matches Err(EmbedError::Empty)
            } else {
                r == Ok::<_, EmbedError>(v)
            },
        },
{
    match parsed {
        Err(why) => Err(EmbedError::Malformed(why)),
        Ok(v) => {
            if v.is_empty() {
                Err(EmbedError::Empty)
            } else {
                Ok(v)
            }
        },
    }
}

/// The lower-case form of a text, as Unicode maps it.
pub uninterp spec fn lowercase_of(text: Seq<char>) -> Seq<char>;

/// `str::to_lowercase` of the standard library. Claims that the result depends on the text alone.
#[verifier::external_body]
fn lowercase(text: &str) -> (r: String)
    ensures
        r@ == lowercase_of(text@),
{
    text.to_lowercase()
}

/// The most that a count of bytes reaches: beyond it, adding one to a binary32 value changes
/// nothing.
pub const MAX_COUNT: u32 = 16777216;

/// How often bytes fall into a bucket, up to the most that is counted.
pub open spec fn bucket_count(bytes: Seq<u8>, bucket: int) -> int
    decreases bytes.len(),
{
    if bytes.len() == 0 {
        0
    } else {
        let n = bucket_count(bytes.drop_last(), bucket);
        if bytes.last() as int % 64 == bucket && n < MAX_COUNT {
            n + 1
        } else {
            n
        }
    }
}

/// The placeholder embedder, for running with nothing installed.
///
/// A histogram of byte values. It is deterministic and it is not a semantic model; two sentences
/// meaning the same thing in different words are not near each other. Keeping it is honest only
/// while it is named for what it is.
#[derive(Debug, Clone, Copy)]
pub struct BagOfBytes;

impl BagOfBytes {
    /// How the placeholder identifies itself.
    pub fn id(&self) -> (r: String)
        ensures
            r@ == "bag-of-bytes-v1"@,
    {
        "bag-of-bytes-v1".to_owned()
    }

    /// How often bytes fall into each of 64 buckets.
    pub fn count_bytes(&self, bytes: &[u8]) -> (r: Vec<u32>)
        ensures
            r@.len() == 64,
            forall|i: int| 0 <= i < 64 ==> #[trigger] r@[i] == bucket_count(bytes@, i),
    {
        let mut counts: Vec<u32> = Vec::new();
        let mut j: usize = 0;
        while j < 64
            invariant
                j <= 64,
                counts@.len() == j,
                forall|i: int| 0 <= i < j ==> #[trigger] counts@[i] == 0,
            decreases 64 - j,
        {
            counts.push(0);
            j = j + 1;
        }
        let mut i: usize = 0;
        proof {
            assert(bytes@.take(0).len() == 0);
        }
        while i < bytes.len()
            invariant
                i <= bytes.len(),
                counts@.len() == 64,
                forall|k: int|
                    0 <= k < 64 ==> #[trigger] counts@[k] == bucket_count(
                        bytes@.take(i as int),
                        k,
                    ) && counts@[k] <= MAX_COUNT,
            decreases bytes.len() - i,
        {
            let b: usize = (bytes[i] % 64) as usize;
            proof {
                assert(bytes@.take(i + 1).drop_last() =~= bytes@.take(i as int));
                assert(counts@[b as int] == bucket_count(bytes@.take(i as int), b as int));
            }
            if counts[b] < MAX_COUNT {
                let next: u32 = counts[b] + 1;
                counts.set(b, next);
            }
            i = i + 1;
        }
        proof {
            assert(bytes@.take(i as int) =~= bytes@);
        }
        counts
    }

    /// The histogram of a text, whatever the case of its letters.
    pub fn histogram(&self, text: &str) -> (r: Vec<u32>)
        ensures
            r@.len() == 64,
            forall|i: int|
                0 <= i < 64 ==> #[trigger] r@[i] == bucket_count(
                    encode_utf8(lowercase_of(text@)),
                    i,
                ),
    {
        self.count_bytes(lowercase(text).as_str().as_bytes())
    }
}

/// What the index was built with. Written beside the key on first use.
///
/// The parameters are here as well as the embedder, and for the same reason: bucket tokens are
/// `bands × band_bits` hyperplane signs, so changing either number changes every token exactly as
/// changing the model does.
#[derive(Debug)]
pub struct Manifest {
    pub embedder: String,
    /// `bands x band_bits`, as in `8x4`. Absent in manifests written before this was recorded, and
    /// treated as unknown rather than as a mismatch.
    pub params: Option<String>,
}

/// How parameters are written in a manifest.
pub open spec fn params_text(params: IndexParams) -> Seq<char> {
    decimal_text(params.bands as nat) + "x"@ + decimal_text(params.band_bits as nat)
}

/// Parameters as a manifest records them.
pub fn params_label(params: IndexParams) -> (r: String)
    ensures
        r@ == params_text(params),
{
    let mut s = join(decimal(params.bands as u64).as_str(), "x");
    s.append(decimal(params.band_bits as u64).as_str());
    s
}

/// Whether a recorded manifest allows an embedder and parameters to run.
pub open spec fn allows(recorded: Manifest, current: Seq<char>, params: Seq<char>) -> bool {
    &&& recorded.embedder@ == current
    &&& recorded.params matches Some(p) ==> p@ == params
}

/// Records the embedder on first use, and refuses to run against a different one afterwards.
///
/// Takes the recorded manifest, where one could be read, and gives back the manifest to record,
/// where none could. An unreadable one is treated as absent: refusing to start over a corrupt
/// sidecar would be a worse failure than the one being prevented.
pub fn check_or_record(recorded: Option<Manifest>, current: String, params: &str) -> (r: Result<
    Option<Manifest>,
    EmbedError,
>)
    ensures
        match recorded {
            None => {
                &&& r matches Ok(Some(m))
                &&& m.embedder@ == current@
                &&& m.params matches Some(p)
                &&& p@ == params@
            },
            Some(m) => {
                if allows(m, current@, params@) {
                    r matches Ok(None)
                } else if m.embedder@ != current@ {
                    &&& r matches Err(EmbedError::ModelChanged { recorded: was, current: is_now })
                    &&& was@ == m.embedder@
                    &&& is_now@ == current@
                } else {
                    &&& r matches Err(EmbedError::ParamsChanged { recorded: was, current: is_now })
                    &&& m.params matches Some(p)
                    &&& was@ == p@
                    &&& is_now@ == params@
                }
            },
        },
{
    match recorded {
        None => Ok(Some(Manifest { embedder: current, params: Some(params.to_owned()) })),
        Some(m) => {
            if !same_text(m.embedder.as_str(), current.as_str()) {
                return Err(EmbedError::ModelChanged { recorded: m.embedder, current });
            }
            if let Some(p) = m.params {
                if !same_text(p.as_str(), params) {
                    return Err(
                        EmbedError::ParamsChanged { recorded: p, current: params.to_owned() },
                    );
                }
            }
            Ok(None)
        },
    }
}

/// What is recorded on first use allows the same embedder and parameters ever after, and no other.
pub proof fn law_manifest_allows_what_it_recorded(
    m: Manifest,
    embedder: Seq<char>,
    params: Seq<char>,
    other_embedder: Seq<char>,
    other_params: Seq<char>,
)
    requires
        m.embedder@ == embedder,
        m.params is Some,
        m.params->0@ == params,
    ensures
        allows(m, embedder, params),
        allows(m, other_embedder, other_params) ==> other_embedder == embedder && other_params
            == params,
{
}

/// `std::path::Path`, which only its own methods look into: what separates its parts depends on the
/// platform.
#[verifier::external_type_specification]
#[verifier::external_body]
pub struct ExPath(Path);

/// `std::path::PathBuf`, an owned path.
#[verifier::external_type_specification]
#[verifier::external_body]
pub struct ExPathBuf(PathBuf);

/// `std::path::Path::parent`: the path without its last part, where it has one. Claims nothing of
/// which path that is, because the platform decides.
#[verifier::external_body]
fn directory_of(path: &Path) -> (r: Option<&Path>) {
    path.parent()
}

/// `std::path::Path::join`: a name inside a directory. Claims nothing of how it is written, because
/// the platform decides.
#[verifier::external_body]
fn name_inside(dir: &Path, name: &str) -> (r: PathBuf) {
    dir.join(name)
}

/// `std::path::Path::new`: a text as a path. Claims nothing of its parts, because the platform
/// decides.
#[verifier::external_body]
fn path_from(text: &str) -> (r: &Path) {
    Path::new(text)
}

/// Whether a path is what joining a name to a directory gives.
pub closed spec fn names_inside(r: PathBuf, dir: &Path, name: Seq<char>) -> bool {
    exists|t: &str| t@ == name && #[trigger] call_ensures(name_inside, (dir, t), r)
}

/// Whether a path is the one that a text gives.
pub closed spec fn is_path_from(path: &Path, text: Seq<char>) -> bool {
    exists|t: &str| t@ == text && #[trigger] call_ensures(path_from, (t,), path)
}

/// Whether a path has this parent, or none.
pub closed spec fn stands_in(path: &Path, dir: Option<&Path>) -> bool {
    call_ensures(directory_of, (path,), dir)
}

/// Whether a path is that of a key's manifest: the name `embedder.json` joined to the key's parent,
/// or to the current directory where the key has none.
pub open spec fn is_beside(r: PathBuf, key: &Path) -> bool {
    ||| exists|dir: &Path| #[trigger]
        stands_in(key, Some(dir)) && names_inside(r, dir, "embedder.json"@)
    ||| stands_in(key, None) && exists|here: &Path| #[trigger]
        is_path_from(here, "."@) && names_inside(r, here, "embedder.json"@)
}

/// `<key dir>/embedder.json`.
pub fn manifest_path_for(key: &Path) -> (r: PathBuf)
    ensures
        is_beside(r, key),
{
    let name = "embedder.json";
    match directory_of(key) {
        Some(dir) => {
            let r = name_inside(dir, name);
            proof {
                assert(stands_in(key, Some(dir)));
                assert(names_inside(r, dir, name@));
            }
            r
        },
        None => {
            let dot = ".";
            let here = path_from(dot);
            let r = name_inside(here, name);
            proof {
                assert(is_path_from(here, dot@));
                assert(names_inside(r, here, name@));
            }
            r
        },
    }
}

/// An untagged pull is the same model as its `:latest` tag: the two share an identity.
pub proof fn law_latest_tag_is_the_same_model(model: Seq<char>)
    requires
        canonical(model) == model,
    ensures
        model_id(model + ":latest"@) == model_id(model),
{
    let tag = ":latest"@;
    let tagged = model + tag;
    assert(tagged.skip(tagged.len() - tag.len()) =~= tag);
    assert(tagged.take(tagged.len() - tag.len()) =~= model);
}

/// Different models have different identities, and none has the placeholder's. The one name that
/// spells the centred identity of another model is left out.
pub proof fn law_models_do_not_share_an_id(a: Seq<char>, b: Seq<char>)
    requires
        canonical(a) != canonical(b),
        canonical(a) != "nomic-embed-text"@ + "+centred-v1"@,
        canonical(b) != "nomic-embed-text"@ + "+centred-v1"@,
    ensures
        model_id(a) != model_id(b),
        model_id(a) != "bag-of-bytes-v1"@,
{
    let label = "ollama:"@;
    let x = model_id(a);
    let y = model_id(b);
    reveal_strlit("ollama:");
    reveal_strlit("bag-of-bytes-v1");
    assert(x[0] == 'o');
    assert("bag-of-bytes-v1"@[0] == 'b');
    let mark = "+centred-v1"@;
    let ra = if centred_model(a) { canonical(a) + mark } else { canonical(a) };
    let rb = if centred_model(b) { canonical(b) + mark } else { canonical(b) };
    assert(x =~= label + ra);
    assert(y =~= label + rb);
    assert(ra =~= x.skip(label.len() as int));
    assert(rb =~= y.skip(label.len() as int));
    if x == y {
        assert(ra == rb);
        assert(false);
    }
}

/// A model's name loses its `:latest` tag and nothing else, and any other name stays as it is.
pub proof fn law_only_the_latest_tag_is_dropped(model: Seq<char>)
    ensures
        canonical(model + ":latest"@) == model,
        canonical(model) == model || model == canonical(model) + ":latest"@,
        model.len() < 7 || model.last() != 't' ==> canonical(model) == model,
{
    let tag = ":latest"@;
    let tagged = model + tag;
    reveal_strlit(":latest");
    assert(tagged.skip(tagged.len() - tag.len()) =~= tag);
    assert(tagged.take(tagged.len() - tag.len()) =~= model);
    if canonical(model) != model {
        let n = model.len() - tag.len();
        assert(model =~= model.take(n) + model.skip(n));
        assert(model.skip(n).last() == model.last());
    }
}

/// A model's identity names the model behind the endpoint's own label, and is marked as centred
/// exactly where the model's shared direction is known.
pub proof fn law_ids_name_the_model_and_its_centring(model: Seq<char>)
    ensures
        model_id(model).take(7) == "ollama:"@,
        canonical(model) == "nomic-embed-text"@ ==> model_id(model).skip(7)
            == "nomic-embed-text+centred-v1"@,
        canonical(model) != "nomic-embed-text"@ ==> model_id(model).skip(7) == canonical(model),
{
    let c = canonical(model);
    reveal_strlit("ollama:");
    reveal_strlit("nomic-embed-text");
    reveal_strlit("+centred-v1");
    reveal_strlit("nomic-embed-text+centred-v1");
    assert(model_id(model).take(7) =~= "ollama:"@);
    if c == "nomic-embed-text"@ {
        assert(model_id(model).skip(7) =~= "nomic-embed-text+centred-v1"@);
    } else {
        assert(model_id(model).skip(7) =~= c);
    }
}

/// All the slashes at the end of a text go, and nothing else of it.
pub proof fn law_only_trailing_slashes_go(s: Seq<char>, slashes: Seq<char>)
    requires
        s.len() > 0 ==> s.last() != '/',
        forall|i: int| 0 <= i < slashes.len() ==> #[trigger] slashes[i] == '/',
    ensures
        without_slashes(s + slashes) == s,
    decreases slashes.len(),
{
    if slashes.len() == 0 {
        assert(s + slashes =~= s);
    } else {
        assert((s + slashes).drop_last() =~= s + slashes.drop_last());
        assert((s + slashes).last() == '/');
        law_only_trailing_slashes_go(s, slashes.drop_last());
    }
}

/// A separator is found at its first occurrence, and not at all where it does not occur.
proof fn found_at_the_first(s: Seq<char>, sep: Seq<char>, n: int)
    requires
        sep.len() > 0,
        0 <= n <= s.len(),
        forall|i: int|
            0 <= i < n && i + sep.len() <= s.len() ==> #[trigger] s.subrange(i, i + sep.len())
                != sep,
        n + sep.len() <= s.len() ==> s.subrange(n, n + sep.len()) == sep,
    ensures
        found_at(s, sep) == if n + sep.len() <= s.len() {
            Some(n)
        } else {
            None
        },
    decreases s.len(),
{
    if s.len() >= sep.len() {
        assert(s.subrange(0, 0int + sep.len()) =~= s.take(sep.len() as int));
        if n > 0 {
            let rest = s.drop_first();
            assert forall|i: int| 0 <= i < n - 1 && i + sep.len() <= rest.len() implies (
            #[trigger] rest.subrange(i, i + sep.len())) != sep by {
                assert(rest.subrange(i, i + sep.len()) =~= s.subrange(i + 1, i + 1 + sep.len()));
            }
            if n + sep.len() <= s.len() {
                assert(rest.subrange(n - 1, n - 1 + sep.len()) =~= s.subrange(n, n + sep.len()));
            }
            found_at_the_first(rest, sep, n - 1);
        }
    }
}

/// A character is last found where it last occurs.
proof fn found_at_the_last(s: Seq<char>, c: char, n: int)
    requires
        0 <= n < s.len(),
        s[n] == c,
        forall|i: int| n < i < s.len() ==> s[i] != c,
    ensures
        last_at(s, c) == Some(n),
    decreases s.len(),
{
    if n < s.len() - 1 {
        found_at_the_last(s.drop_last(), c, n);
    }
}

/// What is found last is the character, and none comes after it.
proof fn nothing_after_the_last(s: Seq<char>, c: char)
    ensures
        match last_at(s, c) {
            Some(n) => 0 <= n < s.len() && s[n] == c && forall|i: int|
                n < i < s.len() ==> s[i] != c,
            None => forall|i: int| 0 <= i < s.len() ==> s[i] != c,
        },
    decreases s.len(),
{
    if s.len() > 0 && s.last() != c {
        nothing_after_the_last(s.drop_last(), c);
        let rest = s.drop_last();
        assert forall|i: int| 0 <= i < s.len() - 1 implies s[i] == rest[i] by {}
    }
}

/// Whether a text spells a host of this machine, alone or before a colon and a port that is no
/// rest of a user name.
pub open spec fn names_this_machine(authority: Seq<char>) -> bool {
    ||| loopback_host(authority)
    ||| exists|host: Seq<char>, port: Seq<char>| #[trigger]
        (host + seq![':'] + port) == authority && loopback_host(host) && (forall|i: int|
            0 <= i < port.len() ==> port[i] != ':') && !hides_host(port)
}

/// What stands before the path is found in a URL with a scheme: it ends at the first slash.
proof fn authority_found(scheme: Seq<char>, authority: Seq<char>, tail: Seq<char>)
    requires
        forall|i: int| 0 <= i < scheme.len() ==> scheme[i] != ':',
        forall|i: int| 0 <= i < authority.len() ==> authority[i] != '/',
        tail.len() > 0 ==> tail[0] == '/',
        tail.len() > 1 && authority.len() > 0 && authority.last() == ':' ==> tail[1] != '/',
    ensures
        before_first(after_scheme(scheme + "://"@ + authority + tail), "/"@) == authority,
{
    let url = scheme + "://"@ + authority + tail;
    let sep = "://"@;
    let n = scheme.len() as int;
    reveal_strlit("://");
    reveal_strlit("/");
    assert forall|i: int| 0 <= i < n && i + 3 <= url.len() implies (#[trigger] url.subrange(
        i,
        i + sep.len(),
    )) != sep by {
        assert(url.subrange(i, i + 3)[0] == scheme[i]);
    }
    assert(url.subrange(n, n + 3) =~= sep);
    found_at_the_first(url, sep, n);
    let rest = url.skip(n + 3);
    assert(rest =~= authority + tail);
    let m = authority.len() as int;
    found_at_bounds(rest, sep);
    let run = before_first(rest, sep);
    if let Some(i) = found_at(rest, sep) {
        let hit = rest.subrange(i, i + 3);
        assert(hit == sep);
        assert(hit[0] == rest[i] && hit[1] == rest[i + 1] && hit[2] == rest[i + 2]);
        if i < m {
            assert(rest[i + 1] == '/');
            assert(i + 1 >= m) by {
                if i + 1 < m {
                    assert(rest[i + 1] == authority[i + 1]);
                }
            }
            assert(rest[i] == authority.last());
            assert(rest[i + 2] == tail[1]);
            assert(false);
        }
        assert(i >= m);
        if i == m {
            assert(rest[i] == tail[0]);
            assert(false);
        }
        assert(run =~= authority + tail.take(i - m));
    }
    let path = if found_at(rest, sep) is Some {
        tail.take(found_at(rest, sep)->0 - m)
    } else {
        tail
    };
    assert(run =~= authority + path);
    assert(path.len() > 0 ==> path[0] == '/');
    assert forall|i: int| 0 <= i < m && i + 1 <= run.len() implies (#[trigger] run.subrange(
        i,
        i + "/"@.len(),
    )) != "/"@ by {
        assert(run.subrange(i, i + 1)[0] == authority[i]);
    }
    if m + 1 <= run.len() {
        assert(run.subrange(m, m + 1) =~= "/"@);
    }
    found_at_the_first(run, "/"@, m);
    assert(before_first(run, "/"@) =~= authority);
}

/// A URL leads to this machine exactly where the authority between its scheme and its path names
/// it: nothing in the path makes it so or not, and no other host that begins or ends alike does.
///
/// An authority that ends in a colon right before a path of two slashes reads as a scheme of its
/// own and is left out.
pub proof fn law_only_this_machine_is_loopback(
    scheme: Seq<char>,
    authority: Seq<char>,
    tail: Seq<char>,
)
    requires
        forall|i: int| 0 <= i < scheme.len() ==> scheme[i] != ':',
        forall|i: int| 0 <= i < authority.len() ==> authority[i] != '/',
        tail.len() > 0 ==> tail[0] == '/',
        tail.len() > 1 && authority.len() > 0 && authority.last() == ':' ==> tail[1] != '/',
    ensures
        loopback_url(scheme + "://"@ + authority + tail) <==> names_this_machine(authority),
{
    let url = scheme + "://"@ + authority + tail;
    authority_found(scheme, authority, tail);
    nothing_after_the_last(authority, ':');
    if let Some(i) = last_at(authority, ':') {
        let host = authority.take(i);
        let port = authority.skip(i + 1);
        assert(host + seq![':'] + port =~= authority);
        assert forall|j: int| 0 <= j < port.len() implies port[j] != ':' by {
            assert(port[j] == authority[i + 1 + j]);
        }
    }
    if names_this_machine(authority) && !loopback_host(authority) {
        let (host, port) = choose|host: Seq<char>, port: Seq<char>| #[trigger]
            (host + seq![':'] + port) == authority && loopback_host(host) && (forall|i: int|
                0 <= i < port.len() ==> port[i] != ':') && !hides_host(port);
        let n = host.len() as int;
        assert(authority[n] == ':');
        assert forall|j: int| n < j < authority.len() implies authority[j] != ':' by {
            assert(authority[j] == port[j - n - 1]);
        }
        found_at_the_last(authority, ':', n);
        assert(authority.take(n) =~= host);
        assert(authority.skip(n + 1) =~= port);
    }
}

/// A host of this machine is loopback with any port of digits and any path.
pub proof fn law_this_machine_is_loopback_at_any_port(
    scheme: Seq<char>,
    host: Seq<char>,
    port: Seq<char>,
    path: Seq<char>,
)
    requires
        forall|i: int| 0 <= i < scheme.len() ==> scheme[i] != ':',
        host == "127.0.0.1"@ || host == "localhost"@ || host == "[::1]"@,
        port.len() > 0,
        forall|i: int| 0 <= i < port.len() ==> '0' <= #[trigger] port[i] <= '9',
    ensures
        loopback_url(scheme + "://"@ + (host + seq![':'] + port) + (seq!['/'] + path)),
        loopback_url(scheme + "://"@ + host + (seq!['/'] + path)),
        loopback_url(scheme + "://"@ + host + Seq::<char>::empty()),
{
    reveal_strlit("127.0.0.1");
    reveal_strlit("localhost");
    reveal_strlit("[::1]");
    let tail = seq!['/'] + path;
    let authority = host + seq![':'] + port;
    assert forall|i: int| 0 <= i < host.len() implies host[i] != '/' by {}
    assert forall|i: int| 0 <= i < authority.len() implies authority[i] != '/' by {
        if i > host.len() {
            assert(authority[i] == port[i - host.len() - 1]);
        }
    }
    assert(authority.last() == port.last());
    assert(host.last() != ':');
    assert(loopback_host(host));
    assert(!hides_host(port));
    law_only_this_machine_is_loopback(scheme, authority, tail);
    law_only_this_machine_is_loopback(scheme, host, tail);
    law_only_this_machine_is_loopback(scheme, host, Seq::<char>::empty());
}

/// A user name in front of a host makes the URL another machine's, however the name is spelled:
/// what stands behind the `@` is the host.
pub proof fn law_user_names_hide_no_host(
    scheme: Seq<char>,
    user: Seq<char>,
    host: Seq<char>,
    tail: Seq<char>,
)
    requires
        forall|i: int| 0 <= i < scheme.len() ==> scheme[i] != ':',
        forall|i: int| 0 <= i < user.len() ==> user[i] != '/' && user[i] != '?' && user[i] != '#',
        forall|i: int| 0 <= i < host.len() ==> host[i] != '/' && host[i] != ':',
        tail.len() > 0 ==> tail[0] == '/',
    ensures
        !loopback_url(scheme + "://"@ + (user + seq!['@'] + host) + tail),
{
    let authority = user + seq!['@'] + host;
    let at = user.len() as int;
    reveal_strlit("127.0.0.1");
    reveal_strlit("localhost");
    reveal_strlit("::1");
    reveal_strlit("[::1]");
    assert(authority[at] == '@');
    assert forall|i: int| 0 <= i < authority.len() implies authority[i] != '/' by {
        if i < at {
            assert(authority[i] == user[i]);
        } else if i > at {
            assert(authority[i] == host[i - at - 1]);
        }
    }
    if host.len() > 0 {
        assert(authority.last() == host.last());
    }
    law_only_this_machine_is_loopback(scheme, authority, tail);
    if names_this_machine(authority) {
        assert(!loopback_host(authority));
        let (name, port) = choose|name: Seq<char>, port: Seq<char>| #[trigger]
            (name + seq![':'] + port) == authority && loopback_host(name) && (forall|i: int|
                0 <= i < port.len() ==> port[i] != ':') && !hides_host(port);
        let n = name.len() as int;
        assert(authority[n] == ':');
        if at < n {
            assert(name[at] == authority[at]);
            assert(false);
        }
        let j = at - n - 1;
        assert(port[j] == authority[at]);
        assert forall|k: int| 0 <= k < j implies port[k] != '?' && port[k] != '#' by {
            assert(port[k] == authority[n + 1 + k]);
            assert(authority[n + 1 + k] == user[n + 1 + k]);
        }
        assert(hides_host(port));
    }
}

/// A bucket's count grows by one for each of its bytes up to the most that is counted, whatever
/// the order and whatever else there is: it is the number of places whose byte falls into it.
pub proof fn law_buckets_count_their_bytes(bytes: Seq<u8>, bucket: int)
    ensures
        places_in_bucket(bytes, bucket).finite(),
        bucket_count(bytes, bucket) == if places_in_bucket(bytes, bucket).len() < MAX_COUNT {
            places_in_bucket(bytes, bucket).len() as int
        } else {
            MAX_COUNT as int
        },
    decreases bytes.len(),
{
    let places = places_in_bucket(bytes, bucket);
    if bytes.len() == 0 {
        assert(places =~= Set::empty());
    } else {
        let rest = bytes.drop_last();
        law_buckets_count_their_bytes(rest, bucket);
        let before = places_in_bucket(rest, bucket);
        let n = bytes.len() - 1;
        assert(!before.contains(n));
        if bytes.last() as int % 64 == bucket {
            assert(places =~= before.insert(n));
        } else {
            assert(places =~= before);
        }
    }
}

/// The places of the bytes that fall into a bucket.
pub open spec fn places_in_bucket(bytes: Seq<u8>, bucket: int) -> Set<int> {
    Set::new(|i: int| 0 <= i < bytes.len() && bytes[i] as int % 64 == bucket)
}

/// A manifest's label tells parameters apart: two that are written alike are the same, bands and
/// bits each.
pub proof fn law_labels_tell_parameters_apart(a: IndexParams, b: IndexParams)
    ensures
        params_text(a) == params_text(b) ==> a.bands == b.bands && a.band_bits == b.band_bits,
{
    let (ab, ac) = (decimal_text(a.bands as nat), decimal_text(a.band_bits as nat));
    let (bb, bc) = (decimal_text(b.bands as nat), decimal_text(b.band_bits as nat));
    reveal_strlit("x");
    law_decimals_spell_their_number(a.bands as nat);
    law_decimals_spell_their_number(a.band_bits as nat);
    law_decimals_spell_their_number(b.bands as nat);
    law_decimals_spell_their_number(b.band_bits as nat);
    let (x, y) = (params_text(a), params_text(b));
    if x == y {
        assert(x[ab.len() as int] == 'x');
        assert(y[bb.len() as int] == 'x');
        if ab.len() < bb.len() {
            assert(y[ab.len() as int] == bb[ab.len() as int]);
        }
        if bb.len() < ab.len() {
            assert(x[bb.len() as int] == ab[bb.len() as int]);
        }
        assert(ab =~= x.take(ab.len() as int));
        assert(bb =~= y.take(bb.len() as int));
        assert(ac =~= x.skip(ab.len() + 1int));
        assert(bc =~= y.skip(bb.len() + 1int));
    }
}

/// The names of this machine are its loopback addresses and `localhost`, and the address that is
/// made of colons with brackets around it or without. Nothing else is: not the address of every
/// interface, not a name in other letters, not a longer name.
pub proof fn law_this_machine_has_four_names(host: Seq<char>)
    ensures
        (forall|i: int| 0 <= i < host.len() ==> host[i] != ':') ==> (loopback_host(host) <==> host
            == "127.0.0.1"@ || host == "localhost"@),
        (exists|i: int| 0 <= i < host.len() && host[i] == ':') ==> (loopback_host(host) <==> host
            == "::1"@ || host == seq!['['] + "::1"@ + seq![']']),
{
    reveal_strlit("127.0.0.1");
    reveal_strlit("localhost");
    reveal_strlit("::1");
    reveal_strlit("[::1]");
    assert("[::1]"@ =~= seq!['['] + "::1"@ + seq![']']);
    assert("[::1]"@[1] == ':');
    assert("::1"@[0] == ':');
    if host == "127.0.0.1"@ || host == "localhost"@ {
        assert forall|i: int| 0 <= i < host.len() implies host[i] != ':' by {}
    }
}

/// A port and a query behind a host of this machine leave it this machine's, whatever the query
/// holds that is no part of an authority.
pub proof fn law_queries_name_no_host(host: Seq<char>, port: Seq<char>, query: Seq<char>)
    requires
        host == "127.0.0.1"@ || host == "localhost"@ || host == "[::1]"@,
        forall|i: int| 0 <= i < port.len() ==> '0' <= #[trigger] port[i] <= '9',
        forall|i: int| 0 <= i < query.len() ==> query[i] != ':' && query[i] != '/',
    ensures
        names_this_machine(host + seq![':'] + (port + seq!['?'] + query)),
{
    let rest = port + seq!['?'] + query;
    let n = port.len() as int;
    assert(rest[n] == '?');
    assert forall|i: int| 0 <= i < rest.len() implies rest[i] != ':' by {
        if i < n {
            assert(rest[i] == port[i]);
        } else if i > n {
            assert(rest[i] == query[i - n - 1]);
        }
    }
    assert(!hides_host(rest)) by {
        if hides_host(rest) {
            let i = choose|i: int|
                0 <= i < rest.len() && #[trigger] rest[i] == '@' && forall|j: int|
                    0 <= j < i ==> rest[j] != '?' && rest[j] != '#';
            if i < n {
                assert(rest[i] == port[i]);
            }
            assert(n < i);
            assert(rest[n] == '?');
        }
    }
    assert(loopback_host(host));
}

/// A manifest that was written before parameters were recorded allows any, of the same embedder.
pub proof fn law_older_manifests_allow_any_parameters(
    m: Manifest,
    current: Seq<char>,
    params: Seq<char>,
)
    requires
        m.params is None,
    ensures
        allows(m, current, params) <==> m.embedder@ == current,
{
}

/// A refusal names what it refused, and a change what was recorded and, behind it, what is running.
pub proof fn law_refusals_name_what_they_refuse(a: String, b: String)
    ensures
        exists|x: Seq<char>, y: Seq<char>, z: Seq<char>| #[trigger]
            (x + a@ + y + b@ + z) == (EmbedError::ModelChanged { recorded: a, current: b }).text(),
        exists|x: Seq<char>, y: Seq<char>, z: Seq<char>| #[trigger]
            (x + a@ + y + b@ + z) == (EmbedError::ParamsChanged { recorded: a, current: b }).text(),
        exists|x: Seq<char>, y: Seq<char>, z: Seq<char>| #[trigger]
            (x + a@ + y + b@ + z) == (EmbedError::Unreachable { url: a, source: b }).text(),
        exists|x: Seq<char>, z: Seq<char>| #[trigger]
            (x + a@ + z) == EmbedError::NotLocal(a).text(),
        exists|x: Seq<char>| #[trigger] (x + a@) == EmbedError::Malformed(a).text(),
{
    let model = EmbedError::ModelChanged { recorded: a, current: b };
    let params = EmbedError::ParamsChanged { recorded: a, current: b };
    assert(model.text().len() >= a@.len() + b@.len());
    assert(params.text().len() >= a@.len() + b@.len());
}

} // verus!
