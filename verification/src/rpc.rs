//! The agent's side of the shim: one JSON-RPC request per line, and what is said in answer.

use crate::bytes::be64;
use crate::embedder::{embeds_as, EmbedError, Embedder};
use crate::envelope::{handle_of, namespace_key_of, open_outcome};
use crate::framing::{frame_of, unframed};
use crate::json::{
    member_text, member_value, number_in, parse_json, parsed_json, text_in, Json, JsonView,
};
use crate::keyfile::{is_blank, trimmed};
use crate::recall::{is_recall, law_recalls_are_bounded, memory_views, Memory};
use crate::store::IndexMode;
use crate::text::{hex, hex_text, join, same_text};
use crate::tool_list::{
    forget_tool, read_tool, search_tool, write_tool, DefaultView, ToolView,
};
use crate::tools::{
    did_read, forgot, memories_of, opened_are_no_more, scores_for, searched, unscored, wire_id,
    wrote, MemoryTools, ToolError,
};
use crate::transport::{crosses, Exchange, ProviderTransport, TransportError};
use vstd::prelude::*;
use vstd::string::StringExecFns;
use vstd::utf8::encode_utf8;

verus! {

/// How many memories a search returns where the agent does not say.
pub const DEFAULT_LIMIT: u64 = 10;

/// What an agent asks for.
#[derive(Debug)]
pub enum Call {
    Initialize,
    Initialized,
    ListTools,
    Write { namespace: String, item_id: String, text: String, expires_at: Option<u64> },
    Search { namespace: String, query: String, limit: usize },
    Read { namespace: String, item_id: String },
    Forget { namespace: String, item_id: String },
    UnknownTool(String),
    UnknownMethod(String),
}

/// What an agent asks for.
#[verifier::ext_equal]
pub enum CallView {
    Initialize,
    Initialized,
    ListTools,
    Write { namespace: Seq<char>, item_id: Seq<char>, text: Seq<char>, expires_at: Option<u64> },
    Search { namespace: Seq<char>, query: Seq<char>, limit: usize },
    Read { namespace: Seq<char>, item_id: Seq<char> },
    Forget { namespace: Seq<char>, item_id: Seq<char> },
    UnknownTool(Seq<char>),
    UnknownMethod(Seq<char>),
}

impl View for Call {
    type V = CallView;

    open spec fn view(&self) -> CallView {
        match self {
            Call::Initialize => CallView::Initialize,
            Call::Initialized => CallView::Initialized,
            Call::ListTools => CallView::ListTools,
            Call::Write { namespace, item_id, text, expires_at } => CallView::Write {
                namespace: namespace@,
                item_id: item_id@,
                text: text@,
                expires_at: *expires_at,
            },
            Call::Search { namespace, query, limit } => CallView::Search {
                namespace: namespace@,
                query: query@,
                limit: *limit,
            },
            Call::Read { namespace, item_id } => CallView::Read {
                namespace: namespace@,
                item_id: item_id@,
            },
            Call::Forget { namespace, item_id } => CallView::Forget {
                namespace: namespace@,
                item_id: item_id@,
            },
            Call::UnknownTool(name) => CallView::UnknownTool(name@),
            Call::UnknownMethod(name) => CallView::UnknownMethod(name@),
        }
    }
}

/// The arguments of a tool call, as far as the agent gave them.
#[derive(Debug)]
pub struct Arguments {
    pub namespace: Option<String>,
    pub item_id: Option<String>,
    pub text: Option<String>,
    pub query: Option<String>,
    pub expires_at: Option<u64>,
    pub limit: Option<u64>,
}

/// The arguments of a tool call, as far as the agent gave them.
#[verifier::ext_equal]
pub struct ArgumentsView {
    pub namespace: Option<Seq<char>>,
    pub item_id: Option<Seq<char>>,
    pub text: Option<Seq<char>>,
    pub query: Option<Seq<char>>,
    pub expires_at: Option<u64>,
    pub limit: Option<u64>,
}

/// A text that may be missing.
pub open spec fn maybe(s: Option<String>) -> Option<Seq<char>> {
    match s {
        Some(s) => Some(s@),
        None => None,
    }
}

/// A text, or another where it is missing.
pub open spec fn or_else(s: Option<Seq<char>>, other: Seq<char>) -> Seq<char> {
    match s {
        Some(s) => s,
        None => other,
    }
}

impl View for Arguments {
    type V = ArgumentsView;

    open spec fn view(&self) -> ArgumentsView {
        ArgumentsView {
            namespace: maybe(self.namespace),
            item_id: maybe(self.item_id),
            text: maybe(self.text),
            query: maybe(self.query),
            expires_at: self.expires_at,
            limit: self.limit,
        }
    }
}

/// The digest of a text that names it: FNV-1a over its bytes, from this project's own start.
pub open spec fn content_hash(bytes: Seq<u8>) -> u64
    decreases bytes.len(),
{
    if bytes.len() == 0 {
        1469598103934665603
    } else {
        (content_hash(bytes.drop_last()) ^ (bytes.last() as u64)).wrapping_mul(1099511628211)
    }
}

/// The id of a memory whose agent gave none. Content-addressed so the same thought written twice
/// does not become two memories the user has to notice and reconcile.
pub open spec fn content_id_of(text: Seq<char>) -> Seq<char> {
    "m"@ + hex_text(be64(content_hash(encode_utf8(text))))
}

/// What a tool call asks for.
pub open spec fn tool_call_of(
    name: Seq<char>,
    args: ArgumentsView,
    default_namespace: Seq<char>,
) -> CallView {
    let namespace = or_else(args.namespace, default_namespace);
    let item_id = or_else(args.item_id, Seq::empty());
    if name == "memory.write"@ {
        let text = or_else(args.text, Seq::empty());
        CallView::Write {
            namespace,
            item_id: or_else(args.item_id, content_id_of(text)),
            text,
            expires_at: args.expires_at,
        }
    } else if name == "memory.search"@ {
        CallView::Search {
            namespace,
            query: or_else(args.query, Seq::empty()),
            limit: match args.limit {
                Some(n) => n as usize,
                None => DEFAULT_LIMIT as usize,
            },
        }
    } else if name == "memory.read"@ {
        CallView::Read { namespace, item_id }
    } else if name == "memory.forget"@ {
        CallView::Forget { namespace, item_id }
    } else {
        CallView::UnknownTool(name)
    }
}

/// The arguments that a JSON value gives.
pub open spec fn arguments_in(v: JsonView) -> ArgumentsView {
    ArgumentsView {
        namespace: text_in(member_value(v, "namespace"@)),
        item_id: text_in(member_value(v, "item_id"@)),
        text: text_in(member_value(v, "text"@)),
        query: text_in(member_value(v, "query"@)),
        expires_at: number_in(member_value(v, "expires_at"@)),
        limit: number_in(member_value(v, "limit"@)),
    }
}

/// What a request asks for.
pub open spec fn call_in(v: JsonView, default_namespace: Seq<char>) -> CallView {
    let method = or_else(text_in(member_value(v, "method"@)), Seq::empty());
    let params = member_value(v, "params"@);
    if method == "initialize"@ {
        CallView::Initialize
    } else if method == "notifications/initialized"@ {
        CallView::Initialized
    } else if method == "tools/list"@ {
        CallView::ListTools
    } else if method == "tools/call"@ {
        tool_call_of(
            or_else(text_in(member_value(params, "name"@)), Seq::empty()),
            arguments_in(member_value(params, "arguments"@)),
            default_namespace,
        )
    } else {
        CallView::UnknownMethod(method)
    }
}

/// The id of a request, as a JSON text, null where it has none.
pub open spec fn request_id(v: JsonView) -> Seq<char> {
    or_else(member_text(v, "id"@), "null"@)
}

/// The digest of a text that names it.
fn hash_bytes(bytes: &[u8]) -> (h: u64)
    ensures
        h == content_hash(bytes@),
{
    let mut h: u64 = 1469598103934665603;
    let mut i: usize = 0;
    proof {
        assert(bytes@.take(0).len() == 0);
    }
    while i < bytes.len()
        invariant
            i <= bytes.len(),
            h == content_hash(bytes@.take(i as int)),
        decreases bytes.len() - i,
    {
        proof {
            assert(bytes@.take(i + 1).drop_last() =~= bytes@.take(i as int));
        }
        h = (h ^ (bytes[i] as u64)).wrapping_mul(1099511628211);
        i = i + 1;
    }
    proof {
        assert(bytes@.take(i as int) =~= bytes@);
    }
    h
}

/// The id of a memory whose agent gave none.
pub fn content_id(text: &str) -> (r: String)
    ensures
        r@ == content_id_of(text@),
{
    let mut bytes: Vec<u8> = Vec::new();
    crate::bytes::push_be64(&mut bytes, hash_bytes(text.as_bytes()));
    proof {
        assert(bytes@ =~= be64(content_hash(encode_utf8(text@))));
    }
    join("m", hex(bytes.as_slice()).as_str())
}

/// A text, or another where it is missing.
fn text_or(s: Option<String>, other: &str) -> (r: String)
    ensures
        r@ == or_else(maybe(s), other@),
{
    match s {
        Some(s) => s,
        None => other.to_owned(),
    }
}

/// What a tool call asks for.
pub fn tool_call(name: &str, args: Arguments, default_namespace: &str) -> (r: Call)
    ensures
        r@ == tool_call_of(name@, args@, default_namespace@),
{
    proof {
        reveal_strlit("");
        assert(""@ =~= Seq::<char>::empty());
    }
    let namespace = text_or(args.namespace, default_namespace);
    if same_text(name, "memory.write") {
        let text = text_or(args.text, "");
        let item_id = match args.item_id {
            Some(id) => id,
            None => content_id(text.as_str()),
        };
        Call::Write { namespace, item_id, text, expires_at: args.expires_at }
    } else if same_text(name, "memory.search") {
        let limit: usize = match args.limit {
            Some(n) => n as usize,
            None => DEFAULT_LIMIT as usize,
        };
        Call::Search { namespace, query: text_or(args.query, ""), limit }
    } else if same_text(name, "memory.read") {
        Call::Read { namespace, item_id: text_or(args.item_id, "") }
    } else if same_text(name, "memory.forget") {
        Call::Forget { namespace, item_id: text_or(args.item_id, "") }
    } else {
        Call::UnknownTool(name.to_owned())
    }
}

/// The arguments that a JSON value gives.
fn read_arguments(v: &Json) -> (r: Arguments)
    ensures
        r@ == arguments_in(v@),
{
    Arguments {
        namespace: v.get("namespace").into_text(),
        item_id: v.get("item_id").into_text(),
        text: v.get("text").into_text(),
        query: v.get("query").into_text(),
        expires_at: v.get("expires_at").number(),
        limit: v.get("limit").number(),
    }
}

/// What a request asks for.
pub fn read_call(v: &Json, default_namespace: &str) -> (r: Call)
    ensures
        r@ == call_in(v@, default_namespace@),
{
    proof {
        reveal_strlit("");
        assert(""@ =~= Seq::<char>::empty());
    }
    let method = text_or(v.get("method").into_text(), "");
    if same_text(method.as_str(), "initialize") {
        Call::Initialize
    } else if same_text(method.as_str(), "notifications/initialized") {
        Call::Initialized
    } else if same_text(method.as_str(), "tools/list") {
        Call::ListTools
    } else if same_text(method.as_str(), "tools/call") {
        let params = v.get("params");
        let name = text_or(params.get("name").into_text(), "");
        tool_call(name.as_str(), read_arguments(&params.get("arguments")), default_namespace)
    } else {
        Call::UnknownMethod(method)
    }
}

/// One line from an agent.
#[derive(Debug)]
pub enum Line {
    /// Nothing but white space; there is nothing to answer.
    Blank,
    /// Not JSON, and what the parser says is wrong.
    Malformed(String),
    /// A request: its id, as a JSON text, and what it asks for.
    Request { id: String, call: Call },
}

/// Reads one line from an agent.
pub fn read_line(line: &str, default_namespace: &str) -> (r: Line)
    ensures
        if trimmed(line@).len() == 0 {
            r is Blank
        } else {
            match parsed_json(encode_utf8(line@)) {
                Err(why) => r matches Line::Malformed(m) && m@ == why,
                Ok(v) => {
                    &&& r matches Line::Request { id, call }
                    &&& id@ == request_id(v)
                    &&& call@ == call_in(v, default_namespace@)
                },
            }
        },
{
    if is_blank(line) {
        return Line::Blank;
    }
    match parse_json(line.as_bytes()) {
        Err(why) => Line::Malformed(why),
        Ok(v) => {
            let id = match v.member("id") {
                Some(id) => id.to_owned(),
                None => "null".to_owned(),
            };
            Line::Request { id, call: read_call(&v, default_namespace) }
        },
    }
}

/// What is said in answer to a write.
pub fn write_reply(item_id: &str, outcome: &Result<(), ToolError>) -> (r: Result<String, String>)
    ensures
        match outcome {
            Ok(_) => r matches Ok(s) && s@ == "remembered as "@ + item_id@,
            Err(e) => r matches Err(s) && s@ == e.text(),
        },
{
    match outcome {
        Ok(_) => Ok(join("remembered as ", item_id)),
        Err(e) => Err(e.message()),
    }
}

/// What is said in answer to a read.
pub fn read_reply(outcome: &Result<Memory, ToolError>) -> (r: Result<String, String>)
    ensures
        match outcome {
            Ok(m) => r matches Ok(s) && s@ == m.text@,
            Err(e) => r matches Err(s) && s@ == e.text(),
        },
{
    match outcome {
        Ok(m) => Ok(m.text.clone()),
        Err(e) => Err(e.message()),
    }
}

/// What is said in answer to a deletion. The provider cannot prove it deleted anything, and neither
/// can this, so "nothing to forget" is the honest phrasing.
pub fn forget_reply(outcome: &Result<bool, ToolError>) -> (r: Result<String, String>)
    ensures
        match outcome {
            Ok(removed) => r matches Ok(s) && s@ == if *removed {
                "forgotten"@
            } else {
                "nothing to forget under that id"@
            },
            Err(e) => r matches Err(s) && s@ == e.text(),
        },
{
    match outcome {
        Ok(removed) => {
            if *removed {
                Ok("forgotten".to_owned())
            } else {
                Ok("nothing to forget under that id".to_owned())
            }
        },
        Err(e) => Err(e.message()),
    }
}

/// One recalled memory, as it is told: its name, its score as given, and its text.
pub open spec fn hit_line(m: Memory, score: Seq<char>) -> Seq<char> {
    "["@ + m.item_id@ + " "@ + score + "] "@ + m.text@
}

/// Recalled memories, one to a line.
pub open spec fn hit_lines(hits: Seq<Memory>, scores: Seq<String>) -> Seq<char>
    decreases hits.len(),
{
    if hits.len() == 0 {
        Seq::empty()
    } else if hits.len() == 1 {
        hit_line(hits[0], scores[0]@)
    } else {
        hit_lines(hits.drop_last(), scores.drop_last()) + "\n"@ + hit_line(
            hits.last(),
            scores.last()@,
        )
    }
}

/// What is said in answer to a search, given how each score is written.
pub fn search_reply(hits: &Vec<Memory>, scores: &Vec<String>) -> (r: String)
    requires
        scores.len() == hits.len(),
    ensures
        r@ == if hits@.len() == 0 {
            "no matching memories"@
        } else {
            hit_lines(hits@, scores@)
        },
{
    if hits.len() == 0 {
        return "no matching memories".to_owned();
    }
    let mut out = String::new();
    let mut i: usize = 0;
    proof {
        assert(out@ =~= hit_lines(hits@.take(0), scores@.take(0)));
    }
    while i < hits.len()
        invariant
            scores.len() == hits.len(),
            i <= hits.len(),
            out@ == hit_lines(hits@.take(i as int), scores@.take(i as int)),
        decreases hits.len() - i,
    {
        let ghost before = out@;
        proof {
            assert(hits@.take(i + 1).drop_last() =~= hits@.take(i as int));
            assert(scores@.take(i + 1).drop_last() =~= scores@.take(i as int));
        }
        if i > 0 {
            out.append("\n");
        }
        out.append("[");
        out.append(hits[i].item_id.as_str());
        out.append(" ");
        out.append(scores[i].as_str());
        out.append("] ");
        out.append(hits[i].text.as_str());
        proof {
            assert(out@ =~= hit_lines(hits@.take(i + 1), scores@.take(i + 1)));
        }
        i = i + 1;
    }
    proof {
        assert(hits@.take(i as int) =~= hits@);
        assert(scores@.take(i as int) =~= scores@);
    }
    out
}

/// What a request comes to.
#[derive(Debug)]
pub enum Answer {
    /// Who this is and what it can do.
    Welcome,
    /// Nothing is to be said.
    Silence,
    /// The tools there are.
    Tools,
    /// What a tool says.
    Said(String),
    /// The memories that a search found.
    Recalled(Vec<Memory>),
    /// Why a request failed.
    Failed(String),
}

/// Whether an answer is a text, or a failure with what it says.
pub open spec fn says(r: Answer, said: Result<Seq<char>, Seq<char>>) -> bool {
    match said {
        Ok(text) => r matches Answer::Said(s) && s@ == text,
        Err(text) => r matches Answer::Failed(s) && s@ == text,
    }
}

/// Whether a write was made and its outcome told.
pub open spec fn told_of_write<T: ProviderTransport, E: Embedder>(
    before: MemoryTools<T, E>,
    after: MemoryTools<T, E>,
    namespace: Seq<char>,
    item_id: Seq<char>,
    text: Seq<char>,
    expires_at: Option<u64>,
    r: Answer,
) -> bool {
    exists|outcome: Result<(), ToolError>| #[trigger]
        wrote(before, after, namespace, item_id, text, expires_at, outcome) && says(
            r,
            match outcome {
                Ok(_) => Ok("remembered as "@ + item_id),
                Err(e) => Err(e.text()),
            },
        )
}

/// Whether a search was made and its outcome told.
pub open spec fn told_of_search<T: ProviderTransport, E: Embedder>(
    before: MemoryTools<T, E>,
    after: MemoryTools<T, E>,
    namespace: Seq<char>,
    query: Seq<char>,
    limit: usize,
    r: Answer,
) -> bool {
    exists|outcome: Result<Vec<Memory>, ToolError>| #[trigger]
        searched(before, after, namespace, query, limit, outcome) && match outcome {
            Ok(hits) => r == Answer::Recalled(hits),
            Err(e) => says(r, Err(e.text())),
        }
}

/// Whether a read was made and its outcome told.
pub open spec fn told_of_read<T: ProviderTransport, E: Embedder>(
    before: MemoryTools<T, E>,
    after: MemoryTools<T, E>,
    namespace: Seq<char>,
    item_id: Seq<char>,
    r: Answer,
) -> bool {
    exists|outcome: Result<Memory, ToolError>| #[trigger]
        did_read(before, after, namespace, item_id, outcome) && says(
            r,
            match outcome {
                Ok(m) => Ok(m.text@),
                Err(e) => Err(e.text()),
            },
        )
}

/// Whether a deletion was asked for and its outcome told.
pub open spec fn told_of_forget<T: ProviderTransport, E: Embedder>(
    before: MemoryTools<T, E>,
    after: MemoryTools<T, E>,
    namespace: Seq<char>,
    item_id: Seq<char>,
    r: Answer,
) -> bool {
    exists|outcome: Result<bool, ToolError>| #[trigger]
        forgot(before, after, namespace, item_id, outcome) && says(
            r,
            match outcome {
                Ok(removed) => Ok(
                    if removed {
                        "forgotten"@
                    } else {
                        "nothing to forget under that id"@
                    },
                ),
                Err(e) => Err(e.text()),
            },
        )
}

/// What an agent's request does, and what it comes to: the tool it names is run once, with its
/// arguments, and the answer is that tool's outcome; a request for anything else runs none.
pub open spec fn performs<T: ProviderTransport, E: Embedder>(
    before: MemoryTools<T, E>,
    after: MemoryTools<T, E>,
    call: CallView,
    r: Answer,
) -> bool {
    match call {
        CallView::Initialize => after == before && r is Welcome,
        CallView::Initialized => after == before && r is Silence,
        CallView::ListTools => after == before && r is Tools,
        CallView::Write { namespace, item_id, text, expires_at } => told_of_write(
            before,
            after,
            namespace,
            item_id,
            text,
            expires_at,
            r,
        ),
        CallView::Search { namespace, query, limit } => told_of_search(
            before,
            after,
            namespace,
            query,
            limit,
            r,
        ),
        CallView::Read { namespace, item_id } => told_of_read(before, after, namespace, item_id, r),
        CallView::Forget { namespace, item_id } => told_of_forget(
            before,
            after,
            namespace,
            item_id,
            r,
        ),
        CallView::UnknownTool(name) => after == before && says(r, Err("unknown tool: "@ + name)),
        CallView::UnknownMethod(name) => after == before && says(
            r,
            Err("unknown method: "@ + name),
        ),
    }
}

/// An answer that is a text, or a failure.
fn said(outcome: Result<String, String>) -> (r: Answer)
    ensures
        says(
            r,
            match outcome {
                Ok(s) => Ok(s@),
                Err(s) => Err(s@),
            },
        ),
{
    match outcome {
        Ok(s) => Answer::Said(s),
        Err(s) => Answer::Failed(s),
    }
}

/// Does what an agent asks for.
pub fn perform<T: ProviderTransport, E: Embedder>(tools: &mut MemoryTools<T, E>, call: Call) -> (r:
    Answer)
    requires
        old(tools).wf(),
    ensures
        final(tools).wf(),
        performs(*old(tools), *final(tools), call@, r),
        final(tools).log() == old(tools).log() ==> final(tools).provider() == old(tools).provider(),
        final(tools).log() != old(tools).log() ==> exists|p: &mut T|
            *p == old(tools).provider() && *final(p) == final(tools).provider()
                && #[trigger] crosses(p, final(tools).log().last()),
{
    match call {
        Call::Initialize => Answer::Welcome,
        Call::Initialized => Answer::Silence,
        Call::ListTools => Answer::Tools,
        Call::Write { namespace, item_id, text, expires_at } => {
            let outcome = tools.write(
                namespace.as_str(),
                item_id.as_str(),
                text.as_str(),
                expires_at,
            );
            said(write_reply(item_id.as_str(), &outcome))
        },
        Call::Search { namespace, query, limit } => match tools.search(
            namespace.as_str(),
            query.as_str(),
            limit,
        ) {
            Ok(hits) => Answer::Recalled(hits),
            Err(e) => Answer::Failed(e.message()),
        },
        Call::Read { namespace, item_id } => {
            let outcome = tools.read(namespace.as_str(), item_id.as_str());
            said(read_reply(&outcome))
        },
        Call::Forget { namespace, item_id } => {
            let outcome = tools.forget(namespace.as_str(), item_id.as_str());
            said(forget_reply(&outcome))
        },
        Call::UnknownTool(name) => Answer::Failed(unknown_tool(name.as_str())),
        Call::UnknownMethod(name) => Answer::Failed(unknown_method(name.as_str())),
    }
}

/// What is said to a request for a tool that there is none of.
pub fn unknown_tool(name: &str) -> (r: String)
    ensures
        r@ == "unknown tool: "@ + name@,
{
    join("unknown tool: ", name)
}

/// What is said to a request for a method that there is none of.
pub fn unknown_method(name: &str) -> (r: String)
    ensures
        r@ == "unknown method: "@ + name@,
{
    join("unknown method: ", name)
}

/// Multiplying by the prime can be undone by multiplying by its inverse.
proof fn multiplying_can_be_undone(z: u64)
    ensures
        ((z * 1099511628211) % 0x1_0000_0000_0000_0000) * 14886173955864302971
            % 0x1_0000_0000_0000_0000 == z,
{
    let p: int = 1099511628211;
    let q: int = 14886173955864302971;
    let m: int = 0x1_0000_0000_0000_0000;
    let k: int = z * 887285111055;
    assert(p * q == 887285111055 * m + 1);
    vstd::arithmetic::div_mod::lemma_mul_mod_noop_left(z * p, q, m);
    assert((z * p) * q == m * k + z) by (nonlinear_arith)
        requires
            p * q == 887285111055 * m + 1,
            k == z * 887285111055,
    ;
    vstd::arithmetic::div_mod::lemma_mod_multiples_vanish(k, z as int, m);
    vstd::arithmetic::div_mod::lemma_small_mod(z as nat, m as nat);
}

/// Multiplying by the prime loses nothing.
proof fn multiplying_loses_nothing(x: u64, y: u64)
    requires
        x.wrapping_mul(1099511628211) == y.wrapping_mul(1099511628211),
    ensures
        x == y,
{
    multiplying_can_be_undone(x);
    multiplying_can_be_undone(y);
}

/// The digest of a text takes in every byte: one more is folded in by a step that no two digests
/// and no two bytes share.
pub proof fn law_every_byte_is_folded_in(s: Seq<u8>, t: Seq<u8>, b: u8, c: u8)
    ensures
        content_hash(s.push(b)) == ((content_hash(s) ^ (b as u64)) * 1099511628211)
            % 0x1_0000_0000_0000_0000,
        content_hash(s.push(b)) == content_hash(s.push(c)) ==> b == c,
        content_hash(s.push(b)) == content_hash(t.push(b)) ==> content_hash(s) == content_hash(t),
        s.len() == 0 ==> content_hash(s) == 1469598103934665603,
{
    assert(s.push(b).drop_last() =~= s);
    assert(s.push(c).drop_last() =~= s);
    assert(t.push(b).drop_last() =~= t);
    let h = content_hash(s);
    let g = content_hash(t);
    let x = b as u64;
    let y = c as u64;
    if content_hash(s.push(b)) == content_hash(s.push(c)) {
        multiplying_loses_nothing(h ^ x, h ^ y);
        assert(h ^ x == h ^ y ==> x == y) by (bit_vector);
    }
    if content_hash(s.push(b)) == content_hash(t.push(b)) {
        multiplying_loses_nothing(h ^ x, g ^ x);
        assert(h ^ x == g ^ x ==> h == g) by (bit_vector);
    }
}

/// Texts that begin alike, differ in a byte and end alike never share a digest, however long they
/// are.
pub proof fn law_no_byte_is_overlooked(start: Seq<u8>, b: u8, c: u8, end: Seq<u8>)
    requires
        b != c,
    ensures
        content_hash(start.push(b) + end) != content_hash(start.push(c) + end),
    decreases end.len(),
{
    if end.len() == 0 {
        assert(start.push(b) + end =~= start.push(b));
        assert(start.push(c) + end =~= start.push(c));
        law_every_byte_is_folded_in(start, start, b, c);
    } else {
        let most = end.drop_last();
        law_no_byte_is_overlooked(start, b, c, most);
        assert(start.push(b) + end =~= (start.push(b) + most).push(end.last()));
        assert(start.push(c) + end =~= (start.push(c) + most).push(end.last()));
        law_every_byte_is_folded_in(
            start.push(b) + most,
            start.push(c) + most,
            end.last(),
            end.last(),
        );
    }
}

/// An id that a text is given spells the whole digest of the text's bytes: two texts share an id
/// exactly where they share a digest.
pub proof fn law_ids_spell_their_digests(a: Seq<char>, b: Seq<char>)
    ensures
        content_id_of(a).len() == 17,
        content_id_of(a)[0] == 'm',
        content_id_of(a) == content_id_of(b) <==> content_hash(encode_utf8(a)) == content_hash(
            encode_utf8(b),
        ),
{
    reveal_strlit("m");
    let x = content_hash(encode_utf8(a));
    let y = content_hash(encode_utf8(b));
    crate::bytes::law_large_numbers_read_back(x);
    crate::bytes::law_large_numbers_read_back(y);
    assert(content_id_of(a).skip(1) =~= hex_text(be64(x)));
    assert(content_id_of(b).skip(1) =~= hex_text(be64(y)));
    if content_id_of(a) == content_id_of(b) {
        crate::text::law_hex_round_trips(be64(x));
        crate::text::law_hex_round_trips(be64(y));
    }
}

/// A tool call asks for what its name says, of what its arguments name, whatever else they hold: in
/// the namespace given; a write for the text given, under the id given, until the time given; a
/// search for the query given, up to the number given; a read and a deletion for the id given. A
/// name that is no tool's asks for none.
pub proof fn law_calls_ask_for_what_they_name(
    args: ArgumentsView,
    default_namespace: Seq<char>,
    name: Seq<char>,
)
    ensures
        ({
            let write = tool_call_of("memory.write"@, args, default_namespace);
            let search = tool_call_of("memory.search"@, args, default_namespace);
            let read = tool_call_of("memory.read"@, args, default_namespace);
            let forget = tool_call_of("memory.forget"@, args, default_namespace);
            &&& write is Write && search is Search && read is Read && forget is Forget
            &&& args.namespace matches Some(given) ==> {
                &&& write->Write_namespace == given
                &&& search->Search_namespace == given
                &&& read->Read_namespace == given
                &&& forget->Forget_namespace == given
            }
            &&& args.item_id matches Some(given) ==> {
                &&& write->Write_item_id == given
                &&& read->Read_item_id == given
                &&& forget->Forget_item_id == given
            }
            &&& args.text matches Some(given) ==> write->text == given
            &&& write->expires_at == args.expires_at
            &&& args.query matches Some(given) ==> search->query == given
            &&& args.limit matches Some(given) ==> given <= usize::MAX ==> search->limit == given
        }),
        name != "memory.write"@ && name != "memory.search"@ && name != "memory.read"@ && name
            != "memory.forget"@ ==> tool_call_of(name, args, default_namespace)
            == CallView::UnknownTool(name),
{
    tool_names_differ();
}

/// No two tools share a name.
proof fn tool_names_differ()
    ensures
        "memory.write"@ != "memory.search"@,
        "memory.write"@ != "memory.read"@,
        "memory.write"@ != "memory.forget"@,
        "memory.search"@ != "memory.read"@,
        "memory.search"@ != "memory.forget"@,
        "memory.read"@ != "memory.forget"@,
{
    reveal_strlit("memory.write");
    reveal_strlit("memory.search");
    reveal_strlit("memory.read");
    reveal_strlit("memory.forget");
    assert("memory.write"@[7] == 'w');
    assert("memory.search"@[7] == 's');
    assert("memory.read"@[7] == 'r');
    assert("memory.forget"@[7] == 'f');
}

/// What is not given is as announced, whatever else is: the default namespace, the empty text,
/// query or id, ten memories searched for, and a write without an id named by its text.
pub proof fn law_what_is_not_given_is_as_announced(
    args: ArgumentsView,
    default_namespace: Seq<char>,
)
    ensures
        ({
            let write = tool_call_of("memory.write"@, args, default_namespace);
            let search = tool_call_of("memory.search"@, args, default_namespace);
            let read = tool_call_of("memory.read"@, args, default_namespace);
            let forget = tool_call_of("memory.forget"@, args, default_namespace);
            &&& args.namespace is None ==> {
                &&& write->Write_namespace == default_namespace
                &&& search->Search_namespace == default_namespace
                &&& read->Read_namespace == default_namespace
                &&& forget->Forget_namespace == default_namespace
            }
            &&& args.item_id is None ==> {
                &&& write->Write_item_id == content_id_of(write->text)
                &&& read->Read_item_id.len() == 0
                &&& forget->Forget_item_id.len() == 0
            }
            &&& args.text is None ==> write->text.len() == 0
            &&& args.query is None ==> search->query.len() == 0
            &&& args.limit is None ==> search->limit == 10
        }),
{
    tool_names_differ();
}

/// What was remembered can be named again: the id that a write asks for, and is answered with, is
/// the one that a read or a deletion given that id asks for, in the same namespace.
pub proof fn law_what_is_remembered_can_be_named(
    args: ArgumentsView,
    later: ArgumentsView,
    default_namespace: Seq<char>,
)
    requires
        later.namespace == args.namespace,
        later.item_id == Some(
            tool_call_of("memory.write"@, args, default_namespace)->Write_item_id,
        ),
    ensures
        ({
            let write = tool_call_of("memory.write"@, args, default_namespace);
            let read = tool_call_of("memory.read"@, later, default_namespace);
            let forget = tool_call_of("memory.forget"@, later, default_namespace);
            &&& write is Write
            &&& args.item_id matches Some(id) ==> write->Write_item_id == id
            &&& read == (CallView::Read {
                namespace: write->Write_namespace,
                item_id: write->Write_item_id,
            })
            &&& forget == (CallView::Forget {
                namespace: write->Write_namespace,
                item_id: write->Write_item_id,
            })
        }),
{
    tool_names_differ();
}

/// A request is known by its method, and a tool call by its name and its arguments, each read from
/// the member that has its name.
pub proof fn law_requests_are_read_from_their_members(v: JsonView, default_namespace: Seq<char>)
    ensures
        ({
            let method = text_in(member_value(v, "method"@));
            let params = member_value(v, "params"@);
            let given = arguments_in(member_value(params, "arguments"@));
            let call = call_in(v, default_namespace);
            &&& method == Some("initialize"@) ==> call is Initialize
            &&& method == Some("notifications/initialized"@) ==> call is Initialized
            &&& method == Some("tools/list"@) ==> call is ListTools
            &&& method == Some("tools/call"@) && text_in(member_value(params, "name"@)) is Some
                ==> call == tool_call_of(
                text_in(member_value(params, "name"@))->0,
                given,
                default_namespace,
            )
            &&& method == Some("tools/call"@) && text_in(member_value(params, "name"@)) is None
                ==> call == tool_call_of(Seq::empty(), given, default_namespace)
            &&& method matches Some(other) ==> other != "initialize"@ && other
                != "notifications/initialized"@ && other != "tools/list"@ && other != "tools/call"@
                ==> call == CallView::UnknownMethod(other)
            &&& method is None ==> call == CallView::UnknownMethod(Seq::empty())
        }),
        arguments_in(v).namespace == text_in(member_value(v, "namespace"@)),
        arguments_in(v).item_id == text_in(member_value(v, "item_id"@)),
        arguments_in(v).text == text_in(member_value(v, "text"@)),
        arguments_in(v).query == text_in(member_value(v, "query"@)),
        arguments_in(v).expires_at == number_in(member_value(v, "expires_at"@)),
        arguments_in(v).limit == number_in(member_value(v, "limit"@)),
        member_text(v, "id"@) is Some ==> request_id(v) == member_text(v, "id"@)->0,
        member_text(v, "id"@) is None ==> request_id(v) == "null"@,
{
    reveal_strlit("initialize");
    reveal_strlit("notifications/initialized");
    reveal_strlit("tools/list");
    reveal_strlit("tools/call");
    reveal_strlit("");
    assert("initialize"@.len() == 10);
    assert("notifications/initialized"@.len() == 25);
    assert("tools/list"@[6] == 'l');
    assert("tools/call"@[6] == 'c');
    assert("initialize"@[0] == 'i');
    assert("tools/list"@[0] == 't');
    assert("tools/call"@[0] == 't');
}

/// Recalled memories are told one to a line, in their order, each whole: those of two runs are the
/// one's lines, a line break and the other's, and one memory is its name, its score and its text.
pub proof fn law_hits_are_told_one_to_a_line(
    a: Seq<Memory>,
    x: Seq<String>,
    b: Seq<Memory>,
    y: Seq<String>,
)
    requires
        a.len() == x.len(),
        b.len() == y.len(),
        a.len() > 0,
        b.len() > 0,
    ensures
        hit_lines(a + b, x + y) == hit_lines(a, x) + "\n"@ + hit_lines(b, y),
        b.len() == 1 ==> hit_lines(b, y) == "["@ + b[0].item_id@ + " "@ + y[0]@ + "] "@
            + b[0].text@,
    decreases b.len(),
{
    assert((a + b).drop_last() =~= a + b.drop_last());
    assert((x + y).drop_last() =~= x + y.drop_last());
    if b.len() == 1 {
        assert(a + b.drop_last() =~= a);
        assert(x + y.drop_last() =~= x);
    } else {
        law_hits_are_told_one_to_a_line(a, x, b.drop_last(), y.drop_last());
        assert(hit_lines(a + b, x + y) =~= hit_lines(a, x) + "\n"@ + hit_lines(b, y));
    }
}

/// A deletion asks the provider once, for the name and the namespace the agent gave, and tells the
/// agent what the provider said: whether anything was removed, or why it could not be asked.
pub proof fn law_deletions_are_asked_for_and_told<T: ProviderTransport, E: Embedder>(
    before: MemoryTools<T, E>,
    after: MemoryTools<T, E>,
    namespace: Seq<char>,
    item_id: Seq<char>,
    r: Answer,
)
    requires
        performs(before, after, CallView::Forget { namespace, item_id }, r),
    ensures
        after.log().len() == before.log().len() + 1,
        after.log().last() matches Exchange::Forget(ns, id, reply) && {
            &&& ns@ == handle_of(before.root(), namespace)
            &&& id == wire_id(before.root(), namespace, item_id)
            &&& reply == Ok::<bool, TransportError>(true) ==> (r matches Answer::Said(s) && s@
                == "forgotten"@)
            &&& reply == Ok::<bool, TransportError>(false) ==> (r matches Answer::Said(s) && s@
                == "nothing to forget under that id"@)
            &&& reply matches Err(e) ==> (r matches Answer::Failed(s) && s@ == e.text())
        },
{
}

/// A read asks the provider once, for the name and the namespace the agent gave, and tells the agent
/// the text that what came back opens to, or why it does not.
pub proof fn law_reads_are_asked_for_and_told<T: ProviderTransport, E: Embedder>(
    before: MemoryTools<T, E>,
    after: MemoryTools<T, E>,
    namespace: Seq<char>,
    item_id: Seq<char>,
    r: Answer,
)
    requires
        performs(before, after, CallView::Read { namespace, item_id }, r),
    ensures
        after.log().len() == before.log().len() + 1,
        after.log().last() matches Exchange::Read(ns, id, reply) && {
            &&& ns@ == handle_of(before.root(), namespace)
            &&& id == wire_id(before.root(), namespace, item_id)
            &&& reply matches Ok(sealed) ==> match open_outcome(
                namespace_key_of(before.root(), namespace, before.generation()),
                wire_id(before.root(), namespace, item_id),
                sealed@,
            ) {
                Ok(plain) => r matches Answer::Said(s) && s@ == unframed(plain).1,
                Err(e) => r matches Answer::Failed(s) && s@ == "crypto: "@ + e.text(),
            }
            &&& reply matches Err(e) ==> (r matches Answer::Failed(s) && s@ == e.text())
        },
{
}

/// A write sends the provider at most one request, which carries the text under the name and the
/// namespace the agent gave, and tells the agent that name where the provider took it; where
/// nothing was sent, or the provider did not take it, the agent is told of a failure. Nothing is
/// sent only where the memory is longer than the cipher's blocks or the embedder refused its text.
pub proof fn law_writes_are_sent_and_told<T: ProviderTransport, E: Embedder>(
    before: MemoryTools<T, E>,
    after: MemoryTools<T, E>,
    namespace: Seq<char>,
    item_id: Seq<char>,
    text: Seq<char>,
    expires_at: Option<u64>,
    r: Answer,
)
    requires
        performs(before, after, CallView::Write { namespace, item_id, text, expires_at }, r),
        encode_utf8(item_id).len() < 0x1_0000_0000,
    ensures
        after.log() == before.log() ==> r is Failed && (frame_of(item_id, text).len() > 64 * (
        0x1_0000_0000 - 2) || exists|why: EmbedError|
            before.embedder() is Some && #[trigger] embeds_as(
                &before.embedder()->0,
                text,
                Err(why),
            )),
        after.log() != before.log() ==> after.log().len() == before.log().len() + 1 && (
        after.log().last() matches Exchange::Write(req, reply) && {
            &&& req.namespace@ == handle_of(before.root(), namespace)
            &&& req.item_id@ == wire_id(before.root(), namespace, item_id)
            &&& req.expires_at == expires_at
            &&& req.mode == IndexMode::BlindIndex
            &&& open_outcome(
                namespace_key_of(before.root(), namespace, before.generation()),
                req.item_id@,
                req.sealed@,
            ) matches Ok(plain) && unframed(plain) == (item_id, text)
            &&& reply is Ok ==> (r matches Answer::Said(s) && s@ == "remembered as "@ + item_id)
            &&& reply matches Err(e) ==> (r matches Answer::Failed(s) && s@ == e.text())
        }),
{
    crate::framing::law_frames_round_trip(item_id, text);
}

/// The tools that are announced are the tools that are understood: each name asks for its own tool,
/// and what is announced as the default is what a call that does not say is given. Only what has no
/// default is required, and it comes first.
pub proof fn law_announced_tools_are_understood(
    args: ArgumentsView,
    default_namespace: Seq<char>,
)
    ensures
        tool_call_of(write_tool().name, args, default_namespace) is Write,
        tool_call_of(search_tool().name, args, default_namespace) is Search,
        tool_call_of(read_tool().name, args, default_namespace) is Read,
        tool_call_of(forget_tool().name, args, default_namespace) is Forget,
        args.limit is None ==> (search_tool().params.last().default matches Some(
            DefaultView::Integer(n),
        ) && tool_call_of(search_tool().name, args, default_namespace)->limit == n),
        forall|t: ToolView|
            t == write_tool() || t == search_tool() || t == read_tool() || t == forget_tool() ==> {
                &&& (#[trigger] t.required) == seq![t.params[0].name]
                &&& t.params[0].default is None
                &&& t.params[1].name == "namespace"@
                &&& t.params[1].default == Some(DefaultView::Text("default"@))
            },
        write_tool().params[0].name == "text"@,
        write_tool().params.last().name == "expires_at"@,
        search_tool().params[0].name == "query"@,
        search_tool().params.last().name == "limit"@,
        read_tool().params[0].name == "item_id"@,
        forget_tool().params[0].name == "item_id"@,
{
    tool_names_differ();
}

/// A search sends the provider at most one request, for the namespace the agent gave and for no
/// fewer candidates than it wants, and answers with no more memories than that. Where nothing was
/// sent, or the provider did not answer, the agent is told of a failure.
pub proof fn law_searches_are_sent_and_told<T: ProviderTransport, E: Embedder>(
    before: MemoryTools<T, E>,
    after: MemoryTools<T, E>,
    namespace: Seq<char>,
    query: Seq<char>,
    limit: usize,
    r: Answer,
)
    requires
        performs(before, after, CallView::Search { namespace, query, limit }, r),
    ensures
        after.log() == before.log() ==> r is Failed,
        before.embedder() is None ==> after.log() == before.log() && (r matches Answer::Failed(s)
            && s@ == ToolError::NoEmbedder.text()),
        after.log() != before.log() ==> after.log().len() == before.log().len() + 1 && (
        after.log().last() matches Exchange::Search(req, reply) && {
            &&& req.namespace@ == handle_of(before.root(), namespace)
            &&& req.limit >= limit
            &&& reply matches Err(e) ==> (r matches Answer::Failed(s) && s@ == e.text())
            &&& r matches Answer::Recalled(hits) ==> reply is Ok && hits@.len() <= limit
                && hits@.len() <= reply->Ok_0@.len()
            &&& r is Recalled || r is Failed
        }),
{
    let outcome = choose|outcome: Result<Vec<Memory>, ToolError>| #[trigger]
        searched(before, after, namespace, query, limit, outcome) && match outcome {
            Ok(hits) => r == Answer::Recalled(hits),
            Err(e) => says(r, Err(e.text())),
        };
    if after.log() != before.log() && outcome is Ok {
        let out = memory_views(outcome->Ok_0@);
        let e = before.embedder()->0;
        let candidates = (after.log().last()->Search_1)->Ok_0@;
        let key = before.key_of(namespace);
        let scores = choose|scores: Seq<u32>| #[trigger]
            scores_for(&e, query, unscored(key, candidates), scores) && is_recall(
                memories_of(key, candidates, scores),
                limit as nat,
                out,
            );
        law_recalls_are_bounded(memories_of(key, candidates, scores), limit as nat, out);
        opened_are_no_more(key, candidates);
    }
}

/// Only the tools reach the provider: any other request changes nothing, and one that names nothing
/// known is told the name that it gave.
pub proof fn law_only_tools_reach_the_provider<T: ProviderTransport, E: Embedder>(
    before: MemoryTools<T, E>,
    after: MemoryTools<T, E>,
    call: CallView,
    r: Answer,
)
    requires
        performs(before, after, call, r),
        !(call is Write || call is Search || call is Read || call is Forget),
    ensures
        after == before,
        call is Initialize <==> r is Welcome,
        call is Initialized <==> r is Silence,
        call is ListTools <==> r is Tools,
        call matches CallView::UnknownTool(name) ==> (r matches Answer::Failed(s)
            && name.is_suffix_of(s@)),
        call matches CallView::UnknownMethod(name) ==> (r matches Answer::Failed(s)
            && name.is_suffix_of(s@)),
{
    if let CallView::UnknownTool(name) = call {
        let x = "unknown tool: "@;
        assert((x + name).skip(x.len() as int) =~= name);
        assert((x + name).subrange(x.len() as int, (x + name).len() as int) =~= name);
    }
    if let CallView::UnknownMethod(name) = call {
        let x = "unknown method: "@;
        assert((x + name).subrange(x.len() as int, (x + name).len() as int) =~= name);
    }
}

} // verus!
