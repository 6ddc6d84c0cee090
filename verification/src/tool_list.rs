//! The tools as an agent is told of them.
//!
//! They take text, not ciphertext, because the agent is talking to a local process that holds the
//! key. A provider-hosted server offering these same signatures would be asking for your plaintext.

use vstd::prelude::*;

verus! {

/// What a parameter holds.
#[derive(Debug, Clone, Copy, PartialEq, Eq, Structural)]
pub enum ParamKind {
    Text,
    Integer,
}

/// What a parameter is where the agent gives none.
#[derive(Debug, Clone, Copy, PartialEq)]
pub enum ParamDefault {
    Text(&'static str),
    Integer(u64),
}

/// One parameter of a tool.
#[derive(Debug)]
pub struct ToolParam {
    pub name: &'static str,
    pub kind: ParamKind,
    pub description: Option<&'static str>,
    pub default: Option<ParamDefault>,
}

/// One tool.
#[derive(Debug)]
pub struct ToolDefinition {
    pub name: &'static str,
    pub description: &'static str,
    pub params: Vec<ToolParam>,
    pub required: Vec<&'static str>,
}

/// What a parameter is where the agent gives none.
#[verifier::ext_equal]
pub enum DefaultView {
    Text(Seq<char>),
    Integer(u64),
}

/// One parameter of a tool.
#[verifier::ext_equal]
pub struct ParamView {
    pub name: Seq<char>,
    pub kind: ParamKind,
    pub description: Option<Seq<char>>,
    pub default: Option<DefaultView>,
}

/// One tool.
#[verifier::ext_equal]
pub struct ToolView {
    pub name: Seq<char>,
    pub description: Seq<char>,
    pub params: Seq<ParamView>,
    pub required: Seq<Seq<char>>,
}

impl View for ParamDefault {
    type V = DefaultView;

    open spec fn view(&self) -> DefaultView {
        match self {
            ParamDefault::Text(s) => DefaultView::Text(s@),
            ParamDefault::Integer(n) => DefaultView::Integer(*n),
        }
    }
}

impl View for ToolParam {
    type V = ParamView;

    open spec fn view(&self) -> ParamView {
        ParamView {
            name: self.name@,
            kind: self.kind,
            description: match self.description {
                Some(s) => Some(s@),
                None => None,
            },
            default: match self.default {
                Some(d) => Some(d@),
                None => None,
            },
        }
    }
}

impl View for ToolDefinition {
    type V = ToolView;

    open spec fn view(&self) -> ToolView {
        ToolView {
            name: self.name@,
            description: self.description@,
            params: Seq::new(self.params@.len(), |i: int| self.params@[i]@),
            required: Seq::new(self.required@.len(), |i: int| self.required@[i]@),
        }
    }
}

/// A parameter without a description or a default.
pub open spec fn plain_param(name: Seq<char>) -> ParamView {
    ParamView { name, kind: ParamKind::Text, description: None, default: None }
}

/// Which memory a tool works on, where nothing more is said of it.
pub open spec fn namespace_param() -> ParamView {
    ParamView {
        name: "namespace"@,
        kind: ParamKind::Text,
        description: None,
        default: Some(DefaultView::Text("default"@)),
    }
}

/// The tool that remembers.
pub open spec fn write_tool() -> ToolView {
    ToolView {
        name: "memory.write"@,
        description:
            "Remember something. The text is encrypted on this machine before it leaves it."@,
        params: seq![
            ParamView {
                name: "text"@,
                kind: ParamKind::Text,
                description: Some("What to remember."@),
                default: None,
            },
            ParamView {
                name: "namespace"@,
                kind: ParamKind::Text,
                description: Some("Which memory to write to."@),
                default: Some(DefaultView::Text("default"@)),
            },
            ParamView {
                name: "expires_at"@,
                kind: ParamKind::Integer,
                description: Some("Unix seconds. Omit to keep until forgotten."@),
                default: None,
            },
        ],
        required: seq!["text"@],
    }
}

/// The tool that recalls.
pub open spec fn search_tool() -> ToolView {
    ToolView {
        name: "memory.search"@,
        description:
            "Recall things related to a query. Matching is narrowed by the provider over blinded buckets and ranked here."@,
        params: seq![
            plain_param("query"@),
            namespace_param(),
            ParamView {
                name: "limit"@,
                kind: ParamKind::Integer,
                description: None,
                default: Some(DefaultView::Integer(10)),
            },
        ],
        required: seq!["query"@],
    }
}

/// The tool that fetches.
pub open spec fn read_tool() -> ToolView {
    ToolView {
        name: "memory.read"@,
        description: "Fetch one memory by id."@,
        params: seq![plain_param("item_id"@), namespace_param()],
        required: seq!["item_id"@],
    }
}

/// The tool that forgets.
pub open spec fn forget_tool() -> ToolView {
    ToolView {
        name: "memory.forget"@,
        description:
            "Delete a memory. The provider is asked to remove it and cannot prove that it did."@,
        params: seq![plain_param("item_id"@), namespace_param()],
        required: seq!["item_id"@],
    }
}

/// Which memory a tool works on.
fn namespace(description: Option<&'static str>) -> (r: ToolParam)
    ensures
        r.name@ == "namespace"@,
        r.kind == ParamKind::Text,
        r.description == description,
        r.default matches Some(ParamDefault::Text(d)) && d@ == "default"@,
{
    ToolParam {
        name: "namespace",
        kind: ParamKind::Text,
        description,
        default: Some(ParamDefault::Text("default")),
    }
}

/// A parameter without a default.
fn param(name: &'static str, kind: ParamKind, description: Option<&'static str>) -> (r: ToolParam)
    ensures
        r.name == name,
        r.kind == kind,
        r.description == description,
        r.default is None,
{
    ToolParam { name, kind, description, default: None }
}

/// A tool that works on one item by its id.
fn by_id(name: &'static str, description: &'static str) -> (r: ToolDefinition)
    ensures
        r@ == (ToolView {
            name: name@,
            description: description@,
            params: seq![plain_param("item_id"@), namespace_param()],
            required: seq!["item_id"@],
        }),
{
    let r = ToolDefinition {
        name,
        description,
        params: vec![param("item_id", ParamKind::Text, None), namespace(None)],
        required: vec!["item_id"],
    };
    proof {
        assert(r@.params =~~= seq![plain_param("item_id"@), namespace_param()]);
        assert(r@.required =~~= seq!["item_id"@]);
    }
    r
}

/// The tools, as an agent that asks for them is told.
pub fn tool_definitions() -> (r: Vec<ToolDefinition>)
    ensures
        r@.len() == 4,
        r@[0]@ == write_tool(),
        r@[1]@ == search_tool(),
        r@[2]@ == read_tool(),
        r@[3]@ == forget_tool(),
{
    let write = ToolDefinition {
        name: "memory.write",
        description: "Remember something. The text is encrypted on this machine before it leaves it.",
        params: vec![
            param("text", ParamKind::Text, Some("What to remember.")),
            namespace(Some("Which memory to write to.")),
            param(
                "expires_at",
                ParamKind::Integer,
                Some("Unix seconds. Omit to keep until forgotten."),
            ),
        ],
        required: vec!["text"],
    };
    let search = ToolDefinition {
        name: "memory.search",
        description:
            "Recall things related to a query. Matching is narrowed by the provider over blinded buckets and ranked here.",
        params: vec![
            param("query", ParamKind::Text, None),
            namespace(None),
            ToolParam {
                name: "limit",
                kind: ParamKind::Integer,
                description: None,
                default: Some(ParamDefault::Integer(10)),
            },
        ],
        required: vec!["query"],
    };
    proof {
        assert(write@.params =~~= write_tool().params);
        assert(write@.required =~~= write_tool().required);
        assert(search@.params =~~= search_tool().params);
        assert(search@.required =~~= search_tool().required);
    }
    vec![
        write,
        search,
        by_id("memory.read", "Fetch one memory by id."),
        by_id(
            "memory.forget",
            "Delete a memory. The provider is asked to remove it and cannot prove that it did.",
        ),
    ]
}

} // verus!
