//! Tools, their results and their uses, as the upstream takes them.

use vstd::prelude::*;

use crate::json;
use crate::json::{JsonModel, JsonValue, with_member};
use crate::text;

verus! {

/// An entry of the list of tools: a tool, or a point up to which the list is cached.
#[derive(Debug)]
pub enum Tool {
    Specification(ToolDefinition),
    CachePoint(CachePointTool),
}

/// A tool that may be used.
#[derive(Debug)]
pub struct ToolDefinition {
    pub tool_specification: ToolSpecification,
}

/// A point up to which the list of tools is cached.
#[derive(Debug)]
pub struct CachePointTool {
    pub cache_point: CachePoint,
}

/// The kind of a cache point.
#[derive(Debug)]
pub struct CachePoint {
    pub kind: String,
}

/// The name of a tool, what it does and what it takes.
#[derive(Debug)]
pub struct ToolSpecification {
    pub name: String,
    pub description: String,
    pub input_schema: InputSchema,
}

/// What a tool takes, as a JSON schema.
#[derive(Debug)]
pub struct InputSchema {
    pub json: JsonValue,
}

/// What the use of a tool came to.
#[derive(Debug)]
pub struct ToolResult {
    pub tool_use_id: String,
    /// The parts of the result, each a JSON object by its members.
    pub content: Vec<Vec<(String, JsonValue)>>,
    pub status: Option<String>,
    pub is_error: bool,
}

/// The use of a tool.
#[derive(Debug)]
pub struct ToolUseEntry {
    pub tool_use_id: String,
    pub name: String,
    pub input: JsonValue,
}

/// The schema of a tool that takes an object without properties.
pub open spec fn empty_schema() -> JsonModel {
    JsonModel::Object(
        map![
            "type"@ => JsonModel::Text("object"@),
            "properties"@ => JsonModel::Object(Map::empty()),
        ],
    )
}

impl Default for InputSchema {
    /// The schema of a tool that takes an object without properties.
    fn default() -> (schema: InputSchema)
        ensures
            schema.json@ == empty_schema(),
    {
        let members = with_member(Vec::new(), "type", JsonValue::Text("object".to_owned()));
        let members = with_member(members, "properties", JsonValue::Object(Vec::new()));
        InputSchema { json: JsonValue::Object(members) }
    }
}

impl InputSchema {
    /// The schema that a value is.
    pub fn from_json(json: JsonValue) -> (schema: InputSchema)
        ensures
            schema.json == json,
    {
        InputSchema { json }
    }
}

impl CachePoint {
    /// The default cache point.
    pub fn default_marker() -> (point: CachePoint)
        ensures
            point.kind@ == "default"@,
    {
        CachePoint { kind: "default".to_owned() }
    }
}

/// The value that stands for an entry of the list of tools.
pub open spec fn tool_value(tool: Tool) -> JsonModel {
    match tool {
        Tool::Specification(tool) => JsonModel::Object(
            map![
                "toolSpecification"@ => JsonModel::Object(
                    map![
                        "name"@ => JsonModel::Text(tool.tool_specification.name@),
                        "description"@ => JsonModel::Text(tool.tool_specification.description@),
                        "inputSchema"@ => JsonModel::Object(
                            map!["json"@ => tool.tool_specification.input_schema.json@],
                        ),
                    ],
                ),
            ],
        ),
        Tool::CachePoint(tool) => JsonModel::Object(
            map![
                "cachePoint"@ => JsonModel::Object(
                    map!["type"@ => JsonModel::Text(tool.cache_point.kind@)],
                ),
            ],
        ),
    }
}

impl Tool {
    /// The entry for a tool.
    pub fn specification(tool_specification: ToolSpecification) -> (tool: Tool)
        ensures
            tool == Tool::Specification(ToolDefinition { tool_specification }),
    {
        Tool::Specification(ToolDefinition { tool_specification })
    }

    /// The entry for the default cache point.
    pub fn cache_point_default() -> (tool: Tool)
        ensures
            tool is CachePoint,
            tool->CachePoint_0.cache_point.kind@ == "default"@,
    {
        Tool::CachePoint(CachePointTool { cache_point: CachePoint::default_marker() })
    }

    /// The name of the tool; a cache point has none.
    pub fn tool_name(&self) -> (name: Option<&str>)
        ensures
            json::borrowed_text(name) == (match *self {
                Tool::Specification(tool) => Some(tool.tool_specification.name@),
                Tool::CachePoint(_) => None,
            }),
    {
        match self {
            Tool::Specification(tool) => Some(tool.tool_specification.name.as_str()),
            Tool::CachePoint(_) => None,
        }
    }

    /// Whether the entry is a cache point.
    pub fn is_cache_point(&self) -> (b: bool)
        ensures
            b == (*self is CachePoint),
    {
        match self {
            Tool::Specification(_) => false,
            Tool::CachePoint(_) => true,
        }
    }

    /// The entry as it is sent: an object whose only member tells which kind of entry it
    /// is.
    pub fn to_json(&self) -> (json: JsonValue)
        ensures
            json@ == tool_value(*self),
    {
        match self {
            Tool::Specification(tool) => {
                let specification: &ToolSpecification = &tool.tool_specification;
                let schema = with_member(
                    Vec::new(),
                    "json",
                    specification.input_schema.json.duplicate(),
                );
                let members = with_member(
                    Vec::new(),
                    "name",
                    JsonValue::Text(specification.name.clone()),
                );
                let members = with_member(
                    members,
                    "description",
                    JsonValue::Text(specification.description.clone()),
                );
                let members = with_member(members, "inputSchema", JsonValue::Object(schema));
                JsonValue::Object(
                    with_member(Vec::new(), "toolSpecification", JsonValue::Object(members)),
                )
            },
            Tool::CachePoint(tool) => {
                let members = with_member(
                    Vec::new(),
                    "type",
                    JsonValue::Text(tool.cache_point.kind.clone()),
                );
                JsonValue::Object(with_member(Vec::new(), "cachePoint", JsonValue::Object(members)))
            },
        }
    }
}

/// Whether a value is false.
pub fn is_false(b: &bool) -> (is: bool)
    ensures
        is == !*b,
{
    !*b
}

/// What the parts of a result hold.
pub open spec fn parts_model(parts: Seq<Vec<(String, JsonValue)>>) -> Seq<JsonModel> {
    parts.map_values(
        |members: Vec<(String, JsonValue)>| JsonModel::Object(json::object_model(members@)),
    )
}

/// A result that is one text.
pub open spec fn text_part(text: Seq<char>) -> Seq<JsonModel> {
    seq![JsonModel::Object(map!["text"@ => JsonModel::Text(text)])]
}

/// The value that stands for the result of a tool. The status is left out where there is
/// none, the mark of an error where it is not set.
pub open spec fn result_value(
    tool_use_id: Seq<char>,
    content: Seq<JsonModel>,
    status: Option<Seq<char>>,
    is_error: bool,
) -> JsonModel {
    let members = map![
        "toolUseId"@ => JsonModel::Text(tool_use_id),
        "content"@ => JsonModel::Array(content),
    ];
    let members = match status {
        Some(status) => members.insert("status"@, JsonModel::Text(status)),
        None => members,
    };
    JsonModel::Object(
        if is_error {
            members.insert("isError"@, JsonModel::Bool(true))
        } else {
            members
        },
    )
}

/// A result that is one text.
fn one_text(text: String) -> (content: Vec<Vec<(String, JsonValue)>>)
    ensures
        parts_model(content@) == text_part(text@),
{
    let mut content: Vec<Vec<(String, JsonValue)>> = Vec::new();
    content.push(with_member(Vec::new(), "text", JsonValue::Text(text)));
    proof {
        assert(parts_model(content@) =~= text_part(text@));
    }
    content
}

/// The members of an object, once more.
fn duplicate_members(members: &Vec<(String, JsonValue)>) -> (copy: Vec<(String, JsonValue)>)
    ensures
        json::object_model(copy@) == json::object_model(members@),
{
    let mut copy: Vec<(String, JsonValue)> = Vec::new();
    let mut i: usize = 0;
    proof {
        assert(members@.take(0) == Seq::<(String, JsonValue)>::empty());
    }
    while i < members.len()
        invariant
            i <= members.len(),
            json::object_model(copy@) == json::object_model(members@.take(i as int)),
        decreases members.len() - i,
    {
        proof {
            assert(members@.take(i + 1).drop_last() == members@.take(i as int));
            assert(members@.take(i + 1).last() == members@[i as int]);
        }
        copy = with_member(copy, members[i].0.as_str(), members[i].1.duplicate());
        i += 1;
    }
    proof {
        assert(members@.take(i as int) == members@);
    }
    copy
}

impl ToolResult {
    /// The result of a use that succeeded.
    pub fn success(tool_use_id: String, content: String) -> (result: ToolResult)
        ensures
            result.tool_use_id == tool_use_id,
            parts_model(result.content@) == text_part(content@),
            text::optional_text(result.status) == Some("success"@),
            !result.is_error,
    {
        ToolResult {
            tool_use_id,
            content: one_text(content),
            status: Some("success".to_owned()),
            is_error: false,
        }
    }

    /// The result of a use that failed.
    pub fn error(tool_use_id: String, error_message: String) -> (result: ToolResult)
        ensures
            result.tool_use_id == tool_use_id,
            parts_model(result.content@) == text_part(error_message@),
            text::optional_text(result.status) == Some("error"@),
            result.is_error,
    {
        ToolResult {
            tool_use_id,
            content: one_text(error_message),
            status: Some("error".to_owned()),
            is_error: true,
        }
    }

    /// The result as it is sent.
    pub fn to_json(&self) -> (json: JsonValue)
        ensures
            json@ == result_value(
                self.tool_use_id@,
                parts_model(self.content@),
                text::optional_text(self.status),
                self.is_error,
            ),
    {
        let mut items: Vec<JsonValue> = Vec::new();
        let mut i: usize = 0;
        while i < self.content.len()
            invariant
                i <= self.content.len(),
                items.len() == i,
                forall|k: int|
                    0 <= k < i ==> (#[trigger] items@[k])@ == parts_model(self.content@)[k],
            decreases self.content.len() - i,
        {
            items.push(JsonValue::Object(duplicate_members(&self.content[i])));
            i += 1;
        }
        proof {
            json::lemma_array_model(items@);
            assert(json::array_model(items@) =~= parts_model(self.content@));
        }
        let members = with_member(
            Vec::new(),
            "toolUseId",
            JsonValue::Text(self.tool_use_id.clone()),
        );
        let members = with_member(members, "content", JsonValue::Array(items));
        let members = match &self.status {
            Some(status) => with_member(members, "status", JsonValue::Text(status.clone())),
            None => members,
        };
        if is_false(&self.is_error) {
            JsonValue::Object(members)
        } else {
            JsonValue::Object(with_member(members, "isError", JsonValue::Bool(true)))
        }
    }
}

/// The value that stands for the use of a tool.
pub open spec fn use_value(tool_use_id: Seq<char>, name: Seq<char>, input: JsonModel) -> JsonModel {
    JsonModel::Object(
        map![
            "toolUseId"@ => JsonModel::Text(tool_use_id),
            "name"@ => JsonModel::Text(name),
            "input"@ => input,
        ],
    )
}

impl ToolUseEntry {
    /// The use of a tool without input.
    pub fn new(tool_use_id: String, name: String) -> (entry: ToolUseEntry)
        ensures
            entry.tool_use_id == tool_use_id,
            entry.name == name,
            entry.input@ == JsonModel::Object(Map::empty()),
    {
        ToolUseEntry { tool_use_id, name, input: JsonValue::Object(Vec::new()) }
    }

    /// The same use with an input.
    pub fn with_input(self, input: JsonValue) -> (entry: ToolUseEntry)
        ensures
            entry == (ToolUseEntry { input, ..self }),
    {
        ToolUseEntry { tool_use_id: self.tool_use_id, name: self.name, input }
    }

    /// The use as it is sent.
    pub fn to_json(&self) -> (json: JsonValue)
        ensures
            json@ == use_value(self.tool_use_id@, self.name@, self.input@),
    {
        let members = with_member(
            Vec::new(),
            "toolUseId",
            JsonValue::Text(self.tool_use_id.clone()),
        );
        let members = with_member(members, "name", JsonValue::Text(self.name.clone()));
        let members = with_member(members, "input", self.input.duplicate());
        JsonValue::Object(members)
    }
}

/// An entry of the list of tools tells a tool from a cache point by its only member.
pub proof fn law_entries_are_told_apart(a: Tool, b: Tool)
    requires
        tool_value(a) == tool_value(b),
    ensures
        a is CachePoint == b is CachePoint,
        a is Specification && b is Specification
            ==> a->Specification_0.tool_specification.name@
            == b->Specification_0.tool_specification.name@,
{
    reveal_strlit("toolSpecification");
    reveal_strlit("cachePoint");
    reveal_strlit("name");
    reveal_strlit("description");
    reveal_strlit("inputSchema");
    let x = tool_value(a)->Object_0;
    let y = tool_value(b)->Object_0;
    assert("toolSpecification"@.len() != "cachePoint"@.len());
    assert(x.contains_key("toolSpecification"@) == (a is Specification));
    assert(y.contains_key("toolSpecification"@) == (b is Specification));
    if a is Specification && b is Specification {
        let p = x["toolSpecification"@]->Object_0;
        let q = y["toolSpecification"@]->Object_0;
        assert("name"@.len() != "description"@.len());
        assert("name"@.len() != "inputSchema"@.len());
        assert(p["name"@] == JsonModel::Text(a->Specification_0.tool_specification.name@));
        assert(q["name"@] == JsonModel::Text(b->Specification_0.tool_specification.name@));
    }
}

/// An entry of the list of tools is sent as an object with one member: a tool under
/// `toolSpecification`, with its name, its description and its schema under `json`; a cache
/// point under `cachePoint`, with its kind.
pub proof fn law_entries_hold_the_tool(tool: Tool, key: Seq<char>)
    ensures
        tool matches Tool::Specification(definition) ==> {
            let sent = definition.tool_specification;
            let inner = tool_value(tool)->Object_0["toolSpecification"@];
            &&& json::member(tool_value(tool), key) is Some <==> key == "toolSpecification"@
            &&& tool_value(tool)->Object_0.contains_key("toolSpecification"@)
            &&& json::member(inner, key) == (if key == "name"@ {
                Some(JsonModel::Text(sent.name@))
            } else if key == "description"@ {
                Some(JsonModel::Text(sent.description@))
            } else if key == "inputSchema"@ {
                Some(JsonModel::Object(map!["json"@ => sent.input_schema.json@]))
            } else {
                None
            })
        },
        tool matches Tool::CachePoint(point) ==> {
            let inner = tool_value(tool)->Object_0["cachePoint"@];
            &&& json::member(tool_value(tool), key) is Some <==> key == "cachePoint"@
            &&& json::member(inner, key) == (if key == "type"@ {
                Some(JsonModel::Text(point.cache_point.kind@))
            } else {
                None
            })
        },
        json::member(empty_schema(), key) == (if key == "type"@ {
            Some(JsonModel::Text("object"@))
        } else if key == "properties"@ {
            Some(JsonModel::Object(Map::empty()))
        } else {
            None
        }),
{
    reveal_strlit("name");
    reveal_strlit("description");
    reveal_strlit("inputSchema");
    reveal_strlit("type");
    reveal_strlit("properties");
    assert("name"@.len() == 4 && "description"@.len() == 11 && "inputSchema"@.len() == 11);
    assert("description"@[0] == 'd' && "inputSchema"@[0] == 'i');
    assert("type"@.len() == 4 && "properties"@.len() == 10);
}

/// A result is sent with its use, its parts in order, its status where it has one, and the
/// mark of an error only where it is one; a use with its name and its input. Nothing else is
/// sent.
pub proof fn law_results_and_uses_hold_their_parts(
    tool_use_id: Seq<char>,
    content: Seq<JsonModel>,
    status: Option<Seq<char>>,
    is_error: bool,
    name: Seq<char>,
    input: JsonModel,
    key: Seq<char>,
)
    ensures
        json::member(result_value(tool_use_id, content, status, is_error), key) == (if key
            == "toolUseId"@ {
            Some(JsonModel::Text(tool_use_id))
        } else if key == "content"@ {
            Some(JsonModel::Array(content))
        } else if key == "status"@ && status is Some {
            Some(JsonModel::Text(status->0))
        } else if key == "isError"@ && is_error {
            Some(JsonModel::Bool(true))
        } else {
            None
        }),
        json::member(use_value(tool_use_id, name, input), key) == (if key == "toolUseId"@ {
            Some(JsonModel::Text(tool_use_id))
        } else if key == "name"@ {
            Some(JsonModel::Text(name))
        } else if key == "input"@ {
            Some(input)
        } else {
            None
        }),
{
    reveal_strlit("toolUseId");
    reveal_strlit("content");
    reveal_strlit("status");
    reveal_strlit("isError");
    reveal_strlit("name");
    reveal_strlit("input");
    assert("toolUseId"@.len() == 9 && "content"@.len() == 7 && "status"@.len() == 6);
    assert("isError"@.len() == 7 && "name"@.len() == 4 && "input"@.len() == 5);
    assert("content"@[0] == 'c' && "isError"@[0] == 'i');
}

/// A result of one text holds that text under `text`, in one part, and nothing else.
pub proof fn law_texts_are_one_part(text: Seq<char>, key: Seq<char>)
    ensures
        text_part(text).len() == 1,
        json::member(text_part(text)[0], key) == (if key == "text"@ {
            Some(JsonModel::Text(text))
        } else {
            None
        }),
{
}

/// The parts of a result are seen as they are, each at its place as the object that its
/// members make.
pub proof fn law_parts_are_seen_whole(parts: Seq<Vec<(String, JsonValue)>>)
    ensures
        parts_model(parts).len() == parts.len(),
        forall|i: int|
            0 <= i < parts.len() ==> #[trigger] parts_model(parts)[i] == JsonModel::Object(
                json::object_model(parts[i]@),
            ),
{
}

}
