//! A request as a row of blocks that a cached prefix can end after.

use vstd::prelude::*;

use crate::canonical;
use crate::canonical::canonicalize_cache_value;
use crate::json;
use crate::json::{JsonModel, JsonValue, as_text, with_member};
use crate::text;
use crate::text::{same, starts_with, to_lowercase, trim_start};
use crate::tokens;
use crate::tokens::estimate_approx_tokens;
use crate::ttl;
use crate::ttl::{
    DEFAULT_PROMPT_CACHE_TTL, ONE_HOUR, TtlMeasure, TtlQuery, extract_cache_ttl,
    extract_cache_ttl_from_control, has_measures, push_control_query,
};

verus! {

/// A tool that a request offers.
#[derive(Debug)]
pub struct RequestTool {
    pub name: String,
    pub description: String,
    pub input_schema: JsonValue,
    pub cache_control: Option<JsonValue>,
}

/// A text of the system prompt.
#[derive(Debug)]
pub struct SystemMessage {
    pub text: String,
    pub cache_control: Option<JsonValue>,
}

/// A message of the conversation.
#[derive(Debug)]
pub struct Message {
    pub role: String,
    pub content: JsonValue,
}

/// A request for the next message, as far as caching goes.
#[derive(Debug)]
pub struct MessagesRequest {
    pub model: String,
    /// The number of tokens that the model's context window holds.
    pub context_window: i32,
    pub tool_choice: Option<JsonValue>,
    pub tools: Option<Vec<RequestTool>>,
    pub system: Option<Vec<SystemMessage>>,
    pub messages: Vec<Message>,
    /// The measured spans of the decimal numbers that [`ttl_queries`] lists.
    pub ttl_measures: Vec<TtlMeasure>,
}

/// A tool, over what its values hold.
pub struct ToolModel {
    pub name: Seq<char>,
    pub description: Seq<char>,
    pub input_schema: JsonModel,
    pub cache_control: Option<JsonModel>,
}

/// A text of the system prompt, over what its values hold.
pub struct SystemModel {
    pub text: Seq<char>,
    pub cache_control: Option<JsonModel>,
}

/// A message, over what its values hold.
pub struct MessageModel {
    pub role: Seq<char>,
    pub content: JsonModel,
}

/// A request, over what its values hold. A list that is absent is empty.
pub struct RequestModel {
    pub model: Seq<char>,
    pub tool_choice: Option<JsonModel>,
    pub tools: Seq<ToolModel>,
    pub system: Seq<SystemModel>,
    pub messages: Seq<MessageModel>,
    pub measures: Seq<TtlMeasure>,
}

impl View for RequestTool {
    type V = ToolModel;

    open spec fn view(&self) -> ToolModel {
        ToolModel {
            name: self.name@,
            description: self.description@,
            input_schema: self.input_schema@,
            cache_control: json::optional_model(self.cache_control),
        }
    }
}

impl View for SystemMessage {
    type V = SystemModel;

    open spec fn view(&self) -> SystemModel {
        SystemModel { text: self.text@, cache_control: json::optional_model(self.cache_control) }
    }
}

impl View for Message {
    type V = MessageModel;

    open spec fn view(&self) -> MessageModel {
        MessageModel { role: self.role@, content: self.content@ }
    }
}

/// What a row of tools holds.
pub open spec fn tools_view(tools: Seq<RequestTool>) -> Seq<ToolModel> {
    tools.map_values(|tool: RequestTool| tool@)
}

/// What a system prompt holds.
pub open spec fn system_view(system: Seq<SystemMessage>) -> Seq<SystemModel> {
    system.map_values(|message: SystemMessage| message@)
}

/// What a conversation holds.
pub open spec fn messages_view(messages: Seq<Message>) -> Seq<MessageModel> {
    messages.map_values(|message: Message| message@)
}

impl View for MessagesRequest {
    type V = RequestModel;

    open spec fn view(&self) -> RequestModel {
        RequestModel {
            model: self.model@,
            tool_choice: json::optional_model(self.tool_choice),
            tools: match self.tools {
                Some(tools) => tools_view(tools@),
                None => Seq::empty(),
            },
            system: match self.system {
                Some(system) => system_view(system@),
                None => Seq::empty(),
            },
            messages: messages_view(self.messages@),
            measures: self.ttl_measures@,
        }
    }
}

/// A block of a request: its canonical text, the tokens in it, the life that it gives to
/// the prefix that ends with it, and whether a message ends with it.
#[derive(Debug)]
pub struct CacheableBlock {
    pub canonical: String,
    pub tokens: i32,
    pub ttl: u128,
    pub is_message_end: bool,
}

/// A block, over its text as a sequence.
pub struct BlockModel {
    pub canonical: Seq<char>,
    pub tokens: int,
    pub ttl: nat,
    pub is_message_end: bool,
}

impl View for CacheableBlock {
    type V = BlockModel;

    open spec fn view(&self) -> BlockModel {
        BlockModel {
            canonical: self.canonical@,
            tokens: self.tokens as int,
            ttl: self.ttl as nat,
            is_message_end: self.is_message_end,
        }
    }
}

/// What a row of blocks holds.
pub open spec fn blocks_view(blocks: Seq<CacheableBlock>) -> Seq<BlockModel> {
    blocks.map_values(|block: CacheableBlock| block@)
}

/// The block that a value makes.
pub open spec fn block_of(json: JsonModel, ttl: nat, is_message_end: bool) -> BlockModel {
    BlockModel {
        canonical: canonical::canonical(json),
        tokens: tokens::approx_tokens(canonical::canonical(json)),
        ttl,
        is_message_end,
    }
}

/// The value that stands for the model and the tool choice.
pub open spec fn prelude_value(model: Seq<char>, tool_choice: Option<JsonModel>) -> JsonModel {
    JsonModel::Object(
        map![
            "kind"@ => JsonModel::Text("request_prelude"@),
            "model"@ => JsonModel::Text(model),
            "tool_choice"@ => match tool_choice {
                Some(choice) => choice,
                None => JsonModel::Null,
            },
        ],
    )
}

/// The value that stands for a tool.
pub open spec fn tool_value(tool: ToolModel) -> JsonModel {
    JsonModel::Object(
        map![
            "kind"@ => JsonModel::Text("tool"@),
            "name"@ => JsonModel::Text(tool.name),
            "description"@ => JsonModel::Text(tool.description),
            "input_schema"@ => tool.input_schema,
        ],
    )
}

/// A text as a content block.
pub open spec fn text_block(text: Seq<char>) -> JsonModel {
    JsonModel::Object(
        map!["type"@ => JsonModel::Text("text"@), "text"@ => JsonModel::Text(text)],
    )
}

/// The value that stands for a text of the system prompt.
pub open spec fn system_value(text: Seq<char>) -> JsonModel {
    JsonModel::Object(map!["kind"@ => JsonModel::Text("system"@), "block"@ => text_block(text)])
}

/// The value that stands for a content block of a message.
pub open spec fn message_value(role: Seq<char>, block: JsonModel) -> JsonModel {
    JsonModel::Object(
        map![
            "kind"@ => JsonModel::Text("message"@),
            "role"@ => JsonModel::Text(role),
            "block"@ => block,
        ],
    )
}

/// Whether a lowercased text is a billing header, whose content drifts from request to
/// request.
pub open spec fn billing_text(lowered: Seq<char>) -> bool {
    text::begins_with(lowered, "x-anthropic-billing-header:"@)
}

/// Whether a text, without its leading white space and in lower case, is a billing header.
pub open spec fn billing_header(text: Seq<char>) -> bool {
    billing_text(text::lowercase(text::trimmed_start(text)))
}

/// Whether a content block is a billing header: a text block, or one without a type, with
/// such a text.
pub open spec fn billing_block(block: JsonModel) -> bool {
    &&& match json::text_of(json::member(block, "type"@)) {
        Some(kind) => kind.len() == 0 || kind == "text"@,
        None => true,
    }
    &&& match json::text_of(json::member(block, "text"@)) {
        Some(text) => billing_header(text),
        None => false,
    }
}

/// The blocks of the tools.
pub open spec fn tool_blocks(tools: Seq<ToolModel>, measures: Seq<TtlMeasure>) -> Seq<BlockModel>
    decreases tools.len(),
{
    if tools.len() == 0 {
        Seq::empty()
    } else {
        tool_blocks(tools.drop_last(), measures).push(
            block_of(
                tool_value(tools.last()),
                ttl::control_ttl(tools.last().cache_control, measures),
                false,
            ),
        )
    }
}

/// The blocks of the system prompt. A billing header makes none.
pub open spec fn system_blocks(system: Seq<SystemModel>, measures: Seq<TtlMeasure>) -> Seq<BlockModel>
    decreases system.len(),
{
    if system.len() == 0 {
        Seq::empty()
    } else {
        let front = system_blocks(system.drop_last(), measures);
        let message = system.last();
        if billing_header(message.text) {
            front
        } else {
            front.push(
                block_of(
                    system_value(message.text),
                    ttl::control_ttl(message.cache_control, measures),
                    false,
                ),
            )
        }
    }
}

/// The blocks of the first `n` items of a message's content. A billing header makes none;
/// the last item ends the message.
pub open spec fn item_blocks(
    role: Seq<char>,
    items: Seq<JsonModel>,
    n: nat,
    measures: Seq<TtlMeasure>,
) -> Seq<BlockModel>
    decreases n,
{
    if n == 0 {
        Seq::empty()
    } else {
        let front = item_blocks(role, items, (n - 1) as nat, measures);
        let item = items[n - 1];
        if billing_block(item) {
            front
        } else {
            front.push(
                block_of(message_value(role, item), ttl::block_ttl(item, measures), n == items.len()),
            )
        }
    }
}

/// The blocks of one message.
pub open spec fn message_blocks(message: MessageModel, measures: Seq<TtlMeasure>) -> Seq<BlockModel> {
    match message.content {
        JsonModel::Text(text) => seq![
            block_of(message_value(message.role, text_block(text)), 0, true),
        ],
        JsonModel::Array(items) => item_blocks(message.role, items, items.len(), measures),
        JsonModel::Null => Seq::empty(),
        other => seq![block_of(message_value(message.role, other), 0, true)],
    }
}

/// The blocks of a conversation.
pub open spec fn conversation_blocks(
    messages: Seq<MessageModel>,
    measures: Seq<TtlMeasure>,
) -> Seq<BlockModel>
    decreases messages.len(),
{
    if messages.len() == 0 {
        Seq::empty()
    } else {
        conversation_blocks(messages.drop_last(), measures) + message_blocks(
            messages.last(),
            measures,
        )
    }
}

/// The blocks of a request: the model and tool choice, the tools, the system prompt, the
/// conversation.
pub open spec fn flattened(request: RequestModel) -> Seq<BlockModel> {
    seq![block_of(prelude_value(request.model, request.tool_choice), 0, false)] + tool_blocks(
        request.tools,
        request.measures,
    ) + system_blocks(request.system, request.measures) + conversation_blocks(
        request.messages,
        request.measures,
    )
}

/// A text as a content block.
fn build_text_block(text: &str) -> (json: JsonValue)
    ensures
        json@ == text_block(text@),
{
    let members = with_member(Vec::new(), "type", JsonValue::Text("text".to_owned()));
    let members = with_member(members, "text", JsonValue::Text(text.to_owned()));
    JsonValue::Object(members)
}

/// The value that stands for a content block of a message.
fn build_message_value(role: &str, block: JsonValue) -> (json: JsonValue)
    ensures
        json@ == message_value(role@, block@),
{
    let members = with_member(Vec::new(), "kind", JsonValue::Text("message".to_owned()));
    let members = with_member(members, "role", JsonValue::Text(role.to_owned()));
    let members = with_member(members, "block", block);
    JsonValue::Object(members)
}

/// Appends the block that a value makes.
fn push_block(blocks: &mut Vec<CacheableBlock>, value: &JsonValue, ttl: u128, is_message_end: bool)
    ensures
        blocks_view(final(blocks)@) == blocks_view(old(blocks)@).push(
            block_of(value@, ttl as nat, is_message_end),
        ),
{
    let canonical: String = canonicalize_cache_value(value);
    let tokens: i32 = estimate_approx_tokens(canonical.as_str());
    blocks.push(CacheableBlock { canonical, tokens, ttl, is_message_end });
    proof {
        assert(blocks_view(blocks@) == blocks_view(old(blocks)@).push(
            block_of(value@, ttl as nat, is_message_end),
        ));
    }
}

/// Whether a lowercased text is a billing header.
pub fn is_billing_text(lowered: &str) -> (b: bool)
    ensures
        b == billing_text(lowered@),
{
    starts_with(lowered, "x-anthropic-billing-header:")
}

/// Whether a content block is a billing header.
pub fn is_billing_header_block(value: &JsonValue) -> (b: bool)
    ensures
        b == billing_block(value@),
{
    if let Some(kind) = as_text(value.get("type")) {
        if !kind.is_empty() && !same(kind, "text") {
            return false;
        }
    }
    match as_text(value.get("text")) {
        Some(text) => {
            let lowered: String = to_lowercase(trim_start(text));
            is_billing_text(lowered.as_str())
        },
        None => false,
    }
}

/// A text block is a billing header where its text is one.
proof fn lemma_text_block_billing(text: Seq<char>)
    ensures
        billing_block(text_block(text)) == billing_header(text),
{
    reveal_strlit("type");
    reveal_strlit("text");
    assert("type"@[1] != "text"@[1]);
    assert(json::member(text_block(text), "type"@) == Some(JsonModel::Text("text"@)));
    assert(json::member(text_block(text), "text"@) == Some(JsonModel::Text(text)));
}

/// Appends the blocks of the tools.
fn push_tools(
    blocks: &mut Vec<CacheableBlock>,
    tools: &Vec<RequestTool>,
    measures: &Vec<TtlMeasure>,
)
    ensures
        blocks_view(final(blocks)@) == blocks_view(old(blocks)@) + tool_blocks(
            tools_view(tools@),
            measures@,
        ),
{
    let ghost start = blocks_view(blocks@);
    let ghost models = tools_view(tools@);
    let mut i: usize = 0;
    proof {
        assert(models.take(0) == Seq::<ToolModel>::empty());
        assert(start == start + tool_blocks(models.take(0), measures@));
    }
    while i < tools.len()
        invariant
            i <= tools.len(),
            models == tools_view(tools@),
            blocks_view(blocks@) == start + tool_blocks(models.take(i as int), measures@),
        decreases tools.len() - i,
    {
        let tool: &RequestTool = &tools[i];
        let members = with_member(Vec::new(), "kind", JsonValue::Text("tool".to_owned()));
        let members = with_member(members, "name", JsonValue::Text(tool.name.clone()));
        let members = with_member(
            members,
            "description",
            JsonValue::Text(tool.description.clone()),
        );
        let members = with_member(members, "input_schema", tool.input_schema.duplicate());
        let value = JsonValue::Object(members);
        let ttl: u128 = extract_cache_ttl_from_control(tool.cache_control.as_ref(), measures);
        push_block(blocks, &value, ttl, false);
        proof {
            assert(models.take(i + 1).drop_last() == models.take(i as int));
            assert(models.take(i + 1).last() == tool@);
            assert(blocks_view(blocks@) == start + tool_blocks(models.take(i + 1), measures@));
        }
        i += 1;
    }
    proof {
        assert(models.take(i as int) == models);
    }
}

/// Appends the blocks of the system prompt.
fn push_system(
    blocks: &mut Vec<CacheableBlock>,
    system: &Vec<SystemMessage>,
    measures: &Vec<TtlMeasure>,
)
    ensures
        blocks_view(final(blocks)@) == blocks_view(old(blocks)@) + system_blocks(
            system_view(system@),
            measures@,
        ),
{
    let ghost start = blocks_view(blocks@);
    let ghost models = system_view(system@);
    let mut i: usize = 0;
    proof {
        assert(models.take(0) == Seq::<SystemModel>::empty());
        assert(start == start + system_blocks(models.take(0), measures@));
    }
    while i < system.len()
        invariant
            i <= system.len(),
            models == system_view(system@),
            blocks_view(blocks@) == start + system_blocks(models.take(i as int), measures@),
        decreases system.len() - i,
    {
        let message: &SystemMessage = &system[i];
        let block = build_text_block(message.text.as_str());
        proof {
            assert(models.take(i + 1).drop_last() == models.take(i as int));
            assert(models.take(i + 1).last() == message@);
            lemma_text_block_billing(message.text@);
        }
        if !is_billing_header_block(&block) {
            let members = with_member(Vec::new(), "kind", JsonValue::Text("system".to_owned()));
            let members = with_member(members, "block", block);
            let value = JsonValue::Object(members);
            let ttl: u128 = extract_cache_ttl_from_control(message.cache_control.as_ref(), measures);
            push_block(blocks, &value, ttl, false);
        }
        proof {
            assert(blocks_view(blocks@) == start + system_blocks(models.take(i + 1), measures@));
        }
        i += 1;
    }
    proof {
        assert(models.take(i as int) == models);
    }
}

/// Appends the blocks of one message.
fn push_message(blocks: &mut Vec<CacheableBlock>, message: &Message, measures: &Vec<TtlMeasure>)
    ensures
        blocks_view(final(blocks)@) == blocks_view(old(blocks)@) + message_blocks(
            message@,
            measures@,
        ),
{
    let ghost start = blocks_view(blocks@);
    match &message.content {
        JsonValue::Text(text) => {
            let value = build_message_value(
                message.role.as_str(),
                build_text_block(text.as_str()),
            );
            push_block(blocks, &value, 0, true);
        },
        JsonValue::Array(items) => {
            let ghost models = json::array_model(items@);
            let mut i: usize = 0;
            proof {
                json::lemma_array_model(items@);
                assert(start == start + item_blocks(message.role@, models, 0, measures@));
            }
            while i < items.len()
                invariant
                    i <= items.len(),
                    models == json::array_model(items@),
                    models.len() == items.len(),
                    forall|k: int| 0 <= k < items.len() ==> #[trigger] models[k] == items@[k].model(),
                    blocks_view(blocks@) == start + item_blocks(
                        message.role@,
                        models,
                        i as nat,
                        measures@,
                    ),
                decreases items.len() - i,
            {
                let item: &JsonValue = &items[i];
                proof {
                    assert(models[i as int] == item@);
                }
                if !is_billing_header_block(item) {
                    let value = build_message_value(message.role.as_str(), item.duplicate());
                    let ttl: u128 = extract_cache_ttl(item, measures);
                    push_block(blocks, &value, ttl, i == items.len() - 1);
                }
                proof {
                    assert(blocks_view(blocks@) == start + item_blocks(
                        message.role@,
                        models,
                        (i + 1) as nat,
                        measures@,
                    ));
                }
                i += 1;
            }
        },
        JsonValue::Null => {
            proof {
                assert(start == start + Seq::<BlockModel>::empty());
            }
        },
        other => {
            let value = build_message_value(message.role.as_str(), other.duplicate());
            push_block(blocks, &value, 0, true);
        },
    }
}

/// Lays a request out as a row of blocks.
pub fn flatten_claude_cache_blocks(req: &MessagesRequest) -> (blocks: Vec<CacheableBlock>)
    ensures
        blocks_view(blocks@) == flattened(req@),
{
    let mut blocks: Vec<CacheableBlock> = Vec::new();
    let choice: JsonValue = match &req.tool_choice {
        Some(choice) => choice.duplicate(),
        None => JsonValue::Null,
    };
    let members = with_member(Vec::new(), "kind", JsonValue::Text("request_prelude".to_owned()));
    let members = with_member(members, "model", JsonValue::Text(req.model.clone()));
    let members = with_member(members, "tool_choice", choice);
    let prelude = JsonValue::Object(members);
    push_block(&mut blocks, &prelude, 0, false);
    let ghost head = blocks_view(blocks@);
    proof {
        assert(head == seq![block_of(prelude_value(req@.model, req@.tool_choice), 0, false)]);
    }
    if let Some(tools) = &req.tools {
        push_tools(&mut blocks, tools, &req.ttl_measures);
    }
    let ghost with_tools = head + tool_blocks(req@.tools, req@.measures);
    proof {
        assert(blocks_view(blocks@) == with_tools);
    }
    if let Some(system) = &req.system {
        push_system(&mut blocks, system, &req.ttl_measures);
    }
    let ghost with_system = with_tools + system_blocks(req@.system, req@.measures);
    proof {
        assert(blocks_view(blocks@) == with_system);
    }
    let ghost models = messages_view(req.messages@);
    let mut i: usize = 0;
    proof {
        assert(models.take(0) == Seq::<MessageModel>::empty());
        assert(with_system == with_system + conversation_blocks(models.take(0), req@.measures));
    }
    while i < req.messages.len()
        invariant
            i <= req.messages.len(),
            models == messages_view(req.messages@),
            blocks_view(blocks@) == with_system + conversation_blocks(
                models.take(i as int),
                req@.measures,
            ),
        decreases req.messages.len() - i,
    {
        push_message(&mut blocks, &req.messages[i], &req.ttl_measures);
        proof {
            assert(models.take(i + 1).drop_last() == models.take(i as int));
            assert(models.take(i + 1).last() == req.messages@[i as int]@);
            assert(blocks_view(blocks@) == with_system + conversation_blocks(
                models.take(i + 1),
                req@.measures,
            ));
        }
        i += 1;
    }
    proof {
        assert(models.take(i as int) == models);
    }
    blocks
}

/// The queries that the tools leave to floating point.
pub open spec fn tool_queries(tools: Seq<ToolModel>) -> Seq<(Seq<char>, nat)>
    decreases tools.len(),
{
    if tools.len() == 0 {
        Seq::empty()
    } else {
        tool_queries(tools.drop_last()) + ttl::control_query(tools.last().cache_control)
    }
}

/// The queries that the system prompt leaves to floating point.
pub open spec fn system_queries(system: Seq<SystemModel>) -> Seq<(Seq<char>, nat)>
    decreases system.len(),
{
    if system.len() == 0 {
        Seq::empty()
    } else if billing_header(system.last().text) {
        system_queries(system.drop_last())
    } else {
        system_queries(system.drop_last()) + ttl::control_query(system.last().cache_control)
    }
}

/// The queries that the first `n` items of a message's content leave to floating point.
pub open spec fn item_queries(items: Seq<JsonModel>, n: nat) -> Seq<(Seq<char>, nat)>
    decreases n,
{
    if n == 0 {
        Seq::empty()
    } else if billing_block(items[n - 1]) {
        item_queries(items, (n - 1) as nat)
    } else {
        item_queries(items, (n - 1) as nat) + ttl::control_query(
            json::member(items[n - 1], "cache_control"@),
        )
    }
}

/// The queries that a message leaves to floating point.
pub open spec fn message_queries(message: MessageModel) -> Seq<(Seq<char>, nat)> {
    match message.content {
        JsonModel::Array(items) => item_queries(items, items.len()),
        _ => Seq::empty(),
    }
}

/// The queries that a conversation leaves to floating point.
pub open spec fn conversation_queries(messages: Seq<MessageModel>) -> Seq<(Seq<char>, nat)>
    decreases messages.len(),
{
    if messages.len() == 0 {
        Seq::empty()
    } else {
        conversation_queries(messages.drop_last()) + message_queries(messages.last())
    }
}

/// The queries that a request leaves to floating point, in the order of its blocks.
pub open spec fn request_queries(request: RequestModel) -> Seq<(Seq<char>, nat)> {
    tool_queries(request.tools) + system_queries(request.system) + conversation_queries(
        request.messages,
    )
}

/// Lists the queries of the tools.
fn push_tool_queries(queries: &mut Vec<TtlQuery>, tools: &Vec<RequestTool>)
    ensures
        ttl::queries_view(final(queries)@) == ttl::queries_view(old(queries)@) + tool_queries(
            tools_view(tools@),
        ),
{
    let ghost start = ttl::queries_view(queries@);
    let ghost models = tools_view(tools@);
    let mut i: usize = 0;
    proof {
        assert(models.take(0) == Seq::<ToolModel>::empty());
        assert(start == start + tool_queries(models.take(0)));
    }
    while i < tools.len()
        invariant
            i <= tools.len(),
            models == tools_view(tools@),
            ttl::queries_view(queries@) == start + tool_queries(models.take(i as int)),
        decreases tools.len() - i,
    {
        push_control_query(queries, tools[i].cache_control.as_ref());
        proof {
            assert(models.take(i + 1).drop_last() == models.take(i as int));
            assert(models.take(i + 1).last() == tools@[i as int]@);
            assert(ttl::queries_view(queries@) == start + tool_queries(models.take(i + 1)));
        }
        i += 1;
    }
    proof {
        assert(models.take(i as int) == models);
    }
}

/// Lists the queries of the system prompt.
fn push_system_queries(queries: &mut Vec<TtlQuery>, system: &Vec<SystemMessage>)
    ensures
        ttl::queries_view(final(queries)@) == ttl::queries_view(old(queries)@) + system_queries(
            system_view(system@),
        ),
{
    let ghost start = ttl::queries_view(queries@);
    let ghost models = system_view(system@);
    let mut i: usize = 0;
    proof {
        assert(models.take(0) == Seq::<SystemModel>::empty());
        assert(start == start + system_queries(models.take(0)));
    }
    while i < system.len()
        invariant
            i <= system.len(),
            models == system_view(system@),
            ttl::queries_view(queries@) == start + system_queries(models.take(i as int)),
        decreases system.len() - i,
    {
        let message: &SystemMessage = &system[i];
        let block = build_text_block(message.text.as_str());
        proof {
            assert(models.take(i + 1).drop_last() == models.take(i as int));
            assert(models.take(i + 1).last() == message@);
            lemma_text_block_billing(message.text@);
        }
        if !is_billing_header_block(&block) {
            push_control_query(queries, message.cache_control.as_ref());
        }
        proof {
            assert(ttl::queries_view(queries@) == start + system_queries(models.take(i + 1)));
        }
        i += 1;
    }
    proof {
        assert(models.take(i as int) == models);
    }
}

/// Lists the queries of a message.
fn push_message_queries(queries: &mut Vec<TtlQuery>, message: &Message)
    ensures
        ttl::queries_view(final(queries)@) == ttl::queries_view(old(queries)@) + message_queries(message@),
{
    let ghost start = ttl::queries_view(queries@);
    proof {
        assert(start == start + Seq::<(Seq<char>, nat)>::empty());
    }
    if let JsonValue::Array(items) = &message.content {
        let ghost models = json::array_model(items@);
        let mut i: usize = 0;
        proof {
            json::lemma_array_model(items@);
            assert(start == start + item_queries(models, 0));
        }
        while i < items.len()
            invariant
                i <= items.len(),
                models == json::array_model(items@),
                models.len() == items.len(),
                forall|k: int| 0 <= k < items.len() ==> #[trigger] models[k] == items@[k].model(),
                ttl::queries_view(queries@) == start + item_queries(models, i as nat),
            decreases items.len() - i,
        {
            let item: &JsonValue = &items[i];
            proof {
                assert(models[i as int] == item@);
            }
            if !is_billing_header_block(item) {
                push_control_query(queries, item.get("cache_control"));
            }
            proof {
                assert(ttl::queries_view(queries@) == start + item_queries(models, (i + 1) as nat));
            }
            i += 1;
        }
    }
}

/// Lists the decimal numbers whose spans a request leaves to floating point: measured,
/// they belong into its `ttl_measures`.
pub fn ttl_queries(req: &MessagesRequest) -> (queries: Vec<TtlQuery>)
    ensures
        ttl::queries_view(queries@) == request_queries(req@),
{
    let mut queries: Vec<TtlQuery> = Vec::new();
    proof {
        assert(ttl::queries_view(queries@) == Seq::<(Seq<char>, nat)>::empty());
    }
    if let Some(tools) = &req.tools {
        push_tool_queries(&mut queries, tools);
    }
    proof {
        assert(ttl::queries_view(queries@) == tool_queries(req@.tools));
    }
    if let Some(system) = &req.system {
        push_system_queries(&mut queries, system);
    }
    let ghost start = tool_queries(req@.tools) + system_queries(req@.system);
    let ghost models = messages_view(req.messages@);
    let mut i: usize = 0;
    proof {
        assert(ttl::queries_view(queries@) == start);
        assert(models.take(0) == Seq::<MessageModel>::empty());
        assert(start == start + conversation_queries(models.take(0)));
    }
    while i < req.messages.len()
        invariant
            i <= req.messages.len(),
            models == messages_view(req.messages@),
            ttl::queries_view(queries@) == start + conversation_queries(models.take(i as int)),
        decreases req.messages.len() - i,
    {
        push_message_queries(&mut queries, &req.messages[i]);
        proof {
            assert(models.take(i + 1).drop_last() == models.take(i as int));
            assert(models.take(i + 1).last() == req.messages@[i as int]@);
            assert(ttl::queries_view(queries@) == start + conversation_queries(models.take(i + 1)));
        }
        i += 1;
    }
    proof {
        assert(models.take(i as int) == models);
    }
    queries
}

/// Whether all that a request leaves to floating point was measured.
pub open spec fn fully_measured(request: RequestModel) -> bool {
    ttl::all_listed(request.measures, request_queries(request))
}

/// Whether all that a request leaves to floating point was measured.
pub fn is_fully_measured(req: &MessagesRequest) -> (measured: bool)
    ensures
        measured == fully_measured(req@),
{
    let queries: Vec<TtlQuery> = ttl_queries(req);
    has_measures(&req.ttl_measures, &queries)
}

/// The blocks of a system prompt are those of its first part and those of the rest.
proof fn lemma_system_concat(
    front: Seq<SystemModel>,
    rest: Seq<SystemModel>,
    measures: Seq<TtlMeasure>,
)
    ensures
        system_blocks(front + rest, measures) == system_blocks(front, measures) + system_blocks(
            rest,
            measures,
        ),
    decreases rest.len(),
{
    if rest.len() == 0 {
        assert(front + rest == front);
        assert(system_blocks(front, measures) + Seq::<BlockModel>::empty() == system_blocks(
            front,
            measures,
        ));
    } else {
        lemma_system_concat(front, rest.drop_last(), measures);
        assert((front + rest).drop_last() == front + rest.drop_last());
        assert((front + rest).last() == rest.last());
        assert(system_blocks(front + rest, measures) =~= system_blocks(front, measures)
            + system_blocks(rest, measures));
    }
}

/// A billing header in the system prompt, wherever it stands and whatever it says, leaves
/// the blocks of the request as they are without it.
pub proof fn law_billing_header_is_invisible(
    request: RequestModel,
    front: Seq<SystemModel>,
    header: SystemModel,
    rest: Seq<SystemModel>,
)
    requires
        billing_header(header.text),
    ensures
        flattened(RequestModel { system: front + seq![header] + rest, ..request }) == flattened(
            RequestModel { system: front + rest, ..request },
        ),
{
    let one = seq![header];
    lemma_system_concat(front + one, rest, request.measures);
    lemma_system_concat(front, one, request.measures);
    lemma_system_concat(front, rest, request.measures);
    assert(one.drop_last() == Seq::<SystemModel>::empty());
    assert(one.last() == header);
    assert(system_blocks(one.drop_last(), request.measures) == Seq::<BlockModel>::empty());
    assert(system_blocks(one, request.measures) == Seq::<BlockModel>::empty());
    assert(system_blocks(front, request.measures) + Seq::<BlockModel>::empty() == system_blocks(
        front,
        request.measures,
    ));
}

/// The blocks of a conversation are those of its first part and those of the rest.
proof fn lemma_conversation_concat(
    front: Seq<MessageModel>,
    rest: Seq<MessageModel>,
    measures: Seq<TtlMeasure>,
)
    ensures
        conversation_blocks(front + rest, measures) == conversation_blocks(front, measures)
            + conversation_blocks(rest, measures),
    decreases rest.len(),
{
    if rest.len() == 0 {
        assert(front + rest == front);
        assert(conversation_blocks(front, measures) + Seq::<BlockModel>::empty()
            == conversation_blocks(front, measures));
    } else {
        lemma_conversation_concat(front, rest.drop_last(), measures);
        assert((front + rest).drop_last() == front + rest.drop_last());
        assert((front + rest).last() == rest.last());
        assert(conversation_blocks(front + rest, measures) =~= conversation_blocks(front, measures)
            + conversation_blocks(rest, measures));
    }
}

/// A conversation that goes on begins with the blocks that it had before.
pub proof fn law_conversation_grows(
    request: RequestModel,
    front: Seq<MessageModel>,
    rest: Seq<MessageModel>,
)
    ensures
        flattened(RequestModel { messages: front + rest, ..request }) == flattened(
            RequestModel { messages: front, ..request },
        ) + conversation_blocks(rest, request.measures),
{
    lemma_conversation_concat(front, rest, request.measures);
    assert(flattened(RequestModel { messages: front + rest, ..request }) =~= flattened(
        RequestModel { messages: front, ..request },
    ) + conversation_blocks(rest, request.measures));
}

/// A content block keeps its text and its tokens whatever cache control it carries.
pub proof fn law_block_text_ignores_cache_control(role: Seq<char>, a: JsonModel, b: JsonModel)
    requires
        canonical::same_content(a, b),
    ensures
        block_of(message_value(role, a), 0, false) == block_of(message_value(role, b), 0, false),
{
    let x = message_value(role, a)->Object_0;
    let y = message_value(role, b)->Object_0;
    assert(x.dom() =~= y.dom());
    assert forall|key: Seq<char>| #[trigger]
        x.contains_key(key) && key != "cache_control"@ implies canonical::same_content(x[key], y[key]) by {
        if key == "block"@ {
        } else {
            assert(x[key] == y[key]);
            assert(x[key] is Text);
        }
    }
    assert(canonical::same_content(message_value(role, a), message_value(role, b)));
    canonical::law_canonical_ignores_cache_control(message_value(role, a), message_value(role, b));
}

/// Whether two lists of measured spans agree on some queries.
pub open spec fn agree(
    a: Seq<TtlMeasure>,
    b: Seq<TtlMeasure>,
    queries: Seq<(Seq<char>, nat)>,
) -> bool {
    forall|i: int|
        0 <= i < queries.len() ==> {
            let query = #[trigger] queries[i];
            ttl::measured(a, query.0, query.1) == ttl::measured(b, query.0, query.1)
        }
}

/// Lists that agree on a row of queries agree on each part of it.
proof fn lemma_agree_parts(
    a: Seq<TtlMeasure>,
    b: Seq<TtlMeasure>,
    front: Seq<(Seq<char>, nat)>,
    rest: Seq<(Seq<char>, nat)>,
)
    requires
        agree(a, b, front + rest),
    ensures
        agree(a, b, front),
        agree(a, b, rest),
{
    assert forall|i: int| 0 <= i < front.len() implies {
        let query = #[trigger] front[i];
        ttl::measured(a, query.0, query.1) == ttl::measured(b, query.0, query.1)
    } by {
        assert((front + rest)[i] == front[i]);
    }
    assert forall|i: int| 0 <= i < rest.len() implies {
        let query = #[trigger] rest[i];
        ttl::measured(a, query.0, query.1) == ttl::measured(b, query.0, query.1)
    } by {
        assert((front + rest)[front.len() + i] == rest[i]);
    }
}

proof fn lemma_agree_tools(tools: Seq<ToolModel>, a: Seq<TtlMeasure>, b: Seq<TtlMeasure>)
    requires
        agree(a, b, tool_queries(tools)),
    ensures
        tool_blocks(tools, a) == tool_blocks(tools, b),
    decreases tools.len(),
{
    if tools.len() > 0 {
        let control = tools.last().cache_control;
        lemma_agree_parts(a, b, tool_queries(tools.drop_last()), ttl::control_query(control));
        lemma_agree_tools(tools.drop_last(), a, b);
        ttl::law_queries_suffice(control, a, b);
    }
}

proof fn lemma_agree_system(system: Seq<SystemModel>, a: Seq<TtlMeasure>, b: Seq<TtlMeasure>)
    requires
        agree(a, b, system_queries(system)),
    ensures
        system_blocks(system, a) == system_blocks(system, b),
    decreases system.len(),
{
    if system.len() > 0 {
        if !billing_header(system.last().text) {
            let control = system.last().cache_control;
            lemma_agree_parts(a, b, system_queries(system.drop_last()), ttl::control_query(control));
            ttl::law_queries_suffice(control, a, b);
        }
        lemma_agree_system(system.drop_last(), a, b);
    }
}

proof fn lemma_agree_items(
    role: Seq<char>,
    items: Seq<JsonModel>,
    n: nat,
    a: Seq<TtlMeasure>,
    b: Seq<TtlMeasure>,
)
    requires
        agree(a, b, item_queries(items, n)),
    ensures
        item_blocks(role, items, n, a) == item_blocks(role, items, n, b),
    decreases n,
{
    if n > 0 {
        if !billing_block(items[n - 1]) {
            let control = json::member(items[n - 1], "cache_control"@);
            lemma_agree_parts(a, b, item_queries(items, (n - 1) as nat), ttl::control_query(control));
            ttl::law_queries_suffice(control, a, b);
        }
        lemma_agree_items(role, items, (n - 1) as nat, a, b);
    }
}

proof fn lemma_agree_messages(messages: Seq<MessageModel>, a: Seq<TtlMeasure>, b: Seq<TtlMeasure>)
    requires
        agree(a, b, conversation_queries(messages)),
    ensures
        conversation_blocks(messages, a) == conversation_blocks(messages, b),
    decreases messages.len(),
{
    if messages.len() > 0 {
        let message = messages.last();
        lemma_agree_parts(
            a,
            b,
            conversation_queries(messages.drop_last()),
            message_queries(message),
        );
        lemma_agree_messages(messages.drop_last(), a, b);
        if let JsonModel::Array(items) = message.content {
            lemma_agree_items(message.role, items, items.len(), a, b);
        }
    }
}

/// The blocks of a request depend on measured spans only through the queries that it
/// leaves to floating point.
pub proof fn law_measured_queries_suffice(
    request: RequestModel,
    a: Seq<TtlMeasure>,
    b: Seq<TtlMeasure>,
)
    requires
        agree(a, b, request_queries(request)),
    ensures
        flattened(RequestModel { measures: a, ..request }) == flattened(
            RequestModel { measures: b, ..request },
        ),
{
    let tools = tool_queries(request.tools);
    let system = system_queries(request.system);
    let messages = conversation_queries(request.messages);
    lemma_agree_parts(a, b, tools + system, messages);
    lemma_agree_parts(a, b, tools, system);
    lemma_agree_tools(request.tools, a, b);
    lemma_agree_system(request.system, a, b);
    lemma_agree_messages(request.messages, a, b);
}

/// Whether the tokens of a block are a number, and its life is none, five minutes or one
/// hour.
pub open spec fn sound(block: BlockModel) -> bool {
    &&& 0 <= block.tokens <= i32::MAX
    &&& block.ttl == 0 || block.ttl == DEFAULT_PROMPT_CACHE_TTL || block.ttl == ONE_HOUR
}

/// Whether all blocks of a row are sound.
pub open spec fn all_sound(blocks: Seq<BlockModel>) -> bool {
    forall|i: int| 0 <= i < blocks.len() ==> sound(#[trigger] blocks[i])
}

proof fn lemma_tools_sound(tools: Seq<ToolModel>, measures: Seq<TtlMeasure>)
    ensures
        all_sound(tool_blocks(tools, measures)),
    decreases tools.len(),
{
    if tools.len() > 0 {
        lemma_tools_sound(tools.drop_last(), measures);
        ttl::law_two_lives(tools.last().cache_control, measures);
    }
}

proof fn lemma_system_sound(system: Seq<SystemModel>, measures: Seq<TtlMeasure>)
    ensures
        all_sound(system_blocks(system, measures)),
    decreases system.len(),
{
    if system.len() > 0 {
        lemma_system_sound(system.drop_last(), measures);
        ttl::law_two_lives(system.last().cache_control, measures);
    }
}

proof fn lemma_items_sound(
    role: Seq<char>,
    items: Seq<JsonModel>,
    n: nat,
    measures: Seq<TtlMeasure>,
)
    ensures
        all_sound(item_blocks(role, items, n, measures)),
    decreases n,
{
    if n > 0 {
        lemma_items_sound(role, items, (n - 1) as nat, measures);
        ttl::law_two_lives(json::member(items[n - 1], "cache_control"@), measures);
    }
}

proof fn lemma_conversation_sound(messages: Seq<MessageModel>, measures: Seq<TtlMeasure>)
    ensures
        all_sound(conversation_blocks(messages, measures)),
    decreases messages.len(),
{
    if messages.len() > 0 {
        lemma_conversation_sound(messages.drop_last(), measures);
        if let JsonModel::Array(items) = messages.last().content {
            lemma_items_sound(messages.last().role, items, items.len(), measures);
        }
    }
}

/// Every block of a request has a number of tokens, and lives for nothing, for five
/// minutes or for one hour.
pub proof fn law_blocks_are_sound(request: RequestModel)
    ensures
        all_sound(flattened(request)),
{
    lemma_tools_sound(request.tools, request.measures);
    lemma_system_sound(request.system, request.measures);
    lemma_conversation_sound(request.messages, request.measures);
}

/// The items before a billing header make the same blocks with and without it.
proof fn lemma_items_before(
    role: Seq<char>,
    front: Seq<JsonModel>,
    header: JsonModel,
    rest: Seq<JsonModel>,
    n: nat,
    measures: Seq<TtlMeasure>,
)
    requires
        n <= front.len(),
        rest.len() > 0,
    ensures
        item_blocks(role, front + seq![header] + rest, n, measures) == item_blocks(
            role,
            front + rest,
            n,
            measures,
        ),
    decreases n,
{
    if n > 0 {
        lemma_items_before(role, front, header, rest, (n - 1) as nat, measures);
        assert((front + seq![header] + rest)[n - 1] == front[n - 1]);
        assert((front + rest)[n - 1] == front[n - 1]);
    }
}

/// So do the items after it, one place further on.
proof fn lemma_items_after(
    role: Seq<char>,
    front: Seq<JsonModel>,
    header: JsonModel,
    rest: Seq<JsonModel>,
    n: nat,
    measures: Seq<TtlMeasure>,
)
    requires
        billing_block(header),
        n <= rest.len(),
        rest.len() > 0,
    ensures
        item_blocks(role, front + seq![header] + rest, front.len() + 1 + n, measures)
            == item_blocks(role, front + rest, front.len() + n, measures),
    decreases n,
{
    let with = front + seq![header] + rest;
    let without = front + rest;
    if n == 0 {
        lemma_items_before(role, front, header, rest, front.len(), measures);
        assert(with[front.len() as int] == header);
    } else {
        lemma_items_after(role, front, header, rest, (n - 1) as nat, measures);
        assert(with[front.len() as int + n] == rest[n - 1]);
        assert(without[front.len() + n - 1] == rest[n - 1]);
    }
}

/// A billing header among the items of a message, with an item after it, leaves the blocks
/// of the message as they are without it.
pub proof fn law_billing_item_is_invisible(
    role: Seq<char>,
    front: Seq<JsonModel>,
    header: JsonModel,
    rest: Seq<JsonModel>,
    measures: Seq<TtlMeasure>,
)
    requires
        billing_block(header),
        rest.len() > 0,
    ensures
        message_blocks(
            MessageModel { role, content: JsonModel::Array(front + seq![header] + rest) },
            measures,
        ) == message_blocks(
            MessageModel { role, content: JsonModel::Array(front + rest) },
            measures,
        ),
{
    lemma_items_after(role, front, header, rest, rest.len(), measures);
}

/// A system prompt without its billing headers.
pub open spec fn without_billing(system: Seq<SystemModel>) -> Seq<SystemModel>
    decreases system.len(),
{
    if system.len() == 0 {
        Seq::empty()
    } else if billing_header(system.last().text) {
        without_billing(system.drop_last())
    } else {
        without_billing(system.drop_last()).push(system.last())
    }
}

/// A request without the billing headers in its system prompt.
pub open spec fn unbilled(request: RequestModel) -> RequestModel {
    RequestModel { system: without_billing(request.system), ..request }
}

proof fn lemma_without_billing(system: Seq<SystemModel>, measures: Seq<TtlMeasure>)
    ensures
        system_blocks(without_billing(system), measures) == system_blocks(system, measures),
        system_queries(without_billing(system)) == system_queries(system),
    decreases system.len(),
{
    if system.len() > 0 {
        lemma_without_billing(system.drop_last(), measures);
        let rest = without_billing(system.drop_last());
        assert(rest.push(system.last()).drop_last() == rest);
    }
}

/// Billing headers never matter: two requests that are equal once all billing headers are
/// removed from their system prompts have the same blocks, and leave the same queries to
/// floating point, however many headers came, went or changed.
pub proof fn law_billing_headers_never_matter(a: RequestModel, b: RequestModel)
    requires
        unbilled(a) == unbilled(b),
    ensures
        flattened(a) == flattened(b),
        request_queries(a) == request_queries(b),
{
    lemma_without_billing(a.system, a.measures);
    lemma_without_billing(b.system, b.measures);
    assert(unbilled(a).system == unbilled(b).system);
    assert(unbilled(a).model == a.model && unbilled(b).model == b.model);
    assert(unbilled(a).tool_choice == a.tool_choice && unbilled(b).tool_choice == b.tool_choice);
    assert(unbilled(a).tools == a.tools && unbilled(b).tools == b.tools);
    assert(unbilled(a).messages == a.messages && unbilled(b).messages == b.messages);
    assert(unbilled(a).measures == a.measures && unbilled(b).measures == b.measures);
}

/// A request that was fully measured lacks no measure: whatever is measured besides, its
/// blocks stay the same.
pub proof fn law_no_measure_is_lacking(request: RequestModel, more: Seq<TtlMeasure>)
    requires
        fully_measured(request),
    ensures
        flattened(RequestModel { measures: request.measures + more, ..request }) == flattened(
            request,
        ),
{
    let queries = request_queries(request);
    let all = request.measures + more;
    assert forall|i: int| 0 <= i < queries.len() implies {
        let query = #[trigger] queries[i];
        ttl::measured(all, query.0, query.1) == ttl::measured(request.measures, query.0, query.1)
    } by {
        ttl::law_first_entry_counts(request.measures, more, queries[i].0, queries[i].1);
    }
    assert(agree(all, request.measures, queries));
    law_measured_queries_suffice(request, all, request.measures);
    assert(RequestModel { measures: request.measures, ..request } == request);
}

/// Where a row of queries is listed, so is each part of it.
proof fn lemma_listed_parts(
    measures: Seq<TtlMeasure>,
    front: Seq<(Seq<char>, nat)>,
    rest: Seq<(Seq<char>, nat)>,
)
    requires
        ttl::all_listed(measures, front + rest),
    ensures
        ttl::all_listed(measures, front),
        ttl::all_listed(measures, rest),
{
    let both = front + rest;
    assert forall|i: int| 0 <= i < front.len() implies ttl::listed(
        measures,
        (#[trigger] front[i]).0,
        front[i].1,
    ) by {
        assert(both[i] == front[i]);
    }
    assert forall|i: int| 0 <= i < rest.len() implies ttl::listed(
        measures,
        (#[trigger] rest[i]).0,
        rest[i].1,
    ) by {
        assert(both[front.len() + i] == rest[i]);
    }
}

proof fn lemma_tools_listed(measures: Seq<TtlMeasure>, tools: Seq<ToolModel>, at: int)
    requires
        ttl::all_listed(measures, tool_queries(tools)),
        0 <= at < tools.len(),
    ensures
        ttl::all_listed(measures, ttl::control_query(tools[at].cache_control)),
    decreases tools.len(),
{
    lemma_listed_parts(
        measures,
        tool_queries(tools.drop_last()),
        ttl::control_query(tools.last().cache_control),
    );
    if at < tools.len() - 1 {
        lemma_tools_listed(measures, tools.drop_last(), at);
    }
}

proof fn lemma_system_listed(measures: Seq<TtlMeasure>, system: Seq<SystemModel>, at: int)
    requires
        ttl::all_listed(measures, system_queries(system)),
        0 <= at < system.len(),
        !billing_header(system[at].text),
    ensures
        ttl::all_listed(measures, ttl::control_query(system[at].cache_control)),
    decreases system.len(),
{
    if !billing_header(system.last().text) {
        lemma_listed_parts(
            measures,
            system_queries(system.drop_last()),
            ttl::control_query(system.last().cache_control),
        );
    }
    if at < system.len() - 1 {
        lemma_system_listed(measures, system.drop_last(), at);
    }
}

proof fn lemma_items_listed(measures: Seq<TtlMeasure>, items: Seq<JsonModel>, n: nat, at: int)
    requires
        ttl::all_listed(measures, item_queries(items, n)),
        0 <= at < n <= items.len(),
        !billing_block(items[at]),
    ensures
        ttl::all_listed(
            measures,
            ttl::control_query(json::member(items[at], "cache_control"@)),
        ),
    decreases n,
{
    if !billing_block(items[n - 1]) {
        lemma_listed_parts(
            measures,
            item_queries(items, (n - 1) as nat),
            ttl::control_query(json::member(items[n - 1], "cache_control"@)),
        );
    }
    if at < n - 1 {
        lemma_items_listed(measures, items, (n - 1) as nat, at);
    }
}

proof fn lemma_messages_listed(measures: Seq<TtlMeasure>, messages: Seq<MessageModel>, at: int)
    requires
        ttl::all_listed(measures, conversation_queries(messages)),
        0 <= at < messages.len(),
    ensures
        ttl::all_listed(measures, message_queries(messages[at])),
    decreases messages.len(),
{
    lemma_listed_parts(
        measures,
        conversation_queries(messages.drop_last()),
        message_queries(messages.last()),
    );
    if at < messages.len() - 1 {
        lemma_messages_listed(measures, messages.drop_last(), at);
    }
}

/// In a request that was fully measured, each cache control that gives a life to a block
/// finds its decimal number listed.
pub proof fn law_measures_reach_every_block(request: RequestModel)
    requires
        fully_measured(request),
    ensures
        forall|i: int|
            0 <= i < request.tools.len() ==> ttl::all_listed(
                request.measures,
                ttl::control_query((#[trigger] request.tools[i]).cache_control),
            ),
        forall|i: int|
            0 <= i < request.system.len() && !billing_header(request.system[i].text)
                ==> ttl::all_listed(
                request.measures,
                ttl::control_query((#[trigger] request.system[i]).cache_control),
            ),
        forall|m: int, i: int|
            0 <= m < request.messages.len() && request.messages[m].content is Array && 0 <= i
                < request.messages[m].content->Array_0.len() && !billing_block(
                request.messages[m].content->Array_0[i],
            ) ==> ttl::all_listed(
                request.measures,
                ttl::control_query(
                    json::member(
                        #[trigger] request.messages[m].content->Array_0[i],
                        "cache_control"@,
                    ),
                ),
            ),
{
    let measures = request.measures;
    let tools = tool_queries(request.tools);
    let system = system_queries(request.system);
    let messages = conversation_queries(request.messages);
    lemma_listed_parts(measures, tools + system, messages);
    lemma_listed_parts(measures, tools, system);
    assert forall|i: int| 0 <= i < request.tools.len() implies ttl::all_listed(
        measures,
        ttl::control_query((#[trigger] request.tools[i]).cache_control),
    ) by {
        lemma_tools_listed(measures, request.tools, i);
    }
    assert forall|i: int|
        0 <= i < request.system.len() && !billing_header(
            request.system[i].text,
        ) implies ttl::all_listed(
        measures,
        ttl::control_query((#[trigger] request.system[i]).cache_control),
    ) by {
        lemma_system_listed(measures, request.system, i);
    }
    assert forall|m: int, i: int|
        0 <= m < request.messages.len() && request.messages[m].content is Array && 0 <= i
            < request.messages[m].content->Array_0.len() && !billing_block(
            request.messages[m].content->Array_0[i],
        ) implies ttl::all_listed(
        measures,
        ttl::control_query(
            json::member(#[trigger] request.messages[m].content->Array_0[i], "cache_control"@),
        ),
    ) by {
        let items = request.messages[m].content->Array_0;
        lemma_messages_listed(measures, request.messages, m);
        lemma_items_listed(measures, items, items.len(), i);
    }
}

/// The blocks of a list of items: none ends the message but that of the last item.
proof fn lemma_item_ends(
    role: Seq<char>,
    items: Seq<JsonModel>,
    n: nat,
    measures: Seq<TtlMeasure>,
)
    requires
        n <= items.len(),
    ensures
        ({
            let row = item_blocks(role, items, n, measures);
            forall|i: int|
                0 <= i < row.len() ==> ((#[trigger] row[i]).is_message_end <==> n == items.len() && i
                    == row.len() - 1 && !billing_block(items[n - 1]))
        }),
    decreases n,
{
    if n > 0 {
        lemma_item_ends(role, items, (n - 1) as nat, measures);
        let front = item_blocks(role, items, (n - 1) as nat, measures);
        let row = item_blocks(role, items, n, measures);
        assert forall|i: int| 0 <= i < row.len() implies ((#[trigger] row[i]).is_message_end <==> n
            == items.len() && i == row.len() - 1 && !billing_block(items[n - 1])) by {
            if i < front.len() {
                assert(row[i] == front[i]);
            }
        }
    }
}

/// A message ends with its last block, unless the last item of its content is a billing
/// header; no other block of it ends a message.
pub proof fn law_messages_end_once(message: MessageModel, measures: Seq<TtlMeasure>)
    ensures
        ({
            let row = message_blocks(message, measures);
            let headed = match message.content {
                JsonModel::Array(items) => items.len() > 0 && billing_block(items.last()),
                _ => false,
            };
            forall|i: int|
                0 <= i < row.len() ==> ((#[trigger] row[i]).is_message_end <==> i == row.len() - 1
                    && !headed)
        }),
{
    if let JsonModel::Array(items) = message.content {
        lemma_item_ends(message.role, items, items.len(), measures);
    }
}

/// Whether a text is a billing header for what it begins with once its leading white space
/// is dropped and it is in lower case.
pub proof fn law_billing_headers_are_recognised(text: Seq<char>, block: JsonModel)
    ensures
        ({
            let lowered = text::lowercase(text::trimmed_start(text));
            let mark = "x-anthropic-billing-header:"@;
            billing_header(text) <==> mark.len() <= lowered.len() && forall|i: int|
                0 <= i < mark.len() ==> lowered[i] == #[trigger] mark[i]
        }),
        ({
            let kind = json::member(block, "type"@);
            let words = json::member(block, "text"@);
            billing_block(block) <==> (kind is Some && kind->0 is Text ==> kind->0->Text_0.len() == 0
                || kind->0->Text_0 == "text"@) && words is Some && words->0 is Text
                && billing_header(words->0->Text_0)
        }),
{
    text::law_searching_is_exact(
        text::lowercase(text::trimmed_start(text)),
        "x-anthropic-billing-header:"@,
    );
}

/// A block shows a value by its canonical text, counts the tokens of that text, and has the
/// life and the end of message that it is given.
pub proof fn law_blocks_show_their_value(json: JsonModel, ttl: nat, is_message_end: bool)
    ensures
        ({
            let block = block_of(json, ttl, is_message_end);
            &&& block.canonical == canonical::canonical(json)
            &&& block.tokens == tokens::approx_tokens(canonical::canonical(json))
            &&& block.ttl == ttl
            &&& block.is_message_end == is_message_end
        }),
{
}

/// The value that stands for the model and the tool choice holds them, its kind, and nothing
/// else; so do those that stand for a tool, a text of the system prompt and a content block
/// of a message.
pub proof fn law_values_hold_what_they_stand_for(
    model: Seq<char>,
    choice: Option<JsonModel>,
    tool: ToolModel,
    text: Seq<char>,
    role: Seq<char>,
    block: JsonModel,
    key: Seq<char>,
)
    ensures
        json::member(prelude_value(model, choice), key) == (if key == "kind"@ {
            Some(JsonModel::Text("request_prelude"@))
        } else if key == "model"@ {
            Some(JsonModel::Text(model))
        } else if key == "tool_choice"@ {
            Some(
                if choice is Some {
                    choice->0
                } else {
                    JsonModel::Null
                },
            )
        } else {
            None
        }),
        json::member(tool_value(tool), key) == (if key == "kind"@ {
            Some(JsonModel::Text("tool"@))
        } else if key == "name"@ {
            Some(JsonModel::Text(tool.name))
        } else if key == "description"@ {
            Some(JsonModel::Text(tool.description))
        } else if key == "input_schema"@ {
            Some(tool.input_schema)
        } else {
            None
        }),
        json::member(system_value(text), key) == (if key == "kind"@ {
            Some(JsonModel::Text("system"@))
        } else if key == "block"@ {
            Some(text_block(text))
        } else {
            None
        }),
        json::member(text_block(text), key) == (if key == "type"@ {
            Some(JsonModel::Text("text"@))
        } else if key == "text"@ {
            Some(JsonModel::Text(text))
        } else {
            None
        }),
        json::member(message_value(role, block), key) == (if key == "kind"@ {
            Some(JsonModel::Text("message"@))
        } else if key == "role"@ {
            Some(JsonModel::Text(role))
        } else if key == "block"@ {
            Some(block)
        } else {
            None
        }),
{
    reveal_strlit("kind");
    reveal_strlit("model");
    reveal_strlit("tool_choice");
    reveal_strlit("name");
    reveal_strlit("description");
    reveal_strlit("input_schema");
    reveal_strlit("block");
    reveal_strlit("type");
    reveal_strlit("text");
    reveal_strlit("role");
    assert("kind"@[0] == 'k' && "name"@[0] == 'n' && "role"@[0] == 'r');
    assert("type"@[1] == 'y' && "text"@[1] == 'e');
    assert("kind"@.len() == 4 && "model"@.len() == 5 && "tool_choice"@.len() == 11);
    assert("description"@.len() == 11 && "input_schema"@.len() == 12 && "block"@.len() == 5);
}

/// The blocks of the tools: one for each tool, in order, with the life that its cache
/// control gives, and none ends a message.
pub proof fn law_each_tool_is_a_block(tools: Seq<ToolModel>, measures: Seq<TtlMeasure>)
    ensures
        tool_blocks(tools, measures).len() == tools.len(),
        forall|i: int|
            0 <= i < tools.len() ==> #[trigger] tool_blocks(tools, measures)[i] == block_of(
                tool_value(tools[i]),
                ttl::control_ttl(tools[i].cache_control, measures),
                false,
            ),
    decreases tools.len(),
{
    if tools.len() > 0 {
        law_each_tool_is_a_block(tools.drop_last(), measures);
    }
}

/// The blocks of the system prompt: one for each text that is no billing header, in order,
/// with the life that its cache control gives, and none ends a message.
pub proof fn law_each_system_text_is_a_block(system: Seq<SystemModel>, measures: Seq<TtlMeasure>)
    ensures
        ({
            let kept = system.filter(|message: SystemModel| !billing_header(message.text));
            let row = system_blocks(system, measures);
            &&& row.len() == kept.len()
            &&& forall|i: int|
                0 <= i < kept.len() ==> #[trigger] row[i] == block_of(
                    system_value(kept[i].text),
                    ttl::control_ttl(kept[i].cache_control, measures),
                    false,
                )
        }),
    decreases system.len(),
{
    reveal(Seq::filter);
    if system.len() > 0 {
        law_each_system_text_is_a_block(system.drop_last(), measures);
    }
}

/// The blocks of a list of content: one for each item that is no billing header, in order,
/// with the life that its own cache control gives.
proof fn lemma_items_are_blocks(
    role: Seq<char>,
    items: Seq<JsonModel>,
    n: nat,
    measures: Seq<TtlMeasure>,
)
    requires
        n <= items.len(),
    ensures
        ({
            let kept = items.take(n as int).filter(|item: JsonModel| !billing_block(item));
            let row = item_blocks(role, items, n, measures);
            &&& row.len() == kept.len()
            &&& forall|i: int|
                0 <= i < kept.len() ==> #[trigger] row[i] == block_of(
                    message_value(role, kept[i]),
                    ttl::block_ttl(kept[i], measures),
                    row[i].is_message_end,
                )
        }),
    decreases n,
{
    reveal(Seq::filter);
    if n > 0 {
        lemma_items_are_blocks(role, items, (n - 1) as nat, measures);
        assert(items.take(n as int).drop_last() =~= items.take(n - 1));
        assert(items.take(n as int).last() == items[n - 1]);
    }
}

/// The blocks of a message: its text is one, and so is any other single value; of a list,
/// each item that is no billing header is one, in order, with the life that its own cache
/// control gives; a message without content has none.
pub proof fn law_each_part_of_a_message_is_a_block(message: MessageModel, measures: Seq<TtlMeasure>)
    ensures
        ({
            let row = message_blocks(message, measures);
            match message.content {
                JsonModel::Text(text) => row.len() == 1 && row[0] == block_of(
                    message_value(message.role, text_block(text)),
                    0,
                    true,
                ),
                JsonModel::Array(items) => {
                    let kept = items.filter(|item: JsonModel| !billing_block(item));
                    &&& row.len() == kept.len()
                    &&& forall|i: int|
                        0 <= i < kept.len() ==> #[trigger] row[i] == block_of(
                            message_value(message.role, kept[i]),
                            ttl::block_ttl(kept[i], measures),
                            i == kept.len() - 1 && !billing_block(items.last()),
                        )
                },
                JsonModel::Null => row.len() == 0,
                other => row.len() == 1 && row[0] == block_of(
                    message_value(message.role, other),
                    0,
                    true,
                ),
            }
        }),
{
    law_messages_end_once(message, measures);
    if let JsonModel::Array(items) = message.content {
        lemma_items_are_blocks(message.role, items, items.len(), measures);
        assert(items.take(items.len() as int) =~= items);
        let kept = items.filter(|item: JsonModel| !billing_block(item));
        let row = message_blocks(message, measures);
        if items.len() == 0 {
            assert(row.len() == 0);
        }
        assert forall|i: int| 0 <= i < kept.len() implies #[trigger] row[i] == block_of(
            message_value(message.role, kept[i]),
            ttl::block_ttl(kept[i], measures),
            i == kept.len() - 1 && !billing_block(items.last()),
        ) by {
            assert(row[i].is_message_end <==> i == row.len() - 1 && !billing_block(items.last()));
        }
    }
}

/// A request is laid out in order: the model and the tool choice, which have no life and end
/// no message; the tools; the system prompt; the messages, one after the other.
pub proof fn law_requests_are_laid_out_in_order(request: RequestModel)
    ensures
        flattened(request) == seq![
            block_of(prelude_value(request.model, request.tool_choice), 0, false),
        ] + tool_blocks(request.tools, request.measures) + system_blocks(
            request.system,
            request.measures,
        ) + request.messages.fold_left(
            Seq::<BlockModel>::empty(),
            |row: Seq<BlockModel>, message: MessageModel|
                row + message_blocks(message, request.measures),
        ),
{
    lemma_conversation_folds(request.messages, request.measures);
}

proof fn lemma_conversation_folds(messages: Seq<MessageModel>, measures: Seq<TtlMeasure>)
    ensures
        conversation_blocks(messages, measures) == messages.fold_left(
            Seq::<BlockModel>::empty(),
            |row: Seq<BlockModel>, message: MessageModel| row + message_blocks(message, measures),
        ),
    decreases messages.len(),
{
    if messages.len() > 0 {
        lemma_conversation_folds(messages.drop_last(), measures);
    }
}

/// A lowercased text is a billing header where it begins with the header's name and a colon.
pub proof fn law_billing_texts_begin_with_the_name(lowered: Seq<char>)
    ensures
        ({
            let mark = "x-anthropic-billing-header:"@;
            billing_text(lowered) <==> mark.len() <= lowered.len() && forall|i: int|
                0 <= i < mark.len() ==> lowered[i] == #[trigger] mark[i]
        }),
{
    text::law_searching_is_exact(lowered, "x-anthropic-billing-header:"@);
}

/// A request leaves to floating point what its cache controls do, in order: those of the
/// tools, of the texts of the system prompt that are no billing headers, and of the items
/// of its messages that are none.
pub proof fn law_queries_are_listed_in_order(request: RequestModel)
    ensures
        request_queries(request) == request.tools.fold_left(
            Seq::<(Seq<char>, nat)>::empty(),
            |row: Seq<(Seq<char>, nat)>, tool: ToolModel|
                row + ttl::control_query(tool.cache_control),
        ) + request.system.fold_left(
            Seq::<(Seq<char>, nat)>::empty(),
            |row: Seq<(Seq<char>, nat)>, message: SystemModel|
                if billing_header(message.text) {
                    row
                } else {
                    row + ttl::control_query(message.cache_control)
                },
        ) + request.messages.fold_left(
            Seq::<(Seq<char>, nat)>::empty(),
            |row: Seq<(Seq<char>, nat)>, message: MessageModel| row + message_queries(message),
        ),
        forall|message: MessageModel| #[trigger]
            message_queries(message) == (match message.content {
                JsonModel::Array(items) => items.fold_left(
                    Seq::<(Seq<char>, nat)>::empty(),
                    |row: Seq<(Seq<char>, nat)>, item: JsonModel|
                        if billing_block(item) {
                            row
                        } else {
                            row + ttl::control_query(json::member(item, "cache_control"@))
                        },
                ),
                _ => Seq::empty(),
            }),
{
    lemma_tool_queries_fold(request.tools);
    lemma_system_queries_fold(request.system);
    lemma_conversation_queries_fold(request.messages);
    assert forall|message: MessageModel| #[trigger]
        message_queries(message) == (match message.content {
            JsonModel::Array(items) => items.fold_left(
                Seq::<(Seq<char>, nat)>::empty(),
                |row: Seq<(Seq<char>, nat)>, item: JsonModel|
                    if billing_block(item) {
                        row
                    } else {
                        row + ttl::control_query(json::member(item, "cache_control"@))
                    },
            ),
            _ => Seq::empty(),
        }) by {
        if let JsonModel::Array(items) = message.content {
            lemma_item_queries_fold(items, items.len());
            assert(items.take(items.len() as int) =~= items);
        }
    }
}

proof fn lemma_tool_queries_fold(tools: Seq<ToolModel>)
    ensures
        tool_queries(tools) == tools.fold_left(
            Seq::<(Seq<char>, nat)>::empty(),
            |row: Seq<(Seq<char>, nat)>, tool: ToolModel|
                row + ttl::control_query(tool.cache_control),
        ),
    decreases tools.len(),
{
    if tools.len() > 0 {
        lemma_tool_queries_fold(tools.drop_last());
    }
}

proof fn lemma_system_queries_fold(system: Seq<SystemModel>)
    ensures
        system_queries(system) == system.fold_left(
            Seq::<(Seq<char>, nat)>::empty(),
            |row: Seq<(Seq<char>, nat)>, message: SystemModel|
                if billing_header(message.text) {
                    row
                } else {
                    row + ttl::control_query(message.cache_control)
                },
        ),
    decreases system.len(),
{
    if system.len() > 0 {
        lemma_system_queries_fold(system.drop_last());
    }
}

proof fn lemma_conversation_queries_fold(messages: Seq<MessageModel>)
    ensures
        conversation_queries(messages) == messages.fold_left(
            Seq::<(Seq<char>, nat)>::empty(),
            |row: Seq<(Seq<char>, nat)>, message: MessageModel| row + message_queries(message),
        ),
    decreases messages.len(),
{
    if messages.len() > 0 {
        lemma_conversation_queries_fold(messages.drop_last());
    }
}

proof fn lemma_item_queries_fold(items: Seq<JsonModel>, n: nat)
    requires
        n <= items.len(),
    ensures
        item_queries(items, n) == items.take(n as int).fold_left(
            Seq::<(Seq<char>, nat)>::empty(),
            |row: Seq<(Seq<char>, nat)>, item: JsonModel|
                if billing_block(item) {
                    row
                } else {
                    row + ttl::control_query(json::member(item, "cache_control"@))
                },
        ),
    decreases n,
{
    if n > 0 {
        lemma_item_queries_fold(items, (n - 1) as nat);
        assert(items.take(n as int).drop_last() =~= items.take(n - 1));
        assert(items.take(n as int).last() == items[n - 1]);
    }
}

/// A request is seen as it is: its model, its tool choice and its measures, and each tool,
/// system text and message at its place with all that it holds. A list that is absent is
/// empty. So is a row of blocks.
pub proof fn law_requests_are_seen_whole(req: MessagesRequest, row: Seq<CacheableBlock>)
    ensures
        req@.model == req.model@,
        req@.tool_choice == json::optional_model(req.tool_choice),
        req@.measures == req.ttl_measures@,
        req.tools is None ==> req@.tools.len() == 0,
        req.tools is Some ==> req@.tools.len() == req.tools->0.len() && forall|i: int|
            0 <= i < req@.tools.len() ==> {
                let tool = req.tools->0@[i];
                let seen = #[trigger] req@.tools[i];
                &&& seen.name == tool.name@
                &&& seen.description == tool.description@
                &&& seen.input_schema == tool.input_schema@
                &&& seen.cache_control == json::optional_model(tool.cache_control)
            },
        req.system is None ==> req@.system.len() == 0,
        req.system is Some ==> req@.system.len() == req.system->0.len() && forall|i: int|
            0 <= i < req@.system.len() ==> {
                let message = req.system->0@[i];
                let seen = #[trigger] req@.system[i];
                &&& seen.text == message.text@
                &&& seen.cache_control == json::optional_model(message.cache_control)
            },
        req@.messages.len() == req.messages.len(),
        forall|i: int|
            0 <= i < req@.messages.len() ==> {
                let message = req.messages@[i];
                let seen = #[trigger] req@.messages[i];
                &&& seen.role == message.role@
                &&& seen.content == message.content@
            },
        blocks_view(row).len() == row.len(),
        forall|i: int|
            0 <= i < row.len() ==> {
                let seen = #[trigger] blocks_view(row)[i];
                &&& seen.canonical == row[i].canonical@
                &&& seen.tokens == row[i].tokens
                &&& seen.ttl == row[i].ttl
                &&& seen.is_message_end == row[i].is_message_end
            },
{
}

}
