//! One line of a transcript: the fields of a JSON record that the statistics
//! read, and the rules that say whether and how a line is counted.
use vstd::prelude::*;
use vstd::utf8::{encode_utf8, decode_utf8, is_char_boundary};
use crate::json::{JsonTree, JsonModel, json_accepts, json_parse, json_parse_result, json_member, json_text, member, text_of, opt_model};
use crate::text::str_eq;

verus! {

/// A block of a message's content: its `type` and its `name`, where these
/// are JSON strings.
pub struct ContentBlock {
    pub block_type: Option<String>,
    pub name: Option<String>,
}

/// The fields of a transcript record that the statistics read: `type`,
/// `timestamp` (where these are JSON strings) and the blocks of
/// `message.content` (where that is a JSON array).
pub struct TranscriptEntry {
    pub msg_type: Option<String>,
    pub timestamp: Option<String>,
    pub blocks: Option<Vec<ContentBlock>>,
}

/// The text of an optional string.
pub open spec fn opt_text(o: Option<String>) -> Option<Seq<char>> {
    match o {
        Some(s) => Some(s@),
        None => None,
    }
}

/// What a content block holds.
pub struct BlockModel {
    pub block_type: Option<Seq<char>>,
    pub name: Option<Seq<char>>,
}

/// What a transcript record holds.
pub struct EntryModel {
    pub msg_type: Option<Seq<char>>,
    pub timestamp: Option<Seq<char>>,
    pub blocks: Option<Seq<BlockModel>>,
}

impl View for ContentBlock {
    type V = BlockModel;

    open spec fn view(&self) -> BlockModel {
        BlockModel { block_type: opt_text(self.block_type), name: opt_text(self.name) }
    }
}

impl View for TranscriptEntry {
    type V = EntryModel;

    open spec fn view(&self) -> EntryModel {
        EntryModel {
            msg_type: opt_text(self.msg_type),
            timestamp: opt_text(self.timestamp),
            blocks: match self.blocks {
                Some(bs) => Some(bs@.map_values(|b: ContentBlock| b@)),
                None => None,
            },
        }
    }
}

/// The text `user`.
pub open spec fn user_text() -> Seq<char> {
    seq!['u', 's', 'e', 'r']
}

/// The text `assistant`.
pub open spec fn assistant_text() -> Seq<char> {
    seq!['a', 's', 's', 'i', 's', 't', 'a', 'n', 't']
}

/// The text `tool_use`.
pub open spec fn tool_use_text() -> Seq<char> {
    seq!['t', 'o', 'o', 'l', '_', 'u', 's', 'e']
}

/// A conversational turn: a record of type `user` or `assistant`.
pub open spec fn is_turn(e: EntryModel) -> bool {
    e.msg_type == Some(user_text()) || e.msg_type == Some(assistant_text())
}

/// A record that counts as a message: a turn with a timestamp of at least
/// 13 bytes.
pub open spec fn is_message(e: EntryModel) -> bool {
    is_turn(e) && (e.timestamp matches Some(t) && encode_utf8(t).len() >= 13)
}

/// The UTF-8 bytes of a message's timestamp.
pub open spec fn stamp_bytes(e: EntryModel) -> Seq<u8> {
    encode_utf8(e.timestamp.unwrap())
}

/// The date of a message: the first 10 bytes of its timestamp.
pub open spec fn message_date(e: EntryModel) -> Seq<char> {
    decode_utf8(stamp_bytes(e).subrange(0, 10))
}

/// The first 10 bytes of the timestamp can be cut off as text: byte 10 starts
/// a character.
pub open spec fn date_cut_ok(e: EntryModel) -> bool {
    is_char_boundary(stamp_bytes(e), 10)
}

/// The content blocks that are read for tool calls: those of an `assistant`
/// record whose content is an array.
pub open spec fn assistant_blocks(e: EntryModel) -> Seq<BlockModel> {
    if e.msg_type == Some(assistant_text()) && e.blocks is Some {
        e.blocks.unwrap()
    } else {
        Seq::empty()
    }
}

/// A content block that is a tool call.
pub open spec fn is_tool_use(b: BlockModel) -> bool {
    b.block_type == Some(tool_use_text())
}

/// The number of tool calls among `blocks`.
pub open spec fn tool_use_count(blocks: Seq<BlockModel>) -> nat
    decreases blocks.len(),
{
    if blocks.len() == 0 {
        0
    } else {
        tool_use_count(blocks.drop_last()) + if is_tool_use(blocks.last()) { 1nat } else { 0 }
    }
}

/// Only user and assistant records can be messages: a record whose type is
/// missing or is any text other than `user` and `assistant` is not one. A
/// user or assistant record is a message exactly when its timestamp is a
/// text of at least 13 bytes.
pub proof fn lemma_message_types(e: EntryModel)
    ensures
        !(e.msg_type == Some(seq!['u', 's', 'e', 'r']) || e.msg_type == Some(
            seq!['a', 's', 's', 'i', 's', 't', 'a', 'n', 't'],
        )) ==> !is_message(e),
        (e.msg_type == Some(seq!['u', 's', 'e', 'r']) || e.msg_type == Some(
            seq!['a', 's', 's', 'i', 's', 't', 'a', 'n', 't'],
        )) ==> (is_message(e) <==> (e.timestamp is Some && encode_utf8(e.timestamp.unwrap()).len() >= 13)),
{
    assert(user_text() =~= seq!['u', 's', 'e', 'r']);
    assert(assistant_text() =~= seq!['a', 's', 's', 'i', 's', 't', 'a', 'n', 't']);
}

/// The number of tool calls named `n` among `blocks`.
pub open spec fn named_use_count(blocks: Seq<BlockModel>, n: Seq<char>) -> nat
    decreases blocks.len(),
{
    if blocks.len() == 0 {
        0
    } else {
        named_use_count(blocks.drop_last(), n) + if is_tool_use(blocks.last()) && blocks.last().name
            == Some(n) {
            1nat
        } else {
            0
        }
    }
}

/// The tool calls named `n` are some of the tool calls.
pub proof fn lemma_named_uses_bounded(blocks: Seq<BlockModel>, n: Seq<char>)
    ensures
        named_use_count(blocks, n) <= tool_use_count(blocks),
    decreases blocks.len(),
{
    if blocks.len() > 0 {
        lemma_named_uses_bounded(blocks.drop_last(), n);
    }
}

/// The tool calls among content blocks are exactly the blocks whose type is
/// the text `tool_use`; those named `n` are the ones among them whose name
/// is `n`.
pub proof fn lemma_tool_calls_are_tool_use_blocks(blocks: Seq<BlockModel>, n: Seq<char>)
    ensures
        tool_use_count(blocks) == blocks.filter(
            |b: BlockModel| b.block_type == Some(seq!['t', 'o', 'o', 'l', '_', 'u', 's', 'e']),
        ).len(),
        named_use_count(blocks, n) == blocks.filter(
            |b: BlockModel| b.block_type == Some(seq!['t', 'o', 'o', 'l', '_', 'u', 's', 'e']) && b.name == Some(n),
        ).len(),
    decreases blocks.len(),
{
    reveal(Seq::filter);
    assert(tool_use_text() =~= seq!['t', 'o', 'o', 'l', '_', 'u', 's', 'e']);
    if blocks.len() > 0 {
        lemma_tool_calls_are_tool_use_blocks(blocks.drop_last(), n);
    }
}

/// The text `type`.
pub open spec fn type_key() -> Seq<char> {
    seq!['t', 'y', 'p', 'e']
}

/// The text `timestamp`.
pub open spec fn timestamp_key() -> Seq<char> {
    seq!['t', 'i', 'm', 'e', 's', 't', 'a', 'm', 'p']
}

/// The text `message`.
pub open spec fn message_key() -> Seq<char> {
    seq!['m', 'e', 's', 's', 'a', 'g', 'e']
}

/// The text `content`.
pub open spec fn content_key() -> Seq<char> {
    seq!['c', 'o', 'n', 't', 'e', 'n', 't']
}

/// The text `name`.
pub open spec fn name_key() -> Seq<char> {
    seq!['n', 'a', 'm', 'e']
}

/// The text of the member `key` of `t`, where that member is a string.
pub open spec fn string_member(t: JsonModel, key: Seq<char>) -> Option<Seq<char>> {
    json_text(json_member(t, key))
}

/// What a content block of a record holds: its `type` and its `name`.
pub open spec fn block_of(t: JsonModel) -> BlockModel {
    BlockModel { block_type: string_member(t, type_key()), name: string_member(t, name_key()) }
}

/// The blocks of a record's `message.content`, where that is an array.
pub open spec fn content_blocks(t: JsonModel) -> Option<Seq<BlockModel>> {
    match json_member(t, message_key()) {
        Some(m) => match json_member(m, content_key()) {
            Some(JsonModel::Array(items)) => Some(items.map_values(|b: JsonModel| block_of(b))),
            _ => None,
        },
        None => None,
    }
}

/// What the statistics read of a transcript record: its `type` and
/// `timestamp` where these are strings, and its content blocks.
pub open spec fn entry_of(t: JsonModel) -> EntryModel {
    EntryModel {
        msg_type: string_member(t, type_key()),
        timestamp: string_member(t, timestamp_key()),
        blocks: content_blocks(t),
    }
}

/// What the statistics read of a line of a transcript: `None` when the line
/// is not a JSON document.
pub open spec fn transcript_record(line: Seq<char>) -> Option<EntryModel> {
    match json_parse_result(line) {
        Ok(d) => Some(entry_of(d.1)),
        Err(_) => None,
    }
}

/// The text of the member `key` of `v`, where that member is a string.
fn string_field(v: &JsonTree, key: &str) -> (r: Option<String>)
    ensures
        opt_text(r) == string_member(v@, key@),
{
    text_of(member(v, key))
}

/// The fields that the statistics read from a parsed transcript record.
fn transcript_entry(v: &JsonTree) -> (r: TranscriptEntry)
    ensures
        r@ == entry_of(v@),
{
    let kind_name = "type";
    let timestamp_name = "timestamp";
    let message_name = "message";
    let content_name = "content";
    let block_name = "name";
    proof {
        reveal_strlit("type");
        reveal_strlit("timestamp");
        reveal_strlit("message");
        reveal_strlit("content");
        reveal_strlit("name");
        assert(kind_name@ =~= type_key());
        assert(timestamp_name@ =~= timestamp_key());
        assert(message_name@ =~= message_key());
        assert(content_name@ =~= content_key());
        assert(block_name@ =~= name_key());
    }
    let msg_type = string_field(v, kind_name);
    let timestamp = string_field(v, timestamp_name);
    let mut blocks: Option<Vec<ContentBlock>> = None;
    if let Some(message) = member(v, message_name) {
        if let Some(content) = member(message, content_name) {
            if let JsonTree::Array(items) = content {
                let ghost ms = content@->Array_0;
                let mut bs: Vec<ContentBlock> = Vec::new();
                let mut i: usize = 0;
                while i < items.len()
                    invariant
                        i <= items@.len(),
                        ms == content@->Array_0,
                        ms.len() == items@.len(),
                        forall|j: int| 0 <= j < ms.len() ==> #[trigger] ms[j] == items@[j]@,
                        kind_name@ == type_key(),
                        block_name@ == name_key(),
                        bs@.len() == i,
                        bs@.map_values(|b: ContentBlock| b@) =~= ms.take(i as int).map_values(|b: JsonModel| block_of(b)),
                    decreases items@.len() - i,
                {
                    let item = &items[i];
                    let b = ContentBlock { block_type: string_field(item, kind_name), name: string_field(item, block_name) };
                    let ghost before = bs@;
                    bs.push(b);
                    proof {
                        assert(ms[i as int] == item@);
                        assert(bs@ == before.push(b));
                        let ghost lhs = bs@.map_values(|b: ContentBlock| b@);
                        let ghost rhs = ms.take(i + 1).map_values(|b: JsonModel| block_of(b));
                        let ghost lhs0 = before.map_values(|b: ContentBlock| b@);
                        let ghost rhs0 = ms.take(i as int).map_values(|b: JsonModel| block_of(b));
                        assert forall|j: int| 0 <= j < i + 1 implies #[trigger] lhs[j] == rhs[j] by {
                            if j < i {
                                assert(bs@[j] == before[j]);
                                assert(lhs0[j] == rhs0[j]);
                            }
                        }
                        assert(lhs =~= rhs);
                    }
                    i = i + 1;
                }
                assert(ms.take(i as int) =~= ms);
                blocks = Some(bs);
            }
        }
    }
    TranscriptEntry { msg_type, timestamp, blocks }
}

/// Reads one line of a transcript: `None` when the line is not a JSON
/// document, else the fields the statistics read (`transcript_record`).
pub fn parse_transcript_line(line: &str) -> (r: Option<TranscriptEntry>)
    ensures
        r is Some <==> json_accepts(line@),
        r matches Some(e) ==> transcript_record(line@) == Some(e@),
{
    match json_parse(line) {
        Ok(d) => Some(transcript_entry(&d.1)),
        Err(_) => None,
    }
}

/// Whether an optional text equals `expected`.
pub fn text_is(o: &Option<String>, expected: &str) -> (r: bool)
    ensures
        r == (opt_text(*o) == Some(expected@)),
{
    match o {
        Some(s) => str_eq(s.as_str(), expected),
        None => false,
    }
}

/// Whether the record is a conversational turn.
pub fn entry_is_turn(e: &TranscriptEntry) -> (r: bool)
    ensures
        r == is_turn(e@),
{
    let user = "user";
    let assistant = "assistant";
    proof {
        reveal_strlit("user");
        reveal_strlit("assistant");
        assert(user@ =~= user_text());
        assert(assistant@ =~= assistant_text());
    }
    text_is(&e.msg_type, user) || text_is(&e.msg_type, assistant)
}

/// Whether the record is of type `assistant`.
pub fn entry_is_assistant(e: &TranscriptEntry) -> (r: bool)
    ensures
        r == (e@.msg_type == Some(assistant_text())),
{
    let assistant = "assistant";
    proof {
        reveal_strlit("assistant");
        assert(assistant@ =~= assistant_text());
    }
    text_is(&e.msg_type, assistant)
}

/// Whether a content block is a tool call.
pub fn block_is_tool_use(b: &ContentBlock) -> (r: bool)
    ensures
        r == is_tool_use(b@),
{
    let tool_use = "tool_use";
    proof {
        reveal_strlit("tool_use");
        assert(tool_use@ =~= tool_use_text());
    }
    text_is(&b.block_type, tool_use)
}

} // verus!
