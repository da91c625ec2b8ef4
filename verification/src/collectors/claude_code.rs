//! Coding-assistant collector: reads the assistant's session transcripts
//! (one JSON object per line, one file per session under a per-project
//! directory).
//!
//! Only `assistant` records carry `message.usage`. Parsing is tolerant:
//! unknown record types and malformed lines yield nothing, never an error,
//! so format drift degrades to "fewer events", not a crash.

use vstd::prelude::*;

use crate::json::{JsonValue, json_to_string, parse_json, spec_json_text, spec_parse_json};
use crate::text::{
    after_last, after_last_char, chars_of, find_from, first_occ, last_word, last_word_of, lemma_first_occ_found, parse_i64,
    parse_i64_spec, prefix_chars, prefix_upto, slice_chars, str_eq, string_from_chars, take_chars,
    take_until, take_until_any, trim, trim_spec,
};
use vstd::utf8::encode_utf8;
use crate::collectors::IngestReport;
use crate::json::{JsonMember, opt_deref};
use crate::store::{Granularity, NewEvent};
use crate::text::{decimal, decimal_string, push_str_chars};

verus! {

pub const PROVIDER: &'static str = "code-assistant";

/// One model call with its token usage.
#[derive(Debug, PartialEq)]
pub struct Turn {
    pub session_id: String,
    pub ts: String,
    pub model: Option<String>,
    pub tokens_in: i64,
    pub tokens_out: i64,
    pub cache_read: i64,
    pub cache_write: i64,
    pub is_sidechain: bool,
    pub cwd: Option<String>,
    pub uuid: String,
}

/// Everything of interest extracted from one transcript line.
#[derive(Debug)]
pub struct Parsed {
    pub turn: Option<Turn>,
    pub tool_uses: Vec<ToolUse>,
    pub tool_results: Vec<ToolResult>,
    pub hook_calls: Vec<HookCall>,
}

/// One hook invocation reported by a `system` record.
#[derive(Debug)]
pub struct HookCall {
    pub session_id: String,
    pub ts: String,
    pub script: String,
    pub duration_ms: Option<i64>,
    pub uuid: String,
    /// Position within the record's `hookInfos`, for the dedup key.
    pub idx: usize,
}

/// One tool call made by the model.
#[derive(Debug)]
pub struct ToolUse {
    pub id: String,
    pub tool: String,
    pub target: Option<String>,
    pub session_id: String,
    pub ts: String,
}

/// The size of one tool result, in bytes of its text.
#[derive(Debug)]
pub struct ToolResult {
    pub tool_use_id: String,
    pub chars: i64,
}

// ---------------------------------------------------------------------------
// Mathematical models
// ---------------------------------------------------------------------------

pub struct TurnModel {
    pub session_id: Seq<char>,
    pub ts: Seq<char>,
    pub model: Option<Seq<char>>,
    pub tokens_in: i64,
    pub tokens_out: i64,
    pub cache_read: i64,
    pub cache_write: i64,
    pub is_sidechain: bool,
    pub cwd: Option<Seq<char>>,
    pub uuid: Seq<char>,
}

pub struct ToolUseModel {
    pub id: Seq<char>,
    pub tool: Seq<char>,
    pub target: Option<Seq<char>>,
    pub session_id: Seq<char>,
    pub ts: Seq<char>,
}

pub struct ToolResultModel {
    pub tool_use_id: Seq<char>,
    pub chars: i64,
}

pub struct HookCallModel {
    pub session_id: Seq<char>,
    pub ts: Seq<char>,
    pub script: Seq<char>,
    pub duration_ms: Option<i64>,
    pub uuid: Seq<char>,
    pub idx: usize,
}

pub struct ParsedModel {
    pub turn: Option<TurnModel>,
    pub tool_uses: Seq<ToolUseModel>,
    pub tool_results: Seq<ToolResultModel>,
    pub hook_calls: Seq<HookCallModel>,
}

pub open spec fn opt_string_view(o: Option<String>) -> Option<Seq<char>> {
    match o {
        Some(s) => Some(s@),
        None => None,
    }
}

impl View for Turn {
    type V = TurnModel;

    open spec fn view(&self) -> TurnModel {
        TurnModel {
            session_id: self.session_id@,
            ts: self.ts@,
            model: opt_string_view(self.model),
            tokens_in: self.tokens_in,
            tokens_out: self.tokens_out,
            cache_read: self.cache_read,
            cache_write: self.cache_write,
            is_sidechain: self.is_sidechain,
            cwd: opt_string_view(self.cwd),
            uuid: self.uuid@,
        }
    }
}

impl View for ToolUse {
    type V = ToolUseModel;

    open spec fn view(&self) -> ToolUseModel {
        ToolUseModel {
            id: self.id@,
            tool: self.tool@,
            target: opt_string_view(self.target),
            session_id: self.session_id@,
            ts: self.ts@,
        }
    }
}

impl View for ToolResult {
    type V = ToolResultModel;

    open spec fn view(&self) -> ToolResultModel {
        ToolResultModel { tool_use_id: self.tool_use_id@, chars: self.chars }
    }
}

impl View for HookCall {
    type V = HookCallModel;

    open spec fn view(&self) -> HookCallModel {
        HookCallModel {
            session_id: self.session_id@,
            ts: self.ts@,
            script: self.script@,
            duration_ms: self.duration_ms,
            uuid: self.uuid@,
            idx: self.idx,
        }
    }
}

impl View for Parsed {
    type V = ParsedModel;

    open spec fn view(&self) -> ParsedModel {
        ParsedModel {
            turn: match self.turn {
                Some(t) => Some(t@),
                None => None,
            },
            tool_uses: self.tool_uses@.map_values(|t: ToolUse| t@),
            tool_results: self.tool_results@.map_values(|t: ToolResult| t@),
            hook_calls: self.hook_calls@.map_values(|h: HookCall| h@),
        }
    }
}

pub open spec fn empty_parsed() -> ParsedModel {
    ParsedModel { turn: None, tool_uses: seq![], tool_results: seq![], hook_calls: seq![] }
}

impl Parsed {
    /// A line that yielded nothing.
    pub open spec fn is_empty_spec(self) -> bool {
        &&& self.turn is None
        &&& self.tool_uses.len() == 0
        &&& self.tool_results.len() == 0
        &&& self.hook_calls.len() == 0
    }

    pub fn new() -> (r: Parsed)
        ensures
            r@ == empty_parsed(),
            r.is_empty_spec(),
    {
        let r = Parsed {
            turn: None,
            tool_uses: Vec::new(),
            tool_results: Vec::new(),
            hook_calls: Vec::new(),
        };
        assert(r@.tool_uses == Seq::<ToolUseModel>::empty());
        assert(r@.tool_results == Seq::<ToolResultModel>::empty());
        assert(r@.hook_calls == Seq::<HookCallModel>::empty());
        r
    }

    /// Whether the line yielded nothing at all.
    pub fn is_empty(&self) -> (r: bool)
        ensures
            r == self.is_empty_spec(),
    {
        self.turn.is_none() && self.tool_uses.len() == 0 && self.tool_results.len() == 0
            && self.hook_calls.len() == 0
    }
}

impl Default for Parsed {
    fn default() -> (r: Parsed)
        ensures
            r@ == empty_parsed(),
    {
        Parsed::new()
    }
}

// ---------------------------------------------------------------------------
// Field access on a record
// ---------------------------------------------------------------------------

pub open spec fn opt_str(o: Option<JsonValue>) -> Option<Seq<char>> {
    match o {
        Some(x) => x.str_spec(),
        None => None,
    }
}

/// `record.message.<key>`.
pub open spec fn msg_field(v: JsonValue, key: Seq<char>) -> Option<JsonValue> {
    match v.field("message"@) {
        Some(m) => m.field(key),
        None => None,
    }
}

/// A usage counter: the integer under `key`, zero when missing or not an
/// integer.
pub open spec fn usage_int(usage: JsonValue, key: Seq<char>) -> i64 {
    match usage.field(key) {
        Some(x) => match x.int_spec() {
            Some(i) => i,
            None => 0,
        },
        None => 0,
    }
}

/// The blocks of `message.content` when it is an array, else none.
pub open spec fn content_items(v: JsonValue) -> Seq<JsonValue> {
    match msg_field(v, "content"@) {
        Some(c) => match c.items_spec() {
            Some(s) => s,
            None => seq![],
        },
        None => seq![],
    }
}

fn get_msg_field<'a>(v: &'a JsonValue, key: &str) -> (r: Option<&'a JsonValue>)
    ensures
        crate::json::opt_deref(r) == msg_field(*v, key@),
{
    match v.get("message") {
        Some(m) => m.get(key),
        None => None,
    }
}

fn get_usage_int(usage: &JsonValue, key: &str) -> (r: i64)
    ensures
        r == usage_int(*usage, key@),
{
    match usage.get(key) {
        Some(x) => match x.as_i64() {
            Some(i) => i,
            None => 0,
        },
        None => 0,
    }
}

fn to_owned_opt(o: Option<&str>) -> (r: Option<String>)
    ensures
        opt_string_view(r) == match o {
            Some(s) => Some(s@),
            None => None::<Seq<char>>,
        },
{
    match o {
        Some(s) => Some(s.to_string()),
        None => None,
    }
}

// ---------------------------------------------------------------------------
// Tool call targets
// ---------------------------------------------------------------------------

/// The tool-input fields that best identify what a call touched, in
/// order of preference.
pub open spec fn target_key_spec(i: int) -> Seq<char> {
    if i == 0 {
        "file_path"@
    } else if i == 1 {
        "path"@
    } else if i == 2 {
        "command"@
    } else if i == 3 {
        "url"@
    } else if i == 4 {
        "pattern"@
    } else if i == 5 {
        "query"@
    } else {
        "skill"@
    }
}

pub const TARGET_KEY_COUNT: usize = 7;

fn target_key(i: usize) -> (r: &'static str)
    requires
        i < TARGET_KEY_COUNT,
    ensures
        r@ == target_key_spec(i as int),
{
    if i == 0 {
        "file_path"
    } else if i == 1 {
        "path"
    } else if i == 2 {
        "command"
    } else if i == 3 {
        "url"
    } else if i == 4 {
        "pattern"
    } else if i == 5 {
        "query"
    } else {
        "skill"
    }
}

/// The first preferred field (from the `i`-th on) that holds a string,
/// capped at 160 characters.
pub open spec fn target_from(input: JsonValue, i: int) -> Option<Seq<char>>
    decreases TARGET_KEY_COUNT - i,
{
    if i < 0 || i >= TARGET_KEY_COUNT {
        None
    } else {
        match input.str_field(target_key_spec(i)) {
            Some(s) => Some(prefix_upto(s, 160)),
            None => target_from(input, i + 1),
        }
    }
}

/// What a tool call touched: the first of `file_path`, `path`, `command`,
/// `url`, `pattern`, `query`, `skill` that is a string, at most 160
/// characters of it.
pub fn extract_target(input: &JsonValue) -> (r: Option<String>)
    ensures
        opt_string_view(r) == target_from(*input, 0),
{
    let mut i: usize = 0;
    while i < TARGET_KEY_COUNT
        invariant
            i <= TARGET_KEY_COUNT,
            target_from(*input, 0) == target_from(*input, i as int),
        decreases TARGET_KEY_COUNT - i,
    {
        if let Some(s) = input.get_str(target_key(i)) {
            return Some(take_chars(s, 160));
        }
        i += 1;
    }
    None
}

// ---------------------------------------------------------------------------
// Hook script names
// ---------------------------------------------------------------------------

pub open spec fn plugin_root_spec() -> Seq<char> {
    "${CLAUDE_PLUGIN_ROOT}/"@
}

pub open spec fn path_stop_chars() -> Seq<char> {
    seq!['"', '\'', ' ', '\t']
}

/// The hook script name of a command. Commands reference
/// `${CLAUDE_PLUGIN_ROOT}/hooks/<script>`: the path after the first such
/// reference (up to the next one, a quote or a blank) is cut to its last
/// `/`-separated part. Without a reference, the command's last
/// white-space separated word (or the whole command when it has none),
/// capped at 40 characters.
pub open spec fn hook_script_spec(cmd: Seq<char>) -> Seq<char> {
    let pat = plugin_root_spec();
    match first_occ(cmd, pat, 0) {
        Some(k) => {
            let start = k + pat.len();
            let piece = match first_occ(cmd, pat, start) {
                Some(k2) => cmd.subrange(start, k2),
                None => cmd.skip(start),
            };
            after_last(take_until(piece, path_stop_chars()), '/')
        },
        None => prefix_upto(
            match last_word(cmd) {
                Some(w) => w,
                None => cmd,
            },
            40,
        ),
    }
}

/// The hook script name from a command: the script basename after
/// `${CLAUDE_PLUGIN_ROOT}/`, falling back to the command's last token.
pub fn hook_script(command: &str) -> (r: String)
    ensures
        r@ == hook_script_spec(command@),
{
    let cs = chars_of(command);
    let pat = chars_of("${CLAUDE_PLUGIN_ROOT}/");
    match find_from(&cs, &pat, 0) {
        Some(k) => {
            proof {
                lemma_first_occ_found(cs@, pat@, 0);
            }
            assert(k + pat@.len() <= cs@.len());
            assert(cs@.len() == cs.len());
            let start = k + pat.len();
            proof {
                lemma_first_occ_found(cs@, pat@, start as int);
            }
            let piece = match find_from(&cs, &pat, start) {
                Some(k2) => slice_chars(&cs, start, k2),
                None => slice_chars(&cs, start, cs.len()),
            };
            assert(piece@.skip(0) == piece@);
            let stops = vec!['"', '\'', ' ', '\t'];
            assert(stops@ == path_stop_chars());
            let path = take_until_any(&piece, 0, &stops);
            let base = after_last_char(&path, '/');
            string_from_chars(&base)
        },
        None => {
            let word = match last_word_of(&cs) {
                Some(w) => w,
                None => cs,
            };
            let capped = prefix_chars(&word, 40);
            string_from_chars(&capped)
        },
    }
}

// ---------------------------------------------------------------------------
// Records
// ---------------------------------------------------------------------------

/// The turn of an `assistant` record, when it has `message.usage` and a
/// `uuid`.
pub open spec fn turn_spec(v: JsonValue, sid: Seq<char>, ts: Seq<char>) -> Option<TurnModel> {
    match (msg_field(v, "usage"@), v.str_field("uuid"@)) {
        (Some(usage), Some(uuid)) => Some(
            TurnModel {
                session_id: sid,
                ts,
                model: opt_str(msg_field(v, "model"@)),
                tokens_in: usage_int(usage, "input_tokens"@),
                tokens_out: usage_int(usage, "output_tokens"@),
                cache_read: usage_int(usage, "cache_read_input_tokens"@),
                cache_write: usage_int(usage, "cache_creation_input_tokens"@),
                is_sidechain: match v.field("isSidechain"@) {
                    Some(b) => match b.bool_spec() {
                        Some(x) => x,
                        None => false,
                    },
                    None => false,
                },
                cwd: v.str_field("cwd"@),
                uuid,
            },
        ),
        _ => None,
    }
}

/// A `tool_use` content block with a string `id` and `name`.
pub open spec fn tool_use_of(block: JsonValue, sid: Seq<char>, ts: Seq<char>) -> Option<
    ToolUseModel,
> {
    if block.str_field("type"@) != Some("tool_use"@) {
        None
    } else {
        match (block.str_field("id"@), block.str_field("name"@)) {
            (Some(id), Some(tool)) => Some(
                ToolUseModel {
                    id,
                    tool,
                    target: match block.field("input"@) {
                        Some(input) => target_from(input, 0),
                        None => None,
                    },
                    session_id: sid,
                    ts,
                },
            ),
            _ => None,
        }
    }
}

pub open spec fn tool_uses_spec(items: Seq<JsonValue>, sid: Seq<char>, ts: Seq<char>) -> Seq<
    ToolUseModel,
>
    decreases items.len(),
{
    if items.len() == 0 {
        seq![]
    } else {
        let prev = tool_uses_spec(items.drop_last(), sid, ts);
        match tool_use_of(items.last(), sid, ts) {
            Some(t) => prev.push(t),
            None => prev,
        }
    }
}

/// Size in bytes of a tool result's content: the UTF-8 length of a string
/// content, else of the content's compact JSON text; zero without content.
pub open spec fn content_chars(block: JsonValue) -> i64 {
    match block.field("content"@) {
        Some(c) => match c.str_spec() {
            Some(s) => (encode_utf8(s).len() as usize) as i64,
            None => (encode_utf8(spec_json_text(c)).len() as usize) as i64,
        },
        None => 0,
    }
}

/// A `tool_result` content block with a string `tool_use_id`.
pub open spec fn tool_result_of(block: JsonValue) -> Option<ToolResultModel> {
    if block.str_field("type"@) != Some("tool_result"@) {
        None
    } else {
        match block.str_field("tool_use_id"@) {
            Some(id) => Some(ToolResultModel { tool_use_id: id, chars: content_chars(block) }),
            None => None,
        }
    }
}

pub open spec fn tool_results_spec(items: Seq<JsonValue>) -> Seq<ToolResultModel>
    decreases items.len(),
{
    if items.len() == 0 {
        seq![]
    } else {
        let prev = tool_results_spec(items.drop_last());
        match tool_result_of(items.last()) {
            Some(t) => prev.push(t),
            None => prev,
        }
    }
}

/// `durationMs` as a number, or as a string holding an integer.
pub open spec fn duration_spec(h: JsonValue) -> Option<i64> {
    match h.field("durationMs"@) {
        Some(d) => match d.int_spec() {
            Some(i) => Some(i),
            None => match d.str_spec() {
                Some(s) => parse_i64_spec(s),
                None => None,
            },
        },
        None => None,
    }
}

/// A `hookInfos` entry with a string `command`, at position `idx`.
pub open spec fn hook_of(
    h: JsonValue,
    idx: int,
    sid: Seq<char>,
    ts: Seq<char>,
    uuid: Seq<char>,
) -> Option<HookCallModel> {
    match h.str_field("command"@) {
        Some(cmd) => Some(
            HookCallModel {
                session_id: sid,
                ts,
                script: hook_script_spec(cmd),
                duration_ms: duration_spec(h),
                uuid,
                idx: idx as usize,
            },
        ),
        None => None,
    }
}

pub open spec fn hooks_spec(
    items: Seq<JsonValue>,
    sid: Seq<char>,
    ts: Seq<char>,
    uuid: Seq<char>,
) -> Seq<HookCallModel>
    decreases items.len(),
{
    if items.len() == 0 {
        seq![]
    } else {
        let prev = hooks_spec(items.drop_last(), sid, ts, uuid);
        match hook_of(items.last(), items.len() - 1, sid, ts, uuid) {
            Some(t) => prev.push(t),
            None => prev,
        }
    }
}

/// What one parsed transcript record yields. Records need a string
/// `type`, `sessionId` and `timestamp`. `assistant` records (except
/// the assistant's own `<synthetic>` placeholders) give a turn and their
/// `tool_use` blocks; `user` records give `tool_result` sizes; `system`
/// records give their `hookInfos`; anything else gives nothing.
pub open spec fn record_spec(v: JsonValue) -> ParsedModel {
    match (v.str_field("type"@), v.str_field("sessionId"@), v.str_field("timestamp"@)) {
        (Some(kind), Some(sid), Some(ts)) => {
            if kind == "assistant"@ {
                if opt_str(msg_field(v, "model"@)) != Some("<synthetic>"@) {
                    ParsedModel {
                        turn: turn_spec(v, sid, ts),
                        tool_uses: tool_uses_spec(content_items(v), sid, ts),
                        tool_results: seq![],
                        hook_calls: seq![],
                    }
                } else {
                    empty_parsed()
                }
            } else if kind == "user"@ {
                ParsedModel {
                    turn: None,
                    tool_uses: seq![],
                    tool_results: tool_results_spec(content_items(v)),
                    hook_calls: seq![],
                }
            } else if kind == "system"@ {
                ParsedModel {
                    turn: None,
                    tool_uses: seq![],
                    tool_results: seq![],
                    hook_calls: match v.field("hookInfos"@) {
                        Some(h) => match h.items_spec() {
                            Some(items) => hooks_spec(
                                items,
                                sid,
                                ts,
                                match v.str_field("uuid"@) {
                                    Some(u) => u,
                                    None => seq![],
                                },
                            ),
                            None => seq![],
                        },
                        None => seq![],
                    },
                }
            } else {
                empty_parsed()
            }
        },
        _ => empty_parsed(),
    }
}

/// What a transcript line yields: the record parsed from the trimmed line,
/// or nothing when it is not JSON.
pub open spec fn parse_line_spec(line: Seq<char>) -> ParsedModel {
    match spec_parse_json(trim_spec(line)) {
        Some(v) => record_spec(v),
        None => empty_parsed(),
    }
}

fn tool_uses_of(items: &Vec<JsonValue>, sid: &str, ts: &str) -> (r: Vec<ToolUse>)
    ensures
        r@.map_values(|t: ToolUse| t@) == tool_uses_spec(items@, sid@, ts@),
{
    let mut out: Vec<ToolUse> = Vec::new();
    let mut i: usize = 0;
    while i < items.len()
        invariant
            i <= items@.len(),
            out@.map_values(|t: ToolUse| t@) == tool_uses_spec(items@.take(i as int), sid@, ts@),
        decreases items.len() - i,
    {
        let block = &items[i];
        assert(items@.take(i + 1).drop_last() == items@.take(i as int));
        assert(items@.take(i + 1).last() == items@[i as int]);
        let ghost prev = out@;
        let is_tool_use = match block.get_str("type") {
            Some(t) => str_eq(t, "tool_use"),
            None => false,
        };
        if is_tool_use {
            match (block.get_str("id"), block.get_str("name")) {
                (Some(id), Some(tool)) => {
                    let target = match block.get("input") {
                        Some(input) => extract_target(input),
                        None => None,
                    };
                    out.push(
                        ToolUse {
                            id: id.to_string(),
                            tool: tool.to_string(),
                            target,
                            session_id: sid.to_string(),
                            ts: ts.to_string(),
                        },
                    );
                    assert(out@.map_values(|t: ToolUse| t@) == prev.map_values(|t: ToolUse| t@).push(
                        out@.last()@,
                    ));
                },
                _ => {},
            }
        }
        i += 1;
    }
    assert(items@.take(items@.len() as int) == items@);
    out
}

fn content_size(block: &JsonValue) -> (r: i64)
    ensures
        r == content_chars(*block),
{
    match block.get("content") {
        Some(c) => match c.as_str() {
            Some(s) => s.len() as i64,
            None => {
                let text = json_to_string(c);
                text.as_str().len() as i64
            },
        },
        None => 0,
    }
}

fn tool_results_of(items: &Vec<JsonValue>) -> (r: Vec<ToolResult>)
    ensures
        r@.map_values(|t: ToolResult| t@) == tool_results_spec(items@),
{
    let mut out: Vec<ToolResult> = Vec::new();
    let mut i: usize = 0;
    while i < items.len()
        invariant
            i <= items@.len(),
            out@.map_values(|t: ToolResult| t@) == tool_results_spec(items@.take(i as int)),
        decreases items.len() - i,
    {
        let block = &items[i];
        assert(items@.take(i + 1).drop_last() == items@.take(i as int));
        assert(items@.take(i + 1).last() == items@[i as int]);
        let ghost prev = out@;
        let is_result = match block.get_str("type") {
            Some(t) => str_eq(t, "tool_result"),
            None => false,
        };
        if is_result {
            if let Some(id) = block.get_str("tool_use_id") {
                let chars = content_size(block);
                out.push(ToolResult { tool_use_id: id.to_string(), chars });
                assert(out@.map_values(|t: ToolResult| t@) == prev.map_values(
                    |t: ToolResult| t@,
                ).push(out@.last()@));
            }
        }
        i += 1;
    }
    assert(items@.take(items@.len() as int) == items@);
    out
}

fn duration_of(h: &JsonValue) -> (r: Option<i64>)
    ensures
        r == duration_spec(*h),
{
    match h.get("durationMs") {
        Some(d) => match d.as_i64() {
            Some(i) => Some(i),
            None => match d.as_str() {
                Some(s) => parse_i64(s),
                None => None,
            },
        },
        None => None,
    }
}

fn hooks_of(items: &Vec<JsonValue>, sid: &str, ts: &str, uuid: &str) -> (r: Vec<HookCall>)
    ensures
        r@.map_values(|h: HookCall| h@) == hooks_spec(items@, sid@, ts@, uuid@),
{
    let mut out: Vec<HookCall> = Vec::new();
    let mut i: usize = 0;
    while i < items.len()
        invariant
            i <= items@.len(),
            out@.map_values(|h: HookCall| h@) == hooks_spec(
                items@.take(i as int),
                sid@,
                ts@,
                uuid@,
            ),
        decreases items.len() - i,
    {
        let h = &items[i];
        assert(items@.take(i + 1).drop_last() == items@.take(i as int));
        assert(items@.take(i + 1).last() == items@[i as int]);
        let ghost prev = out@;
        if let Some(cmd) = h.get_str("command") {
            let script = hook_script(cmd);
            let duration_ms = duration_of(h);
            out.push(
                HookCall {
                    session_id: sid.to_string(),
                    ts: ts.to_string(),
                    script,
                    duration_ms,
                    uuid: uuid.to_string(),
                    idx: i,
                },
            );
            assert(out@.map_values(|h: HookCall| h@) == prev.map_values(|h: HookCall| h@).push(
                out@.last()@,
            ));
        }
        i += 1;
    }
    assert(items@.take(items@.len() as int) == items@);
    out
}

/// What one parsed transcript record yields: its turn (assistant records
/// with usage), tool calls, tool result sizes and hook calls.
pub fn parse_record(v: &JsonValue) -> (r: Parsed)
    ensures
        r@ == record_spec(*v),
{
    let mut out = Parsed::new();
    let (kind, sid, ts) = match (v.get_str("type"), v.get_str("sessionId"), v.get_str("timestamp")) {
        (Some(k), Some(s), Some(t)) => (k, s, t),
        _ => return out,
    };
    let content: Option<&Vec<JsonValue>> = match get_msg_field(v, "content") {
        Some(c) => c.as_array(),
        None => None,
    };
    let empty: Vec<JsonValue> = Vec::new();
    let items: &Vec<JsonValue> = match content {
        Some(a) => a,
        None => &empty,
    };
    assert(items@ == content_items(*v));
    if str_eq(kind, "assistant") {
        let model = match get_msg_field(v, "model") {
            Some(m) => m.as_str(),
            None => None,
        };
        let synthetic = match model {
            Some(m) => str_eq(m, "<synthetic>"),
            None => false,
        };
        if !synthetic {
            match (get_msg_field(v, "usage"), v.get_str("uuid")) {
                (Some(usage), Some(uuid)) => {
                    let is_sidechain = match v.get("isSidechain") {
                        Some(b) => match b.as_bool() {
                            Some(x) => x,
                            None => false,
                        },
                        None => false,
                    };
                    out.turn = Some(
                        Turn {
                            session_id: sid.to_string(),
                            ts: ts.to_string(),
                            uuid: uuid.to_string(),
                            model: to_owned_opt(model),
                            tokens_in: get_usage_int(usage, "input_tokens"),
                            tokens_out: get_usage_int(usage, "output_tokens"),
                            cache_read: get_usage_int(usage, "cache_read_input_tokens"),
                            cache_write: get_usage_int(usage, "cache_creation_input_tokens"),
                            is_sidechain,
                            cwd: to_owned_opt(v.get_str("cwd")),
                        },
                    );
                },
                _ => {},
            }
            out.tool_uses = tool_uses_of(items, sid, ts);
            assert(out@.turn == turn_spec(*v, sid@, ts@));
            assert(out@.tool_uses == tool_uses_spec(content_items(*v), sid@, ts@));
            assert(out@.tool_results == Seq::<ToolResultModel>::empty());
        } else {
            assert(out@ == empty_parsed());
        }
        assert(out@ == record_spec(*v));
    } else if str_eq(kind, "user") {
        out.tool_results = tool_results_of(items);
        assert(out@.tool_uses == Seq::<ToolUseModel>::empty());
        assert(out@.hook_calls == Seq::<HookCallModel>::empty());
        assert(out@ == record_spec(*v));
    } else if str_eq(kind, "system") {
        if let Some(hooks) = v.get("hookInfos") {
            if let Some(hs) = hooks.as_array() {
                let uuid = match v.get_str("uuid") {
                    Some(u) => u,
                    None => "",
                };
                proof {
                    reveal_strlit("");
                }
                assert(""@ =~= Seq::<char>::empty());
                assert(uuid@ == match v.str_field("uuid"@) {
                    Some(u) => u,
                    None => Seq::<char>::empty(),
                });
                out.hook_calls = hooks_of(hs, sid, ts, uuid);
                assert(out@.tool_uses == Seq::<ToolUseModel>::empty());
                assert(out@.tool_results == Seq::<ToolResultModel>::empty());
            }
        }
        assert(out@ == record_spec(*v));
    } else {
        assert(out@ == record_spec(*v));
    }
    out
}

/// Extracts everything of interest from one transcript line: a turn from
/// an `assistant` record with usage (except `<synthetic>` placeholders),
/// tool uses from assistant content blocks, tool result sizes from `user`
/// records, hook calls from `system` records.
pub fn parse_line(line: &str) -> (r: Parsed)
    ensures
        r@ == parse_line_spec(line@),
{
    match parse_json(trim(line)) {
        Some(v) => parse_record(&v),
        None => Parsed::new(),
    }
}

// ---------------------------------------------------------------------------
// Store records
// ---------------------------------------------------------------------------

/// The provider-scoped idempotency key of a record id.
pub open spec fn key_spec(id: Seq<char>) -> Seq<char> {
    "code-assistant"@ + seq![':'] + id
}

/// `code-assistant:<id>`: dedup key of a turn (by uuid) or tool call (by id).
pub fn record_key(id: &str) -> (r: String)
    ensures
        r@ == key_spec(id@),
{
    let mut out: Vec<char> = Vec::new();
    push_str_chars(&mut out, PROVIDER);
    out.push(':');
    push_str_chars(&mut out, id);
    string_from_chars(&out)
}

/// `code-assistant:hook:<uuid>:<idx>`: dedup key of a hook call.
pub open spec fn hook_key_spec(uuid: Seq<char>, idx: usize) -> Seq<char> {
    "code-assistant"@ + seq![':', 'h', 'o', 'o', 'k', ':'] + uuid + seq![':'] + decimal(idx as nat)
}

pub fn hook_key(uuid: &str, idx: usize) -> (r: String)
    ensures
        r@ == hook_key_spec(uuid@, idx),
{
    let mut out: Vec<char> = Vec::new();
    push_str_chars(&mut out, PROVIDER);
    out.push(':');
    out.push('h');
    out.push('o');
    out.push('o');
    out.push('k');
    out.push(':');
    push_str_chars(&mut out, uuid);
    out.push(':');
    let digits = decimal_string(idx as u64);
    let mut i: usize = 0;
    let ghost before = out@;
    while i < digits.len()
        invariant
            i <= digits@.len(),
            out@ == before + digits@.take(i as int),
        decreases digits.len() - i,
    {
        out.push(digits[i]);
        i += 1;
        assert(digits@.take(i as int) == digits@.take(i - 1).push(digits@[i - 1]));
    }
    assert(digits@.take(digits@.len() as int) == digits@);
    string_from_chars(&out)
}

/// The metadata of a turn's event: the object `{"sidechain": b}`.
pub open spec fn sidechain_meta(m: JsonValue, b: bool) -> bool {
    match m {
        JsonValue::Object(ms) => ms@.len() == 1 && ms@[0].key@ == "sidechain"@ && ms@[0].value == JsonValue::Bool(b),
        _ => false,
    }
}

impl Turn {
    /// The store event of this turn: a turn-granularity event keyed by
    /// `code-assistant:<uuid>`, with `{"sidechain": ..}` as metadata and no
    /// cost (priced from the model at query time).
    pub fn into_event(self) -> (r: NewEvent)
        ensures
            r.session_id@ == self.session_id@,
            r.ts@ == self.ts@,
            r.granularity == Granularity::Turn,
            opt_string_view(r.model) == opt_string_view(self.model),
            r.tokens_in == self.tokens_in,
            r.tokens_out == self.tokens_out,
            r.cache_read == self.cache_read,
            r.cache_write == self.cache_write,
            r.cost is None,
            opt_string_view(r.dedup_key) == Some(key_spec(self.uuid@)),
            r.meta matches Some(m) && sidechain_meta(m, self.is_sidechain),
    {
        let dedup = record_key(self.uuid.as_str());
        let mut members: Vec<JsonMember> = Vec::new();
        members.push(JsonMember { key: "sidechain".to_string(), value: JsonValue::Bool(self.is_sidechain) });
        let meta = JsonValue::Object(members);
        assert(sidechain_meta(meta, self.is_sidechain));
        NewEvent {
            dedup_key: Some(dedup),
            meta: Some(meta),
            session_id: self.session_id,
            ts: self.ts,
            granularity: Granularity::Turn,
            model: self.model,
            tokens_in: self.tokens_in,
            tokens_out: self.tokens_out,
            cache_read: self.cache_read,
            cache_write: self.cache_write,
            cost: None,
        }
    }
}

// ---------------------------------------------------------------------------
// Incremental ingestion
// ---------------------------------------------------------------------------

/// Where reading a transcript resumes: at the stored byte offset, or from
/// the start when the file shrank (truncated or replaced); `None` when
/// nothing new was written.
pub open spec fn resume_spec(stored: u64, len: u64) -> Option<u64> {
    let offset = if len < stored {
        0
    } else {
        stored
    };
    if len == offset {
        None
    } else {
        Some(offset)
    }
}

pub fn resume_offset(stored: u64, len: u64) -> (r: Option<u64>)
    ensures
        r == resume_spec(stored, len),
{
    let offset = if len < stored {
        0
    } else {
        stored
    };
    if len == offset {
        None
    } else {
        Some(offset)
    }
}

/// A complete transcript line: ends with `\n` and holds no other.
pub open spec fn is_line(l: Seq<u8>) -> bool {
    &&& l.len() > 0
    &&& l.last() == 10
    &&& forall|t: int| 0 <= t < l.len() - 1 ==> l[t] != 10
}

pub open spec fn no_newline(b: Seq<u8>) -> bool {
    forall|t: int| 0 <= t < b.len() ==> b[t] != 10
}

pub open spec fn line_views(ls: Seq<Vec<u8>>) -> Seq<Seq<u8>> {
    ls.map_values(|l: Vec<u8>| l@)
}

/// `ls` are the complete lines at the start of `buf`, `consumed` bytes in
/// all, and what follows holds no line end (a line still being written).
pub open spec fn splits_into(buf: Seq<u8>, ls: Seq<Seq<u8>>, consumed: int) -> bool {
    &&& 0 <= consumed <= buf.len()
    &&& forall|j: int| 0 <= j < ls.len() ==> is_line(#[trigger] ls[j])
    &&& buf.take(consumed) == ls.flatten_alt()
    &&& no_newline(buf.skip(consumed))
}

/// Cuts the bytes read from a transcript into its complete lines; a
/// partial trailing line (session still being written) is left for the
/// next pass.
pub fn complete_lines(buf: &Vec<u8>) -> (r: (Vec<Vec<u8>>, usize))
    ensures
        splits_into(buf@, line_views(r.0@), r.1 as int),
{
    let mut lines: Vec<Vec<u8>> = Vec::new();
    let mut start: usize = 0;
    let mut i: usize = 0;
    let mut cur: Vec<u8> = Vec::new();
    while i < buf.len()
        invariant
            start <= i <= buf@.len(),
            cur@ == buf@.subrange(start as int, i as int),
            no_newline(cur@),
            forall|j: int| 0 <= j < lines@.len() ==> is_line(#[trigger] line_views(lines@)[j]),
            buf@.take(start as int) == line_views(lines@).flatten_alt(),
        decreases buf.len() - i,
    {
        let b = buf[i];
        cur.push(b);
        i += 1;
        assert(buf@.subrange(start as int, i as int) == buf@.subrange(start as int, i - 1).push(b));
        if b == 10 {
            let ghost old_lines = line_views(lines@);
            let line = cur;
            cur = Vec::new();
            assert(is_line(line@));
            lines.push(line);
            assert(line_views(lines@) == old_lines.push(line@));
            assert(line_views(lines@).drop_last() == old_lines);
            assert(buf@.take(i as int) == buf@.take(start as int) + buf@.subrange(start as int, i as int));
            start = i;
            assert(cur@ == buf@.subrange(start as int, i as int));
        }
    }
    assert(buf@.skip(start as int) == cur@);
    (lines, start)
}

/// `String::from_utf8_lossy`: the text of a byte string, invalid UTF-8
/// sequences replaced by U+FFFD.
pub uninterp spec fn spec_utf8_lossy(bytes: Seq<u8>) -> Seq<char>;

/// `String::from_utf8_lossy` (owned). The contract names the result and
/// states that valid UTF-8 decodes to the characters it encodes.
#[verifier::external_body]
pub(crate) fn decode_lossy(bytes: &[u8]) -> (r: String)
    ensures
        r@ == spec_utf8_lossy(bytes@),
        forall|cs: Seq<char>| encode_utf8(cs) == bytes@ ==> r@ == cs,
{
    String::from_utf8_lossy(bytes).into_owned()
}

/// What one line of bytes yields.
pub open spec fn line_record_spec(l: Seq<u8>) -> ParsedModel {
    parse_line_spec(spec_utf8_lossy(l))
}

/// The records parsed from the complete lines of a chunk of transcript
/// bytes, and how many bytes those lines span.
pub struct IngestBatch {
    pub records: Vec<Parsed>,
    pub consumed: usize,
}

/// Parses the complete lines of a chunk read from a transcript: each line
/// is decoded (lossily) and parsed; the partial tail is not consumed.
pub fn parse_chunk(buf: &Vec<u8>) -> (r: IngestBatch)
    ensures
        exists|ls: Seq<Seq<u8>>|
            {
                &&& splits_into(buf@, ls, r.consumed as int)
                &&& r.records@.len() == ls.len()
                &&& forall|j: int|
                    0 <= j < ls.len() ==> (#[trigger] r.records@[j])@ == line_record_spec(ls[j])
            },
{
    let (lines, consumed) = complete_lines(buf);
    let mut records: Vec<Parsed> = Vec::new();
    let mut i: usize = 0;
    while i < lines.len()
        invariant
            i <= lines@.len(),
            records@.len() == i,
            forall|j: int|
                0 <= j < i ==> (#[trigger] records@[j])@ == line_record_spec(lines@[j]@),
        decreases lines.len() - i,
    {
        let text = decode_lossy(lines[i].as_slice());
        let p = parse_line(text.as_str());
        records.push(p);
        i += 1;
    }
    let ghost ls = line_views(lines@);
    assert(forall|j: int| 0 <= j < ls.len() ==> ls[j] == lines@[j]@);
    assert(forall|j: int|
        0 <= j < ls.len() ==> (#[trigger] records@[j])@ == line_record_spec(ls[j]));
    let r = IngestBatch { records, consumed };
    assert(splits_into(buf@, ls, r.consumed as int));
    r
}

impl IngestReport {
    /// Accounts one ingested line: a new turn adds an event, a line that
    /// yielded nothing counts as skipped.
    pub fn count_line(&mut self, parsed: &Parsed, event_added: bool)
        requires
            old(self).events_added < usize::MAX,
            old(self).lines_skipped < usize::MAX,
        ensures
            final(self).files_seen == old(self).files_seen,
            final(self).files_read == old(self).files_read,
            final(self).events_added == old(self).events_added + if event_added {
                1int
            } else {
                0int
            },
            final(self).lines_skipped == old(self).lines_skipped + if parsed.is_empty_spec() {
                1int
            } else {
                0int
            },
    {
        if event_added {
            self.events_added = self.events_added + 1;
        }
        if parsed.is_empty() {
            self.lines_skipped = self.lines_skipped + 1;
        }
    }
}

} // verus!
