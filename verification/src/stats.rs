//! Live statistics: messages, sessions and tool calls per day and messages per
//! hour, counted from the transcripts of all projects or from the history of
//! prompts.
use vstd::prelude::*;
use vstd::utf8::{encode_utf8, is_char_boundary, encode_utf8_decode_utf8};
use vstd::string::StringSliceAdditionalSpecFns;
use serde_json::Value;
use crate::calendar::{civil_from_days, date_string, day_text, four_digit_day, lemma_date_text_order};
use crate::keyed::{keys_distinct, has_key, seq_to_map, lemma_map_at, lemma_map_update, lemma_map_insert, lemma_map_push, lemma_map_len, lemma_map_empty};
use crate::text::{text_lt, str_lt, str_eq, lemma_text_order};
use crate::textset::TextSet;
use crate::transcript::{
    TranscriptEntry, EntryModel, is_message, message_date, date_cut_ok, assistant_blocks, tool_use_count,
    entry_is_turn, stamp_bytes,
};
use crate::json::{
    JsonTree, JsonModel, json_get, json_clone, json_parse, json_parse_result, json_accepts, json_document, json_value_get,
    json_member, member, text_of,
};
use crate::transcript::{string_member, opt_text};
use vstd::string::StringExecFns;
use crate::insights::{EntryOutcome, tool_uses_of, lemma_message_date, InsightsModel, with_message, with_project, refuses};

verus! {

/// Activity of one day.
pub struct LiveDailyActivity {
    pub date: String,
    pub message_count: u32,
    pub session_count: u32,
    pub tool_call_count: u32,
}

/// The number of messages sent in one hour of the day.
pub struct HourCount {
    pub hour: u32,
    pub count: u32,
}

/// A day's tool call count as the statistics cache records it.
pub struct CachedToolCount {
    pub date: String,
    pub tool_call_count: u32,
}

/// The live statistics.
pub struct LiveStats {
    pub daily_activity: Vec<LiveDailyActivity>,
    pub total_sessions: u32,
    pub total_messages: u32,
    pub first_session_date: String,
    pub last_session_date: String,
    pub hour_counts: Vec<HourCount>,
    pub model_usage: Option<Value>,
    pub daily_model_tokens: Option<Value>,
    pub longest_session: Option<Value>,
    pub last_computed_date: String,
}

/// The hour of the day (0 to 23) of the moment `secs` seconds after
/// 1970-01-01T00:00:00 UTC.
pub open spec fn hour_of_day(secs: int) -> u32 {
    ((secs % 86400) / 3600) as u32
}

/// The day of the moment `secs` seconds after 1970-01-01T00:00:00 UTC,
/// counted from 1970-01-01 (negative before it).
pub open spec fn day_of_moment(secs: int) -> int {
    secs / 86400
}

/// The moment `86400 * k + 3600 * h + r`, with `h` from 0 to 23 and `r`
/// from 0 to 3599, falls in hour `h` of day `k` (days counted from
/// 1970-01-01, negative before it).
pub proof fn lemma_hour_of_moment(k: int, h: int, r: int)
    requires
        0 <= h < 24,
        0 <= r < 3600,
    ensures
        hour_of_day(86400 * k + 3600 * h + r) == h,
        day_of_moment(86400 * k + 3600 * h + r) == k,
{
    let secs = 86400 * k + 3600 * h + r;
    vstd::arithmetic::div_mod::lemma_fundamental_div_mod_converse(secs, 86400, k, 3600 * h + r);
    vstd::arithmetic::div_mod::lemma_fundamental_div_mod_converse(3600 * h + r, 3600, h, r);
}

/// The UTC date (`YYYY-MM-DD`) and the hour of the moment `secs` seconds
/// after 1970-01-01T00:00:00.
pub fn chrono_lite_date(secs: i64) -> (r: (String, u32))
    ensures
        r.0@ == day_text(day_of_moment(secs as int)),
        r.1 == hour_of_day(secs as int),
        r.1 < 24,
{
    let days: i64 = match secs.checked_div_euclid(86400) {
        Some(d) => d,
        None => 0,
    };
    let rem: i64 = match secs.checked_rem_euclid(86400) {
        Some(x) => x,
        None => 0,
    };
    let hour: u32 = (rem / 3600) as u32;
    let (y, m, d) = civil_from_days(days);
    (date_string(y, m, d), hour)
}

/// `b` is the byte of an ASCII digit.
pub open spec fn is_digit_byte(b: u8) -> bool {
    48 <= b <= 57
}

/// Two bytes read as a `u32` the way `str::parse` reads them (two digits, or
/// `+` and a digit), or 0 when they are not a number.
pub open spec fn two_byte_number(b0: u8, b1: u8) -> u32 {
    if is_digit_byte(b0) && is_digit_byte(b1) {
        ((b0 - 48) * 10 + (b1 - 48)) as u32
    } else if b0 == 43 && is_digit_byte(b1) {
        (b1 - 48) as u32
    } else {
        0
    }
}

/// Two bytes are read as `str::parse::<u32>` reads them: two ASCII digits
/// give their decimal value (`14` gives 14), `+` and a digit give the digit,
/// and anything else gives 0.
pub proof fn lemma_two_byte_number(b0: u8, b1: u8)
    ensures
        48 <= b0 <= 57 && 48 <= b1 <= 57 ==> two_byte_number(b0, b1) == 10 * (b0 - 48) + (b1 - 48),
        b0 == 43 && 48 <= b1 <= 57 ==> two_byte_number(b0, b1) == b1 - 48,
        !(48 <= b0 <= 57 && 48 <= b1 <= 57) && !(b0 == 43 && 48 <= b1 <= 57) ==> two_byte_number(b0, b1) == 0,
        two_byte_number(b0, b1) < 100,
{
}

/// The hour of a message whose timestamp has ASCII digits at bytes 11 and
/// 12 (as in `2026-04-26T14:30:00Z`) is the number they write.
pub proof fn lemma_message_hour_digits(e: EntryModel)
    requires
        is_message(e),
        48 <= stamp_bytes(e)[11] <= 57,
        48 <= stamp_bytes(e)[12] <= 57,
    ensures
        message_hour(e) == 10 * (stamp_bytes(e)[11] - 48) + (stamp_bytes(e)[12] - 48),
{
    lemma_two_byte_number(stamp_bytes(e)[11], stamp_bytes(e)[12]);
}

/// The bytes 11 to 13 of the timestamp can be cut out as text.
pub open spec fn hour_cut_ok(e: EntryModel) -> bool {
    is_char_boundary(stamp_bytes(e), 11) && is_char_boundary(stamp_bytes(e), 13)
}

/// The hour of a message: bytes 11 and 12 of its timestamp read as a number.
pub open spec fn message_hour(e: EntryModel) -> u32 {
    two_byte_number(stamp_bytes(e)[11], stamp_bytes(e)[12])
}

/// The tool calls of a record, as `u32` (the count cast with `as u32`,
/// which keeps its low 32 bits).
pub open spec fn entry_tools(e: EntryModel) -> u32 {
    tool_use_count(assistant_blocks(e)) as u32
}

/// Counting transcript record `e` is refused: its date or hour cannot be cut
/// out of its timestamp (slicing the text there would panic), or a count
/// would exceed `u32::MAX`.
pub open spec fn transcript_refuses(m: LiveModel, e: EntryModel) -> bool {
    is_message(e) && (!date_cut_ok(e) || !hour_cut_ok(e) || live_refuses(m, message_date(e), entry_tools(e) as nat))
}

fn read_two_byte_number(b0: u8, b1: u8) -> (r: u32)
    ensures
        r == two_byte_number(b0, b1),
{
    if 48 <= b0 && b0 <= 57 && 48 <= b1 && b1 <= 57 {
        ((b0 - 48) as u32) * 10 + ((b1 - 48) as u32)
    } else if b0 == 43 && 48 <= b1 && b1 <= 57 {
        (b1 - 48) as u32
    } else {
        0
    }
}

/// The tool call count reported for day `date` with `own` tool calls: with
/// cached records, that of the day's last record where there is one; else
/// the day's own.
pub open spec fn reported_tool_calls(date: Seq<char>, own: nat, cached: Option<Seq<(Seq<char>, u32)>>) -> nat {
    match cached {
        Some(c) => match cached_count(c, date) {
            Some(x) => x as nat,
            None => own,
        },
        None => own,
    }
}

/// `r` lists the days of `days`, each once, in ascending order of date, with
/// their message and session counts, and with their tool call counts as
/// `reported_tool_calls` gives them for the cached records `cached`.
pub open spec fn is_daily_table(
    r: Seq<LiveDailyActivity>,
    days: Map<Seq<char>, DayModel>,
    cached: Option<Seq<(Seq<char>, u32)>>,
) -> bool {
    &&& forall|a: int, b: int| 0 <= a < b < r.len() ==> text_lt(r[a].date@, r[b].date@)
    &&& forall|a: int|
        0 <= a < r.len() ==> {
            &&& days.contains_key(#[trigger] r[a].date@)
            &&& r[a].message_count == days[r[a].date@].message_count
            &&& r[a].session_count == days[r[a].date@].sessions.len()
            &&& r[a].tool_call_count == reported_tool_calls(r[a].date@, days[r[a].date@].tool_call_count, cached)
        }
    &&& forall|d: Seq<char>| #[trigger] days.contains_key(d) ==> exists|a: int| 0 <= a < r.len() && #[trigger] r[a].date@ == d
}

/// The dates and tool call counts of optional cached records.
pub open spec fn opt_cached_pairs(cached: Option<&[CachedToolCount]>) -> Option<Seq<(Seq<char>, u32)>> {
    match cached {
        Some(c) => Some(cached_pairs(c@)),
        None => None,
    }
}

/// `r` lists the hours of `counts`, each once, with their counts.
pub open spec fn is_hour_table(r: Seq<HourCount>, counts: Map<u32, nat>) -> bool {
    &&& forall|a: int, b: int| 0 <= a < r.len() && 0 <= b < r.len() && a != b ==> r[a].hour != r[b].hour
    &&& forall|a: int| 0 <= a < r.len() ==> counts.contains_key(#[trigger] r[a].hour) && r[a].count == counts[r[a].hour]
    &&& forall|h: u32| #[trigger] counts.contains_key(h) ==> exists|a: int| 0 <= a < r.len() && #[trigger] r[a].hour == h
}

/// The dates and tool call counts of the cache's daily records.
pub open spec fn cached_pairs(cached: Seq<CachedToolCount>) -> Seq<(Seq<char>, u32)> {
    cached.map_values(|c: CachedToolCount| (c.date@, c.tool_call_count))
}

/// The tool call count that the last cached record of `date` gives.
pub open spec fn cached_count(cached: Seq<(Seq<char>, u32)>, date: Seq<char>) -> Option<u32>
    decreases cached.len(),
{
    if cached.len() == 0 {
        None
    } else if cached.last().0 == date {
        Some(cached.last().1)
    } else {
        cached_count(cached.drop_last(), date)
    }
}

proof fn lemma_same_messages(a: Seq<LiveDailyActivity>, b: Seq<LiveDailyActivity>)
    requires
        a.len() == b.len(),
        forall|i: int| 0 <= i < a.len() ==> (#[trigger] a[i]).message_count == b[i].message_count,
    ensures
        activity_messages(a) == activity_messages(b),
    decreases a.len(),
{
    if a.len() > 0 {
        let a2 = a.drop_last();
        let b2 = b.drop_last();
        assert forall|i: int| 0 <= i < a2.len() implies (#[trigger] a2[i]).message_count == b2[i].message_count by {
            assert(a2[i] == a[i] && b2[i] == b[i]);
        }
        lemma_same_messages(a2, b2);
        assert(a.last() == a[a.len() - 1]);
    }
}

/// Takes each day's tool call count from the cache where it has a record of
/// the day (the last such record); other days keep theirs.
#[verifier::spinoff_prover]
pub fn merge_cached_tool_calls(activity: &mut Vec<LiveDailyActivity>, cached: &[CachedToolCount])
    ensures
        final(activity)@.len() == old(activity)@.len(),
        forall|a: int|
            0 <= a < final(activity)@.len() ==> {
                &&& (#[trigger] final(activity)@[a]).date == old(activity)@[a].date
                &&& final(activity)@[a].message_count == old(activity)@[a].message_count
                &&& final(activity)@[a].session_count == old(activity)@[a].session_count
                &&& final(activity)@[a].tool_call_count == match cached_count(cached_pairs(cached@), old(activity)@[a].date@) {
                    Some(c) => c,
                    None => old(activity)@[a].tool_call_count,
                }
            },
{
    let ghost cp = cached_pairs(cached@);
    let mut i: usize = 0;
    while i < activity.len()
        invariant
            i <= activity@.len(),
            activity@.len() == old(activity)@.len(),
            cp == cached_pairs(cached@),
            forall|a: int|
                0 <= a < activity@.len() ==> {
                    &&& (#[trigger] activity@[a]).date == old(activity)@[a].date
                    &&& activity@[a].message_count == old(activity)@[a].message_count
                    &&& activity@[a].session_count == old(activity)@[a].session_count
                    &&& activity@[a].tool_call_count == if a < i {
                        match cached_count(cp, old(activity)@[a].date@) {
                            Some(c) => c,
                            None => old(activity)@[a].tool_call_count,
                        }
                    } else {
                        old(activity)@[a].tool_call_count
                    }
                },
        decreases activity@.len() - i,
    {
        let mut k: usize = cached.len();
        let mut found: Option<u32> = None;
        assert(cp.take(k as int) =~= cp);
        while k > 0
            invariant_except_break
                found is None,
                cached_count(cp, activity@[i as int].date@) == cached_count(cp.take(k as int), activity@[i as int].date@),
                k == 0 ==> cp.take(k as int) =~= Seq::<(Seq<char>, u32)>::empty(),
            invariant
                k <= cached@.len(),
                cp == cached_pairs(cached@),
                i < activity@.len(),
            ensures
                found == cached_count(cp, activity@[i as int].date@),
            decreases k,
        {
            assert(cp.take(k as int).drop_last() =~= cp.take(k - 1));
            assert(cp.take(k as int).last() == cp[k - 1]);
            if str_eq(cached[k - 1].date.as_str(), activity[i].date.as_str()) {
                found = Some(cached[k - 1].tool_call_count);
                break;
            }
            k = k - 1;
        }

        if let Some(c) = found {
            let old_row = activity.remove(i);
            let row = LiveDailyActivity {
                date: old_row.date,
                message_count: old_row.message_count,
                session_count: old_row.session_count,
                tool_call_count: c,
            };
            activity.insert(i, row);
        }
        i = i + 1;
    }
}

/// The text `dailyActivity`.
pub open spec fn daily_activity_key() -> Seq<char> {
    seq!['d', 'a', 'i', 'l', 'y', 'A', 'c', 't', 'i', 'v', 'i', 't', 'y']
}

/// The text `date`.
pub open spec fn date_key() -> Seq<char> {
    seq!['d', 'a', 't', 'e']
}

/// The text `toolCallCount`.
pub open spec fn tool_call_count_key() -> Seq<char> {
    seq!['t', 'o', 'o', 'l', 'C', 'a', 'l', 'l', 'C', 'o', 'u', 'n', 't']
}

/// The date and tool call count of a daily record of the cache: its `date`,
/// where that is a string, and its `toolCallCount`, where that is a
/// non-negative integer (cast with `as u32`).
pub open spec fn daily_record(d: JsonModel) -> Option<(Seq<char>, u32)> {
    match string_member(d, date_key()) {
        Some(date) => match json_member(d, tool_call_count_key()) {
            Some(JsonModel::Number(Some(c))) => Some((date, c as u32)),
            _ => None,
        },
        None => None,
    }
}

/// The dates and tool call counts of those of `items` that have both, in
/// order.
pub open spec fn daily_records(items: Seq<JsonModel>) -> Seq<(Seq<char>, u32)>
    decreases items.len(),
{
    if items.len() == 0 {
        Seq::empty()
    } else {
        let rest = daily_records(items.drop_last());
        match daily_record(items.last()) {
            Some(p) => rest.push(p),
            None => rest,
        }
    }
}

/// The daily tool call records of the statistics cache with the text
/// `content`: those of its `dailyActivity` array (none when the text is not
/// a JSON document or has no such array).
pub open spec fn cache_tool_records(content: Seq<char>) -> Seq<(Seq<char>, u32)> {
    match json_parse_result(content) {
        Ok(d) => match json_member(d.1, daily_activity_key()) {
            Some(JsonModel::Array(items)) => daily_records(items),
            _ => Seq::empty(),
        },
        Err(_) => Seq::empty(),
    }
}

/// The days' tool call counts that the statistics cache with the text
/// `content` records (`cache_tool_records`).
pub fn cached_tool_calls(content: &str) -> (r: Vec<CachedToolCount>)
    ensures
        cached_pairs(r@) == cache_tool_records(content@),
{
    let daily_name = "dailyActivity";
    let date_name = "date";
    let count_name = "toolCallCount";
    proof {
        reveal_strlit("dailyActivity");
        reveal_strlit("date");
        reveal_strlit("toolCallCount");
        assert(daily_name@ =~= daily_activity_key());
        assert(date_name@ =~= date_key());
        assert(count_name@ =~= tool_call_count_key());
    }
    let mut out: Vec<CachedToolCount> = Vec::new();
    assert(cached_pairs(out@) =~= Seq::<(Seq<char>, u32)>::empty());
    match json_parse(content) {
        Ok(d) => {
            if let Some(daily) = member(&d.1, daily_name) {
                if let JsonTree::Array(items) = daily {
                    let ghost ms = daily@->Array_0;
                    let mut i: usize = 0;
                    assert(ms.take(0) =~= Seq::<JsonModel>::empty());
                    while i < items.len()
                        invariant
                            i <= items@.len(),
                            ms == daily@->Array_0,
                            ms.len() == items@.len(),
                            forall|j: int| 0 <= j < ms.len() ==> #[trigger] ms[j] == items@[j]@,
                            date_name@ == date_key(),
                            count_name@ == tool_call_count_key(),
                            cached_pairs(out@) == daily_records(ms.take(i as int)),
                        decreases items@.len() - i,
                    {
                        let item = &items[i];
                        let ghost before = out@;
                        proof {
                            assert(ms[i as int] == item@);
                            assert(ms.take(i + 1).drop_last() =~= ms.take(i as int));
                            assert(ms.take(i + 1).last() == item@);
                        }
                        if let Some(date) = text_of(member(item, date_name)) {
                            if let Some(count_value) = member(item, count_name) {
                                if let JsonTree::Number(Some(count)) = count_value {
                                    out.push(CachedToolCount { date, tool_call_count: *count as u32 });
                                    assert(cached_pairs(out@) =~= cached_pairs(before).push(
                                        (out@[out@.len() - 1].date@, out@[out@.len() - 1].tool_call_count),
                                    ));
                                }
                            }
                        }
                        i = i + 1;
                    }
                    assert(ms.take(i as int) =~= ms);
                }
            }
        },
        Err(_) => {},
    }
    out
}

/// The text `sessionId`.
pub open spec fn session_id_key() -> Seq<char> {
    seq!['s', 'e', 's', 's', 'i', 'o', 'n', 'I', 'd']
}

/// The session of a line of the history: `None` when the line is not a JSON
/// document, else its `sessionId` where that is a string, and the empty text
/// where it is not.
pub open spec fn history_session_of(line: Seq<char>) -> Option<Seq<char>> {
    match json_parse_result(line) {
        Ok(d) => Some(
            match string_member(d.1, session_id_key()) {
                Some(id) => id,
                None => Seq::empty(),
            },
        ),
        Err(_) => None,
    }
}

/// The session of a line of the history (`history_session_of`).
pub fn history_session(line: &str) -> (r: Option<String>)
    ensures
        opt_text(r) == history_session_of(line@),
{
    let key = "sessionId";
    proof {
        reveal_strlit("sessionId");
        assert(key@ =~= session_id_key());
    }
    match json_parse(line) {
        Ok(d) => match text_of(member(&d.1, key)) {
            Some(id) => Some(id),
            None => Some(String::new()),
        },
        Err(_) => None,
    }
}

/// The text `failed to parse stats: `.
pub open spec fn parse_failure_prefix() -> Seq<char> {
    seq!['f', 'a', 'i', 'l', 'e', 'd', ' ', 't', 'o', ' ', 'p', 'a', 'r', 's', 'e', ' ', 's', 't', 'a', 't', 's', ':', ' ']
}

/// Reads the statistics cache: its JSON document, or the message
/// `failed to parse stats: ` followed by the parser's message when `content`
/// is not one JSON document.
pub fn parse_stats_cache(content: &str) -> (r: Result<Value, String>)
    ensures
        r is Ok <==> json_accepts(content@),
        r is Ok ==> r->Ok_0 == json_document(content@),
        r matches Err(msg) ==> msg@ == parse_failure_prefix() + json_parse_result(content@)->Err_0,
{
    match json_parse(content) {
        Ok(d) => Ok(d.0),
        Err(detail) => {
            let prefix = "failed to parse stats: ";
            proof {
                reveal_strlit("failed to parse stats: ");
                assert(prefix@ =~= parse_failure_prefix());
            }
            let mut msg = String::from_str(prefix);
            msg.append(detail.as_str());
            Err(msg)
        },
    }
}

/// The text `modelUsage`.
pub open spec fn model_usage_key() -> Seq<char> {
    seq!['m', 'o', 'd', 'e', 'l', 'U', 's', 'a', 'g', 'e']
}

/// The text `dailyModelTokens`.
pub open spec fn daily_model_tokens_key() -> Seq<char> {
    seq!['d', 'a', 'i', 'l', 'y', 'M', 'o', 'd', 'e', 'l', 'T', 'o', 'k', 'e', 'n', 's']
}

/// The text `longestSession`.
pub open spec fn longest_session_key() -> Seq<char> {
    seq!['l', 'o', 'n', 'g', 'e', 's', 't', 'S', 'e', 's', 's', 'i', 'o', 'n']
}

/// The member `key` of the cache, where there is a cache.
pub open spec fn cache_member_of(cache: Option<&Value>, key: Seq<char>) -> Option<Value> {
    match cache {
        Some(c) => json_value_get(*c, key),
        None => None,
    }
}

/// The member `key` of the cache, copied.
fn cache_member(cache: Option<&Value>, key: &str) -> (r: Option<Value>)
    ensures
        r == cache_member_of(cache, key@),
{
    match cache {
        Some(c) => match json_get(c, key) {
            Some(v) => Some(json_clone(v)),
            None => None,
        },
        None => None,
    }
}

/// What the statistics hold of one day.
pub struct DayModel {
    pub message_count: nat,
    pub sessions: Set<Seq<char>>,
    pub tool_call_count: nat,
}

/// What the live statistics hold while messages are counted.
pub struct LiveModel {
    pub days: Map<Seq<char>, DayModel>,
    pub hour_counts: Map<u32, nat>,
    pub sessions: Set<Seq<char>>,
    pub total_messages: nat,
    /// The number of tool calls counted, over all days.
    pub total_tool_calls: nat,
    /// The earliest date, or empty before the first message.
    pub first_date: Seq<char>,
    /// The latest date, or empty before the first message.
    pub last_date: Seq<char>,
}

/// A day without activity yet.
pub open spec fn empty_day() -> DayModel {
    DayModel { message_count: 0, sessions: Set::empty(), tool_call_count: 0 }
}

/// The record of `date` (a day without activity when it has none).
pub open spec fn day_of(m: LiveModel, date: Seq<char>) -> DayModel {
    if m.days.contains_key(date) { m.days[date] } else { empty_day() }
}

/// The count of hour `hour` (0 when it has none).
pub open spec fn hour_count(m: LiveModel, hour: u32) -> nat {
    if m.hour_counts.contains_key(hour) { m.hour_counts[hour] } else { 0 }
}

/// The statistics after one more message of `session` on `date` at `hour`
/// with `tools` tool calls.
pub open spec fn with_live_message(m: LiveModel, date: Seq<char>, hour: u32, session: Seq<char>, tools: nat) -> LiveModel {
    let day = day_of(m, date);
    LiveModel {
        days: m.days.insert(
            date,
            DayModel {
                message_count: day.message_count + 1,
                sessions: day.sessions.insert(session),
                tool_call_count: day.tool_call_count + tools,
            },
        ),
        hour_counts: m.hour_counts.insert(hour, hour_count(m, hour) + 1),
        sessions: m.sessions.insert(session),
        total_messages: m.total_messages + 1,
        total_tool_calls: m.total_tool_calls + tools,
        first_date: if m.first_date.len() == 0 || text_lt(date, m.first_date) { date } else { m.first_date },
        last_date: if m.last_date.len() == 0 || text_lt(m.last_date, date) { date } else { m.last_date },
    }
}

/// A message with `tools` tool calls on `date` cannot be counted: a count
/// would exceed `u32::MAX`.
pub open spec fn live_refuses(m: LiveModel, date: Seq<char>, tools: nat) -> bool {
    m.total_messages + 1 > u32::MAX || day_of(m, date).tool_call_count + tools > u32::MAX
}

/// The sessions are those of the days: each session of the statistics is a
/// session of some day, and each session of a day is one of the statistics.
#[verifier::opaque]
pub open spec fn sessions_are_union_of_days(m: LiveModel) -> bool {
    &&& forall|s: Seq<char>| #[trigger] m.sessions.contains(s) ==> exists|d: Seq<char>|
        m.days.contains_key(d) && #[trigger] m.days[d].sessions.contains(s)
    &&& forall|d: Seq<char>, s: Seq<char>| m.days.contains_key(d) && #[trigger] m.days[d].sessions.contains(s) ==> m.sessions.contains(s)
}

/// What holds of the live statistics at every step.
pub open spec fn live_invariant(m: LiveModel) -> bool {
    &&& m.total_messages <= u32::MAX
    &&& m.sessions.finite() && m.sessions.len() <= m.total_messages
    &&& forall|d: Seq<char>| #[trigger] m.days.contains_key(d) ==> {
        &&& d.len() > 0
        &&& m.days[d].message_count <= m.total_messages
        &&& m.days[d].sessions.finite()
        &&& !m.days[d].sessions.is_empty()
        &&& m.days[d].sessions.len() <= m.days[d].message_count
        &&& m.days[d].tool_call_count <= u32::MAX
    }
    &&& sessions_are_union_of_days(m)
    &&& forall|h: u32| #[trigger] m.hour_counts.contains_key(h) ==> m.hour_counts[h] <= m.total_messages
    &&& (m.days.dom().is_empty() <==> m.first_date.len() == 0)
    &&& (m.days.dom().is_empty() <==> m.last_date.len() == 0)
    &&& !m.days.dom().is_empty() ==> m.days.contains_key(m.first_date) && m.days.contains_key(m.last_date)
    &&& forall|d: Seq<char>| #[trigger] m.days.contains_key(d) ==> !text_lt(d, m.first_date) && !text_lt(m.last_date, d)
}

/// Counting a message keeps the sessions the union of the days' sessions.
proof fn lemma_sessions_union_step(m: LiveModel, date: Seq<char>, hour: u32, session: Seq<char>, tools: nat)
    requires
        sessions_are_union_of_days(m),
    ensures
        sessions_are_union_of_days(with_live_message(m, date, hour, session, tools)),
{
    let r = with_live_message(m, date, hour, session, tools);
    reveal(sessions_are_union_of_days);
    assert forall|x: Seq<char>| #[trigger] r.sessions.contains(x) implies exists|d: Seq<char>|
        r.days.contains_key(d) && #[trigger] r.days[d].sessions.contains(x) by {
        if x == session {
            assert(r.days.contains_key(date) && r.days[date].sessions.contains(x));
        } else {
            let d = choose|d: Seq<char>| m.days.contains_key(d) && #[trigger] m.days[d].sessions.contains(x);
            assert(r.days.contains_key(d) && r.days[d].sessions.contains(x));
        }
    }
    assert forall|d: Seq<char>, x: Seq<char>| r.days.contains_key(d) && #[trigger] r.days[d].sessions.contains(x) implies r.sessions.contains(x) by {
        if d != date || x != session {
            if d == date && m.days.contains_key(date) {
                assert(m.days[d].sessions.contains(x));
            } else if d != date {
                assert(m.days[d].sessions.contains(x));
            }
        }
    }
}

/// Counting a message keeps the invariant.
pub proof fn lemma_live_message_invariant(m: LiveModel, date: Seq<char>, hour: u32, session: Seq<char>, tools: nat)
    requires
        live_invariant(m),
        date.len() > 0,
        !live_refuses(m, date, tools),
    ensures
        live_invariant(with_live_message(m, date, hour, session, tools)),
{
    let r = with_live_message(m, date, hour, session, tools);
    assert forall|d: Seq<char>| #[trigger] r.days.contains_key(d) implies !text_lt(d, r.first_date) && !text_lt(r.last_date, d) by {
        lemma_text_order(d, date, m.first_date);
        lemma_text_order(m.last_date, date, d);
        lemma_text_order(date, m.first_date, d);
        lemma_text_order(d, m.last_date, date);
        if m.days.contains_key(d) {
            assert(!text_lt(d, m.first_date) && !text_lt(m.last_date, d));
        }
    }
    assert forall|d: Seq<char>| #[trigger] r.days.contains_key(d) implies {
        &&& d.len() > 0
        &&& r.days[d].message_count <= r.total_messages
        &&& r.days[d].sessions.finite()
        &&& !r.days[d].sessions.is_empty()
        &&& r.days[d].sessions.len() <= r.days[d].message_count
        &&& r.days[d].tool_call_count <= u32::MAX
    } by {
        if d != date {
            assert(m.days.contains_key(d));
        } else {
            assert(r.days[d].sessions.contains(session));
        }
    }
    lemma_sessions_union_step(m, date, hour, session, tools);
    assert(r.days.contains_key(date));
    assert(!r.days.dom().is_empty());
}

/// Days listed in ascending order of their dates are in the order of the
/// calendar when those dates are the texts of days with four-digit years.
pub proof fn lemma_daily_table_chronological(
    r: Seq<LiveDailyActivity>,
    days: Map<Seq<char>, DayModel>,
    cached: Option<Seq<(Seq<char>, u32)>>,
    n: Seq<int>,
)
    requires
        is_daily_table(r, days, cached),
        n.len() == r.len(),
        forall|a: int| 0 <= a < r.len() ==> four_digit_day(#[trigger] n[a]) && r[a].date@ == day_text(n[a]),
    ensures
        forall|a: int, b: int| 0 <= a < b < r.len() ==> n[a] < n[b],
{
    assert forall|a: int, b: int| 0 <= a < b < r.len() implies n[a] < n[b] by {
        assert(four_digit_day(n[a]) && four_digit_day(n[b]));
        lemma_date_text_order(n[a], n[b]);
    }
}

/// When every counted date is the text of a day with a four-digit year, the
/// first date is that of the earliest such day and the last date that of the
/// latest.
pub proof fn lemma_first_last_chronological(m: LiveModel)
    requires
        live_invariant(m),
        !m.days.dom().is_empty(),
        forall|d: Seq<char>| #[trigger] m.days.contains_key(d) ==> exists|n: int| four_digit_day(n) && d == #[trigger] day_text(n),
    ensures
        exists|d1: int, d2: int|
            {
                &&& four_digit_day(d1) && m.first_date == day_text(d1)
                &&& four_digit_day(d2) && m.last_date == day_text(d2)
                &&& forall|n: int| four_digit_day(n) && #[trigger] m.days.contains_key(day_text(n)) ==> d1 <= n && n <= d2
            },
{
    assert(m.days.contains_key(m.first_date) && m.days.contains_key(m.last_date));
    let d1 = choose|n: int| four_digit_day(n) && m.first_date == #[trigger] day_text(n);
    let d2 = choose|n: int| four_digit_day(n) && m.last_date == #[trigger] day_text(n);
    assert forall|n: int| four_digit_day(n) && #[trigger] m.days.contains_key(day_text(n)) implies d1 <= n && n <= d2 by {
        lemma_date_text_order(n, d1);
        lemma_date_text_order(d2, n);
    }
}

/// The insights and the live statistics agree: the same number of messages
/// and of tool calls, the same sessions, the same days of activity, and the
/// same first and last dates.
pub open spec fn counts_agree(i: InsightsModel, l: LiveModel) -> bool {
    &&& i.total_messages == l.total_messages
    &&& i.total_tool_calls == l.total_tool_calls
    &&& i.sessions == l.sessions
    &&& i.active_days == l.days.dom()
    &&& i.first_date == l.first_date
    &&& i.last_date == l.last_date
}

/// Insights and live statistics without any message agree.
pub proof fn lemma_counts_agree_empty(i: InsightsModel, l: LiveModel)
    requires
        i.total_messages == 0,
        i.total_tool_calls == 0,
        i.sessions.is_empty(),
        i.active_days.is_empty(),
        i.first_date.len() == 0,
        i.last_date.len() == 0,
        l.days.is_empty(),
        l.sessions.is_empty(),
        l.total_messages == 0,
        l.total_tool_calls == 0,
        l.first_date.len() == 0,
        l.last_date.len() == 0,
    ensures
        counts_agree(i, l),
{
    assert(i.sessions =~= l.sessions);
    assert(i.active_days =~= l.days.dom());
    assert(i.first_date =~= l.first_date);
    assert(i.last_date =~= l.last_date);
}

/// Counting the same transcript record of the same session in the insights
/// and in the live statistics keeps them in agreement.
pub proof fn lemma_counts_agree_step(i: InsightsModel, l: LiveModel, slug: Seq<char>, session: Seq<char>, e: EntryModel)
    requires
        counts_agree(i, l),
        is_message(e),
        !refuses(i, slug, e),
        !transcript_refuses(l, e),
    ensures
        counts_agree(
            with_message(i, slug, session, e),
            with_live_message(l, message_date(e), message_hour(e), session, entry_tools(e) as nat),
        ),
{
    let i2 = with_message(i, slug, session, e);
    let l2 = with_live_message(l, message_date(e), message_hour(e), session, entry_tools(e) as nat);
    assert(with_project(i, slug).first_date == i.first_date);
    assert(i2.sessions =~= l2.sessions);
    assert(i2.active_days =~= l2.days.dom());
}

/// The dates go up strictly.
pub open spec fn dates_ascending(s: Seq<(Seq<char>, DayModel)>) -> bool {
    forall|i: int, j: int| 0 <= i < j < s.len() ==> text_lt(s[i].0, s[j].0)
}

proof fn lemma_ascending_distinct(s: Seq<(Seq<char>, DayModel)>)
    requires
        dates_ascending(s),
    ensures
        keys_distinct(s),
{
    assert forall|i: int, j: int| 0 <= i < s.len() && 0 <= j < s.len() && i != j implies s[i].0 != s[j].0 by {
        lemma_text_order(s[i].0, s[j].0, s[i].0);
    }
}

proof fn lemma_ascending_insert(s: Seq<(Seq<char>, DayModel)>, p: int, x: (Seq<char>, DayModel))
    requires
        dates_ascending(s),
        0 <= p <= s.len(),
        forall|i: int| 0 <= i < p ==> text_lt(#[trigger] s[i].0, x.0),
        forall|i: int| p <= i < s.len() ==> text_lt(x.0, #[trigger] s[i].0),
    ensures
        dates_ascending(s.insert(p, x)),
        !has_key(s, x.0),
{
    let t = s.insert(p, x);
    assert forall|i: int, j: int| 0 <= i < j < t.len() implies text_lt(t[i].0, t[j].0) by {
        if j < p {
        } else if j == p {
        } else if i < p {
            assert(t[j] == s[j - 1]);
            lemma_text_order(s[i].0, x.0, s[j - 1].0);
        } else if i == p {
            assert(t[j] == s[j - 1]);
        } else {
            assert(t[j] == s[j - 1]);
            assert(t[i] == s[i - 1]);
        }
    }
    if has_key(s, x.0) {
        let k = choose|k: int| 0 <= k < s.len() && s[k].0 == x.0;
        lemma_text_order(x.0, x.0, x.0);
    }
}

/// One day while messages are counted.
struct DayAcc {
    date: String,
    message_count: u32,
    sessions: TextSet,
    tool_call_count: u32,
}

spec fn day_view(d: DayAcc) -> (Seq<char>, DayModel) {
    (d.date@, DayModel {
        message_count: d.message_count as nat,
        sessions: d.sessions@,
        tool_call_count: d.tool_call_count as nat,
    })
}

spec fn hour_view(h: (u32, u32)) -> (u32, nat) {
    (h.0, h.1 as nat)
}

spec fn hour_seq_of(hours: Seq<(u32, u32)>) -> Seq<(u32, nat)> {
    hours.map_values(|h: (u32, u32)| hour_view(h))
}

spec fn day_seq_of(days: Seq<DayAcc>) -> Seq<(Seq<char>, DayModel)> {
    days.map_values(|d: DayAcc| day_view(d))
}

spec fn days_wf(days: Seq<DayAcc>) -> bool {
    &&& forall|i: int| 0 <= i < days.len() ==> (#[trigger] days[i]).sessions.wf()
    &&& dates_ascending(day_seq_of(days))
}

/// The day after one more message of `session` with `tools` tool calls.
pub open spec fn day_after(day: DayModel, session: Seq<char>, tools: nat) -> DayModel {
    DayModel {
        message_count: day.message_count + 1,
        sessions: day.sessions.insert(session),
        tool_call_count: day.tool_call_count + tools,
    }
}

spec fn day_total(s: Seq<(Seq<char>, DayModel)>) -> nat
    decreases s.len(),
{
    if s.len() == 0 {
        0
    } else {
        day_total(s.drop_last()) + s.last().1.message_count
    }
}

spec fn day_tool_total(s: Seq<(Seq<char>, DayModel)>) -> nat
    decreases s.len(),
{
    if s.len() == 0 {
        0
    } else {
        day_tool_total(s.drop_last()) + s.last().1.tool_call_count
    }
}

spec fn hour_total(s: Seq<(u32, nat)>) -> nat
    decreases s.len(),
{
    if s.len() == 0 {
        0
    } else {
        hour_total(s.drop_last()) + s.last().1
    }
}

proof fn lemma_day_total_update(s: Seq<(Seq<char>, DayModel)>, i: int, x: (Seq<char>, DayModel))
    requires
        0 <= i < s.len(),
    ensures
        day_total(s.update(i, x)) + s[i].1.message_count == day_total(s) + x.1.message_count,
        day_tool_total(s.update(i, x)) + s[i].1.tool_call_count == day_tool_total(s) + x.1.tool_call_count,
    decreases s.len(),
{
    if i == s.len() - 1 {
        assert(s.update(i, x).drop_last() =~= s.drop_last());
    } else {
        lemma_day_total_update(s.drop_last(), i, x);
        assert(s.update(i, x).drop_last() =~= s.drop_last().update(i, x));
    }
}

proof fn lemma_day_total_insert(s: Seq<(Seq<char>, DayModel)>, p: int, x: (Seq<char>, DayModel))
    requires
        0 <= p <= s.len(),
    ensures
        day_total(s.insert(p, x)) == day_total(s) + x.1.message_count,
        day_tool_total(s.insert(p, x)) == day_tool_total(s) + x.1.tool_call_count,
    decreases s.len(),
{
    if p == s.len() {
        assert(s.insert(p, x).drop_last() =~= s);
    } else {
        lemma_day_total_insert(s.drop_last(), p, x);
        assert(s.insert(p, x).drop_last() =~= s.drop_last().insert(p, x));
        assert(s.insert(p, x).last() == s.last());
    }
}

proof fn lemma_hour_total_update(s: Seq<(u32, nat)>, i: int, x: (u32, nat))
    requires
        0 <= i < s.len(),
    ensures
        hour_total(s.update(i, x)) + s[i].1 == hour_total(s) + x.1,
    decreases s.len(),
{
    if i == s.len() - 1 {
        assert(s.update(i, x).drop_last() =~= s.drop_last());
    } else {
        lemma_hour_total_update(s.drop_last(), i, x);
        assert(s.update(i, x).drop_last() =~= s.drop_last().update(i, x));
    }
}

/// The days' message counts add up to this.
pub open spec fn activity_messages(r: Seq<LiveDailyActivity>) -> nat
    decreases r.len(),
{
    if r.len() == 0 {
        0
    } else {
        activity_messages(r.drop_last()) + r.last().message_count as nat
    }
}

/// The days' tool call counts add up to this.
pub open spec fn activity_tools(r: Seq<LiveDailyActivity>) -> nat
    decreases r.len(),
{
    if r.len() == 0 {
        0
    } else {
        activity_tools(r.drop_last()) + r.last().tool_call_count as nat
    }
}

/// The hours' counts add up to this.
pub open spec fn hour_messages(r: Seq<HourCount>) -> nat
    decreases r.len(),
{
    if r.len() == 0 {
        0
    } else {
        hour_messages(r.drop_last()) + r.last().count as nat
    }
}

#[verifier::spinoff_prover]
fn count_day(days: &mut Vec<DayAcc>, date: &str, session: &str, tools: u32) -> (r: bool)
    requires
        days_wf(old(days)@),
        ({
            let m = seq_to_map(day_seq_of(old(days)@));
            m.contains_key(date@) ==> m[date@].message_count < u32::MAX
        }),
    ensures
        days_wf(final(days)@),
        ({
            let m = seq_to_map(day_seq_of(old(days)@));
            let day = if m.contains_key(date@) { m[date@] } else { empty_day() };
            &&& r == (day.tool_call_count + tools <= u32::MAX)
            &&& r ==> seq_to_map(day_seq_of(final(days)@)) == m.insert(date@, day_after(day, session@, tools as nat))
            &&& r ==> day_total(day_seq_of(final(days)@)) == day_total(day_seq_of(old(days)@)) + 1
            &&& r ==> day_tool_total(day_seq_of(final(days)@)) == day_tool_total(day_seq_of(old(days)@)) + tools
            &&& !r ==> final(days)@ == old(days)@
        }),
{
    let ghost s0 = day_seq_of(days@);
    proof {
        lemma_ascending_distinct(s0);
    }
    let mut p: usize = 0;
    while p < days.len() && str_lt(days[p].date.as_str(), date)
        invariant
            p <= days@.len(),
            s0 == day_seq_of(days@),
            forall|i: int| 0 <= i < p ==> text_lt(#[trigger] s0[i].0, date@),
        decreases days@.len() - p,
    {
        p = p + 1;
    }
    if p < days.len() && str_eq(days[p].date.as_str(), date) {
        proof {
            lemma_map_at(s0, p as int);
        }
        if tools > 4294967295 - days[p].tool_call_count {
            return false;
        }
        let mut d = days.remove(p);
        d.message_count = d.message_count + 1;
        d.tool_call_count = d.tool_call_count + tools;
        d.sessions.insert(session);
        let ghost dv = day_view(d);
        days.insert(p, d);
        proof {
            assert(day_seq_of(days@) =~= s0.update(p as int, (s0[p as int].0, dv.1)));
            lemma_map_update(s0, p as int, dv.1);
            lemma_day_total_update(s0, p as int, (s0[p as int].0, dv.1));
            assert forall|i: int, j: int| 0 <= i < j < day_seq_of(days@).len() implies text_lt(day_seq_of(days@)[i].0, day_seq_of(days@)[j].0) by {
                assert(day_seq_of(days@)[i].0 == s0[i].0);
                assert(day_seq_of(days@)[j].0 == s0[j].0);
            }
        }
        true
    } else {
        proof {
            assert forall|i: int| p <= i < s0.len() implies text_lt(date@, #[trigger] s0[i].0) by {
                lemma_text_order(s0[p as int].0, date@, s0[p as int].0);
                lemma_text_order(date@, s0[p as int].0, s0[i].0);
            }
            if has_key(s0, date@) {
                let k = choose|k: int| 0 <= k < s0.len() && s0[k].0 == date@;
                lemma_text_order(date@, date@, date@);
                assert(text_lt(s0[k].0, date@) || text_lt(date@, s0[k].0));
            }
        }
        let mut sessions = TextSet::new();
        sessions.insert(session);
        let d = DayAcc { date: date.to_owned(), message_count: 1, sessions, tool_call_count: tools };
        let ghost dv = day_view(d);
        days.insert(p, d);
        proof {
            assert(day_seq_of(days@) =~= s0.insert(p as int, dv));
            lemma_ascending_insert(s0, p as int, dv);
            lemma_map_insert(s0, p as int, dv.0, dv.1);
            lemma_day_total_insert(s0, p as int, dv);
            assert(dv.1 == day_after(empty_day(), session@, tools as nat));
        }
        true
    }
}

fn count_hour(hours: &mut Vec<(u32, u32)>, hour: u32)
    requires
        keys_distinct(hour_seq_of(old(hours)@)),
        ({
            let m = seq_to_map(hour_seq_of(old(hours)@));
            m.contains_key(hour) ==> m[hour] < u32::MAX
        }),
    ensures
        keys_distinct(hour_seq_of(final(hours)@)),
        ({
            let m = seq_to_map(hour_seq_of(old(hours)@));
            seq_to_map(hour_seq_of(final(hours)@)) == m.insert(
                hour,
                (if m.contains_key(hour) { m[hour] } else { 0 }) + 1,
            )
        }),
        hour_total(hour_seq_of(final(hours)@)) == hour_total(hour_seq_of(old(hours)@)) + 1,
{
    let ghost s0 = hour_seq_of(hours@);
    let mut i: usize = 0;
    while i < hours.len()
        invariant
            i <= hours@.len(),
            s0 == hour_seq_of(hours@),
            hours@ == old(hours)@,
            keys_distinct(s0),
            seq_to_map(s0).contains_key(hour) ==> seq_to_map(s0)[hour] < u32::MAX,
            forall|j: int| 0 <= j < i ==> (#[trigger] s0[j]).0 != hour,
        decreases hours@.len() - i,
    {
        if hours[i].0 == hour {
            proof {
                lemma_map_at(s0, i as int);
            }
            let c = hours[i].1 + 1;
            hours.set(i, (hour, c));
            proof {
                assert(hour_seq_of(hours@) =~= s0.update(i as int, (hour, c as nat)));
                lemma_map_update(s0, i as int, c as nat);
                lemma_hour_total_update(s0, i as int, (hour, c as nat));
                assert(s0[i as int].0 == hour);
                assert(seq_to_map(s0)[hour] == s0[i as int].1);
                assert(c as nat == s0[i as int].1 + 1);

            }
            return;
        }
        i = i + 1;
    }
    hours.push((hour, 1));
    proof {
        assert(hour_seq_of(hours@) =~= s0.push((hour, 1nat)));
        lemma_map_push(s0, hour, 1nat);
        assert(hour_seq_of(hours@).drop_last() =~= s0);
    }
}

/// The live statistics while messages are counted.
pub struct LiveStatsAccumulator {
    days: Vec<DayAcc>,
    hours: Vec<(u32, u32)>,
    sessions: TextSet,
    total_messages: u32,
    first_date: String,
    last_date: String,
}

impl View for LiveStatsAccumulator {
    type V = LiveModel;

    closed spec fn view(&self) -> LiveModel {
        LiveModel {
            days: seq_to_map(day_seq_of(self.days@)),
            hour_counts: seq_to_map(hour_seq_of(self.hours@)),
            sessions: self.sessions@,
            total_messages: self.total_messages as nat,
            total_tool_calls: day_tool_total(day_seq_of(self.days@)),
            first_date: self.first_date@,
            last_date: self.last_date@,
        }
    }
}

impl LiveStatsAccumulator {
    spec fn day_seq(&self) -> Seq<(Seq<char>, DayModel)> {
        day_seq_of(self.days@)
    }

    spec fn hour_seq(&self) -> Seq<(u32, nat)> {
        hour_seq_of(self.hours@)
    }

    /// The accumulator is well formed, and its view keeps the invariant.
    pub closed spec fn wf(&self) -> bool {
        &&& self.sessions.wf()
        &&& forall|i: int| 0 <= i < self.days@.len() ==> (#[trigger] self.days@[i]).sessions.wf()
        &&& dates_ascending(self.day_seq())
        &&& keys_distinct(self.hour_seq())
        &&& day_total(self.day_seq()) == self.total_messages
        &&& hour_total(self.hour_seq()) == self.total_messages
        &&& live_invariant(self@)
    }

    /// What the accumulator holds keeps the invariant.
    pub proof fn lemma_invariant(&self)
        requires
            self.wf(),
        ensures
            live_invariant(self@),
    {
    }

    /// No message counted yet.
    pub fn new() -> (r: LiveStatsAccumulator)
        ensures
            r.wf(),
            r@.days.is_empty(),
            r@.hour_counts.is_empty(),
            r@.sessions.is_empty(),
            r@.total_messages == 0,
            r@.total_tool_calls == 0,
            r@.first_date.len() == 0,
            r@.last_date.len() == 0,
    {
        let r = LiveStatsAccumulator {
            days: Vec::new(),
            hours: Vec::new(),
            sessions: TextSet::new(),
            total_messages: 0,
            first_date: String::new(),
            last_date: String::new(),
        };
        proof {
            lemma_map_empty(r.day_seq());
            lemma_map_empty(r.hour_seq());
            reveal(sessions_are_union_of_days);
        }
        r
    }

    /// Counts one message of `session_id` on `date` at `hour` with `tools`
    /// tool calls. Refused (`false`, nothing changed) when a count would
    /// exceed `u32::MAX`.
    pub fn record_message(&mut self, date: &str, hour: u32, session_id: &str, tools: u32) -> (r: bool)
        requires
            old(self).wf(),
            date@.len() > 0,
        ensures
            final(self).wf(),
            r == !live_refuses(old(self)@, date@, tools as nat),
            r ==> final(self)@ == with_live_message(old(self)@, date@, hour, session_id@, tools as nat),
            !r ==> final(self)@ == old(self)@,
    {
        let ghost m0 = self@;
        if self.total_messages == 4294967295 {
            return false;
        }
        proof {
            if m0.days.contains_key(date@) {
                assert(m0.days[date@].message_count <= m0.total_messages);
            }
            if m0.hour_counts.contains_key(hour) {
                assert(m0.hour_counts[hour] <= m0.total_messages);
            }
        }
        if !count_day(&mut self.days, date, session_id, tools) {
            return false;
        }
        count_hour(&mut self.hours, hour);
        self.sessions.insert(session_id);
        self.total_messages = self.total_messages + 1;
        if self.first_date.as_str().is_empty() || str_lt(date, self.first_date.as_str()) {
            self.first_date = date.to_owned();
        }
        if self.last_date.as_str().is_empty() || str_lt(self.last_date.as_str(), date) {
            self.last_date = date.to_owned();
        }
        proof {
            lemma_live_message_invariant(m0, date@, hour, session_id@, tools as nat);
            assert(self@ == with_live_message(m0, date@, hour, session_id@, tools as nat));
        }
        true
    }

    /// Counts one transcript record `e` of session `session_id`: as a
    /// message when it is a turn with a timestamp of at least 13 bytes, with
    /// its date (the first 10 bytes), its hour (bytes 11 and 12) and, for an
    /// assistant turn, its tool calls.
    pub fn add_transcript_entry(&mut self, session_id: &str, e: &TranscriptEntry) -> (r: EntryOutcome)
        requires
            old(self).wf(),
        ensures
            final(self).wf(),
            !is_message(e@) ==> r is Skipped && final(self)@ == old(self)@,
            transcript_refuses(old(self)@, e@) ==> r is Refused && final(self)@ == old(self)@,
            is_message(e@) && !transcript_refuses(old(self)@, e@) ==> r is Counted && final(self)@
                == with_live_message(old(self)@, message_date(e@), message_hour(e@), session_id@, entry_tools(e@) as nat),
    {
        if !entry_is_turn(e) {
            return EntryOutcome::Skipped;
        }
        let t: &str = match &e.timestamp {
            Some(t) => t.as_str(),
            None => {
                return EntryOutcome::Skipped;
            },
        };
        let bytes = t.as_bytes();
        proof {
            assert(t.spec_bytes() == encode_utf8(t@));
            assert(e@.timestamp == Some(t@));
        }
        if bytes.len() < 13 {
            return EntryOutcome::Skipped;
        }
        if !t.is_char_boundary(10) || !t.is_char_boundary(11) || !t.is_char_boundary(13) {
            return EntryOutcome::Refused;
        }
        let tools = tool_uses_of(e) as u32;
        let hour = read_two_byte_number(bytes[11], bytes[12]);
        let (head, _tail) = t.split_at(10);
        proof {
            lemma_message_date(e@);
            encode_utf8_decode_utf8(head@);
            assert(head@ == message_date(e@));
        }
        if self.record_message(head, hour, session_id, tools) {
            EntryOutcome::Counted
        } else {
            EntryOutcome::Refused
        }
    }

    /// Counts one prompt of the history, sent `secs` seconds after
    /// 1970-01-01T00:00:00 UTC in session `session_id`, on its date and hour
    /// with no tool calls. Refused (`false`, nothing changed) when the
    /// message count would exceed `u32::MAX`.
    pub fn add_history_event(&mut self, secs: i64, session_id: &str) -> (r: bool)
        requires
            old(self).wf(),
        ensures
            final(self).wf(),
            ({
                let date = day_text(day_of_moment(secs as int));
                &&& r == !live_refuses(old(self)@, date, 0)
                &&& r ==> final(self)@ == with_live_message(old(self)@, date, hour_of_day(secs as int), session_id@, 0)
                &&& !r ==> final(self)@ == old(self)@
            }),
    {
        let (date, hour) = chrono_lite_date(secs);
        proof {
            assert(date@.len() >= 10);
        }
        self.record_message(date.as_str(), hour, session_id, 0)
    }

    /// The days in ascending order of date, with their counts.
    #[verifier::spinoff_prover]
    pub fn daily_activity(&self) -> (r: Vec<LiveDailyActivity>)
        requires
            self.wf(),
        ensures
            is_daily_table(r@, self@.days, None),
            activity_messages(r@) == self@.total_messages,
            activity_tools(r@) == self@.total_tool_calls,
    {
        let ghost ds = day_seq_of(self.days@);
        proof {
            lemma_ascending_distinct(ds);
        }
        let mut out: Vec<LiveDailyActivity> = Vec::new();
        let mut i: usize = 0;
        while i < self.days.len()
            invariant
                self.wf(),
                ds == day_seq_of(self.days@),
                keys_distinct(ds),
                i <= self.days@.len(),
                out@.len() == i,
                forall|a: int| 0 <= a < i ==> {
                    &&& (#[trigger] out@[a]).date@ == ds[a].0
                    &&& out@[a].message_count == ds[a].1.message_count
                    &&& out@[a].session_count == ds[a].1.sessions.len()
                    &&& out@[a].tool_call_count == ds[a].1.tool_call_count
                },
                activity_messages(out@) == day_total(ds.take(i as int)),
                activity_tools(out@) == day_tool_total(ds.take(i as int)),
            decreases self.days@.len() - i,
        {
            let d = &self.days[i];
            proof {
                assert(self.days@[i as int].sessions.wf());
                lemma_map_at(ds, i as int);
                assert(self@.days.contains_key(ds[i as int].0));
                assert(ds[i as int].1.sessions.len() <= ds[i as int].1.message_count);
            }
            let sessions = d.sessions.len();
            let ghost before = out@;
            out.push(LiveDailyActivity {
                date: d.date.clone(),
                message_count: d.message_count,
                session_count: sessions as u32,
                tool_call_count: d.tool_call_count,
            });
            proof {
                assert(out@.drop_last() =~= before);
                assert(ds.take(i + 1).drop_last() =~= ds.take(i as int));
            }
            i = i + 1;
        }
        proof {
            assert forall|a: int| 0 <= a < out@.len() implies {
                &&& self@.days.contains_key(#[trigger] out@[a].date@)
                &&& out@[a].message_count == self@.days[out@[a].date@].message_count
                &&& out@[a].session_count == self@.days[out@[a].date@].sessions.len()
                &&& out@[a].tool_call_count == self@.days[out@[a].date@].tool_call_count
            } by {
                lemma_map_at(ds, a);
            }
            assert forall|d: Seq<char>| #[trigger] self@.days.contains_key(d) implies exists|a: int| 0 <= a < out@.len() && #[trigger] out@[a].date@ == d by {
                let a = choose|a: int| 0 <= a < ds.len() && ds[a].0 == d;
                assert(out@[a].date@ == d);
            }
            assert(ds.take(i as int) =~= ds);
        }
        out
    }

    /// The hours with their message counts.
    pub fn hour_counts(&self) -> (r: Vec<HourCount>)
        requires
            self.wf(),
        ensures
            is_hour_table(r@, self@.hour_counts),
            hour_messages(r@) == self@.total_messages,
    {
        let ghost hs = hour_seq_of(self.hours@);
        let mut out: Vec<HourCount> = Vec::new();
        let mut i: usize = 0;
        while i < self.hours.len()
            invariant
                hs == hour_seq_of(self.hours@),
                keys_distinct(hs),
                i <= self.hours@.len(),
                out@.len() == i,
                forall|a: int| 0 <= a < i ==> (#[trigger] out@[a]).hour == hs[a].0 && out@[a].count == hs[a].1,
                hour_messages(out@) == hour_total(hs.take(i as int)),
            decreases self.hours@.len() - i,
        {
            let ghost before = out@;
            out.push(HourCount { hour: self.hours[i].0, count: self.hours[i].1 });
            proof {
                assert(out@.drop_last() =~= before);
                assert(hs.take(i + 1).drop_last() =~= hs.take(i as int));
            }
            i = i + 1;
        }
        proof {
            assert forall|a: int| 0 <= a < out@.len() implies self@.hour_counts.contains_key(#[trigger] out@[a].hour) && out@[a].count == self@.hour_counts[out@[a].hour] by {
                lemma_map_at(hs, a);
            }
            assert forall|h: u32| #[trigger] self@.hour_counts.contains_key(h) implies exists|a: int| 0 <= a < out@.len() && #[trigger] out@[a].hour == h by {
                let a = choose|a: int| 0 <= a < hs.len() && hs[a].0 == h;
                assert(out@[a].hour == h);
            }
            assert(hs.take(i as int) =~= hs);
        }
        out
    }

    /// The live statistics: the days and hours with their counts, the number
    /// of distinct sessions, the number of messages, the first and last dates,
    /// and from the statistics cache (when there is one) the model usage, the
    /// daily model tokens and the longest session. With cached tool call
    /// records, each day's tool call count is taken from the last record of
    /// the day where there is one.
    #[verifier::spinoff_prover]
    pub fn live_stats(
        &self,
        cache: Option<&Value>,
        cached_tools: Option<&[CachedToolCount]>,
        last_computed_date: String,
    ) -> (r: LiveStats)
        requires
            self.wf(),
        ensures
            is_daily_table(r.daily_activity@, self@.days, opt_cached_pairs(cached_tools)),
            r.total_sessions == self@.sessions.len(),
            r.total_messages == self@.total_messages,
            r.first_session_date@ == self@.first_date,
            r.last_session_date@ == self@.last_date,
            is_hour_table(r.hour_counts@, self@.hour_counts),
            activity_messages(r.daily_activity@) == self@.total_messages,
            cached_tools is None ==> activity_tools(r.daily_activity@) == self@.total_tool_calls,
            hour_messages(r.hour_counts@) == self@.total_messages,
            r.model_usage == cache_member_of(cache, model_usage_key()),
            r.daily_model_tokens == cache_member_of(cache, daily_model_tokens_key()),
            r.longest_session == cache_member_of(cache, longest_session_key()),
            r.last_computed_date == last_computed_date,
    {
        let mut daily_activity = self.daily_activity();
        if let Some(cached) = cached_tools {
            let ghost before = daily_activity@;
            merge_cached_tool_calls(&mut daily_activity, cached);
            proof {
                lemma_same_messages(daily_activity@, before);
                assert forall|a: int, b: int| 0 <= a < b < daily_activity@.len() implies text_lt(daily_activity@[a].date@, daily_activity@[b].date@) by {
                    assert(daily_activity@[a].date == before[a].date);
                    assert(daily_activity@[b].date == before[b].date);
                }
                assert forall|a: int| 0 <= a < daily_activity@.len() implies {
                    &&& self@.days.contains_key(#[trigger] daily_activity@[a].date@)
                    &&& daily_activity@[a].message_count == self@.days[daily_activity@[a].date@].message_count
                    &&& daily_activity@[a].session_count == self@.days[daily_activity@[a].date@].sessions.len()
                    &&& daily_activity@[a].tool_call_count == reported_tool_calls(
                        daily_activity@[a].date@,
                        self@.days[daily_activity@[a].date@].tool_call_count,
                        opt_cached_pairs(cached_tools),
                    )
                } by {
                    assert(daily_activity@[a].date == before[a].date);
                    assert(self@.days.contains_key(before[a].date@));
                }
                assert forall|d: Seq<char>| #[trigger] self@.days.contains_key(d) implies exists|a: int| 0 <= a < daily_activity@.len() && #[trigger] daily_activity@[a].date@ == d by {
                    let a = choose|a: int| 0 <= a < before.len() && #[trigger] before[a].date@ == d;
                    assert(daily_activity@[a].date == before[a].date);
                }
            }
        }
        let total_sessions = self.sessions.len();
        let hour_counts = self.hour_counts();
        let usage_name = "modelUsage";
        let tokens_name = "dailyModelTokens";
        let longest_name = "longestSession";
        proof {
            reveal_strlit("modelUsage");
            reveal_strlit("dailyModelTokens");
            reveal_strlit("longestSession");
            assert(usage_name@ =~= model_usage_key());
            assert(tokens_name@ =~= daily_model_tokens_key());
            assert(longest_name@ =~= longest_session_key());
        }
        LiveStats {
            daily_activity,
            total_sessions: total_sessions as u32,
            total_messages: self.total_messages,
            first_session_date: self.first_date.clone(),
            last_session_date: self.last_date.clone(),
            hour_counts,
            model_usage: cache_member(cache, usage_name),
            daily_model_tokens: cache_member(cache, tokens_name),
            longest_session: cache_member(cache, longest_name),
            last_computed_date,
        }
    }
}

} // verus!
