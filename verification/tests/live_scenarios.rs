use activity_stats::insights::{EntryOutcome, InsightsAccumulator};
use activity_stats::stats::{
    cached_tool_calls, history_session, merge_cached_tool_calls, parse_stats_cache, CachedToolCount, LiveDailyActivity,
    LiveStatsAccumulator,
};
use activity_stats::transcript::parse_transcript_line;

fn feed(acc: &mut LiveStatsAccumulator, session: &str, line: &str) -> EntryOutcome {
    let entry = parse_transcript_line(line).unwrap();
    acc.add_transcript_entry(session, &entry)
}

#[test]
fn transcripts_by_day_and_hour() {
    let mut acc = LiveStatsAccumulator::new();
    let lines = [
        "{\"type\":\"user\",\"timestamp\":\"2026-04-27T09:15:00Z\"}",
        "{\"type\":\"assistant\",\"timestamp\":\"2026-04-27T09:16:00Z\",\"message\":{\"content\":[{\"type\":\"tool_use\",\"name\":\"Bash\"},{\"type\":\"tool_use\"}]}}",
        "{\"type\":\"user\",\"timestamp\":\"2026-04-26T22:45:47.406Z\"}",
    ];
    for line in lines {
        assert!(matches!(feed(&mut acc, "s1", line), EntryOutcome::Counted));
    }
    assert!(matches!(feed(&mut acc, "s2", lines[0]), EntryOutcome::Counted));
    let stats = acc.live_stats(None, None, "2026-05-01".to_string());
    assert_eq!(stats.total_messages, 4);
    assert_eq!(stats.total_sessions, 2);
    assert_eq!(stats.first_session_date, "2026-04-26");
    assert_eq!(stats.last_session_date, "2026-04-27");
    assert_eq!(stats.last_computed_date, "2026-05-01");
    assert_eq!(stats.daily_activity.len(), 2);
    assert_eq!(stats.daily_activity[0].date, "2026-04-26");
    assert_eq!(stats.daily_activity[0].message_count, 1);
    assert_eq!(stats.daily_activity[1].date, "2026-04-27");
    assert_eq!(stats.daily_activity[1].message_count, 3);
    assert_eq!(stats.daily_activity[1].session_count, 2);
    assert_eq!(stats.daily_activity[1].tool_call_count, 2);
    let mut hours: Vec<(u32, u32)> = stats.hour_counts.iter().map(|h| (h.hour, h.count)).collect();
    hours.sort();
    assert_eq!(hours, vec![(9, 3), (22, 1)]);
    assert!(stats.model_usage.is_none());
}

#[test]
fn hour_is_parsed_as_u32() {
    let mut acc = LiveStatsAccumulator::new();
    for ts in ["2026-04-27T+5:00:00Z", "2026-04-27Txy:00:00Z", "2026-04-27T-5:00:00Z", "2026-04-27T07:00:00Z"] {
        let line = format!("{{\"type\":\"user\",\"timestamp\":\"{}\"}}", ts);
        assert!(matches!(feed(&mut acc, "s", &line), EntryOutcome::Counted));
    }
    let stats = acc.live_stats(None, None, String::new());
    let mut hours: Vec<(u32, u32)> = stats.hour_counts.iter().map(|h| (h.hour, h.count)).collect();
    hours.sort();
    assert_eq!(hours, vec![(0, 2), (5, 1), (7, 1)]);
}

#[test]
fn hour_that_cannot_be_cut_is_refused() {
    let mut acc = LiveStatsAccumulator::new();
    let line = "{\"type\":\"user\",\"timestamp\":\"2026-04-27T0\u{e9}:00Z\"}";
    assert!(matches!(feed(&mut acc, "s", line), EntryOutcome::Refused));
    let stats = acc.live_stats(None, None, String::new());
    assert_eq!(stats.total_messages, 0);
    assert!(stats.daily_activity.is_empty());
}

#[test]
fn history_events() {
    let mut acc = LiveStatsAccumulator::new();
    assert!(acc.add_history_event(1777243547, "a"));
    assert!(acc.add_history_event(1777243547 + 7200, "b"));
    assert!(acc.add_history_event(0, ""));
    let stats = acc.live_stats(None, Some(&[]), String::new());
    assert_eq!(stats.total_messages, 3);
    assert_eq!(stats.total_sessions, 3);
    assert_eq!(stats.first_session_date, "1970-01-01");
    assert_eq!(stats.daily_activity.len(), 3);
    assert_eq!(stats.daily_activity[0].date, "1970-01-01");
    assert_eq!(stats.daily_activity[1].date, "2026-04-26");
    assert_eq!(stats.daily_activity[2].date, "2026-04-27");
    assert_eq!(stats.daily_activity[2].tool_call_count, 0);
}

#[test]
fn cache_supplies_tool_calls_and_usage() {
    let mut acc = LiveStatsAccumulator::new();
    assert!(acc.add_history_event(1777243547, "a"));
    let text = "{\"modelUsage\":{\"m\":1},\"dailyActivity\":[{\"date\":\"2026-04-26\",\"toolCallCount\":7},{\"date\":\"2026-04-26\",\"toolCallCount\":9},{\"date\":\"2026-04-25\",\"toolCallCount\":3}]}";
    let cache = parse_stats_cache(text).unwrap();
    let cached = cached_tool_calls(text);
    assert_eq!(cached.len(), 3);
    assert_eq!((cached[2].date.as_str(), cached[2].tool_call_count), ("2026-04-25", 3));
    assert_eq!(cache["modelUsage"]["m"], 1);
    assert_eq!(cache["dailyActivity"].as_array().map(|a| a.len()), Some(3));
    let stats = acc.live_stats(Some(&cache), Some(&cached), String::new());
    assert_eq!(stats.model_usage, Some(cache["modelUsage"].clone()));
    assert!(stats.longest_session.is_none());
    assert_eq!(stats.daily_activity[0].tool_call_count, 9);
    assert!(stats.model_usage.is_some());
    assert!(stats.daily_model_tokens.is_none());
    let unmerged = acc.live_stats(Some(&cache), None, String::new());
    assert_eq!(unmerged.daily_activity[0].tool_call_count, 0);
}

#[test]
fn merge_keeps_days_without_record() {
    let mut rows = vec![
        LiveDailyActivity { date: "2026-01-01".to_string(), message_count: 1, session_count: 1, tool_call_count: 4 },
        LiveDailyActivity { date: "2026-01-02".to_string(), message_count: 2, session_count: 1, tool_call_count: 5 },
    ];
    let cached = vec![
        CachedToolCount { date: "2026-01-02".to_string(), tool_call_count: 1 },
        CachedToolCount { date: "2026-01-02".to_string(), tool_call_count: 2 },
    ];
    merge_cached_tool_calls(&mut rows, &cached);
    assert_eq!(rows[0].tool_call_count, 4);
    assert_eq!(rows[1].tool_call_count, 2);
    assert_eq!(rows[1].message_count, 2);
}

#[test]
fn bad_cache_is_reported() {
    match parse_stats_cache("{oops") {
        Err(msg) => assert_eq!(msg, "failed to parse stats: key must be a string at line 1 column 2"),
        Ok(_) => panic!("accepted"),
    }
    assert!(parse_stats_cache("{}").is_ok());
}

#[test]
fn history_out_of_order_is_listed_by_date() {
    let mut acc = LiveStatsAccumulator::new();
    // 2024-01-01, 2023-12-31, 2024-02-29 and 2023-12-31 again
    for (secs, session) in [(1704067200i64, "a"), (1703980800, "b"), (1709164800, "c"), (1703980800 + 3600, "a")] {
        assert!(acc.add_history_event(secs, session));
    }
    let stats = acc.live_stats(None, Some(&[]), String::new());
    let dates: Vec<&str> = stats.daily_activity.iter().map(|d| d.date.as_str()).collect();
    assert_eq!(dates, vec!["2023-12-31", "2024-01-01", "2024-02-29"]);
    assert_eq!(stats.daily_activity[0].message_count, 2);
    assert_eq!(stats.daily_activity[0].session_count, 2);
    assert_eq!(stats.first_session_date, "2023-12-31");
    assert_eq!(stats.last_session_date, "2024-02-29");
}

#[test]
fn cached_records_need_a_date_and_a_count() {
    let text = "{\"dailyActivity\":[{\"date\":\"2026-01-01\",\"toolCallCount\":4},{\"date\":5,\"toolCallCount\":1},{\"date\":\"2026-01-02\"},{\"date\":\"2026-01-03\",\"toolCallCount\":-1},{\"date\":\"2026-01-04\",\"toolCallCount\":2.5},{\"toolCallCount\":3,\"date\":\"2026-01-05\"},{\"date\":\"2026-01-06\",\"toolCallCount\":4294967297}]}";
    let cached = cached_tool_calls(text);
    let pairs: Vec<(&str, u32)> = cached.iter().map(|c| (c.date.as_str(), c.tool_call_count)).collect();
    assert_eq!(pairs, vec![("2026-01-01", 4), ("2026-01-05", 3), ("2026-01-06", 1)]);
    assert!(cached_tool_calls("{\"dailyActivity\":{}}").is_empty());
    assert!(cached_tool_calls("[1]").is_empty());
    assert!(cached_tool_calls("not json").is_empty());
}

#[test]
fn insights_and_live_statistics_agree() {
    let lines = [
        "{\"type\":\"user\",\"timestamp\":\"2026-04-27T09:15:00Z\"}",
        "{\"type\":\"assistant\",\"timestamp\":\"2026-04-26T09:16:00Z\",\"message\":{\"content\":[{\"type\":\"tool_use\",\"name\":\"Bash\"}]}}",
        "{\"type\":\"summary\",\"timestamp\":\"2026-04-25T09:16:00Z\"}",
        "{\"type\":\"user\",\"timestamp\":\"2026-04-28T01:00:00Z\"}",
    ];
    let mut live = LiveStatsAccumulator::new();
    let mut insights = InsightsAccumulator::new();
    assert!(insights.open_project("p"));
    for (n, line) in lines.iter().enumerate() {
        let session = if n % 2 == 0 { "s1" } else { "s2" };
        let e = parse_transcript_line(line).unwrap();
        insights.add_entry("p", session, &e);
        live.add_transcript_entry(session, &e);
    }
    let s = insights.summary(String::new(), 0, 0, 0);
    let l = live.live_stats(None, None, String::new());
    assert_eq!(s.total_messages, l.total_messages);
    assert_eq!(s.total_sessions, l.total_sessions);
    assert_eq!(s.active_days as usize, l.daily_activity.len());
    assert_eq!(s.first_date, l.first_session_date);
    assert_eq!(s.last_date, l.last_session_date);
    let tools: u32 = l.daily_activity.iter().map(|d| d.tool_call_count).sum();
    assert_eq!(s.total_tool_calls, tools);
    assert_eq!(tools, 1);
}

#[test]
fn session_of_a_history_line() {
    assert_eq!(history_session("{\"sessionId\":\"abc\",\"timestamp\":1.5e12}"), Some("abc".to_string()));
    assert_eq!(history_session("{\"sessionId\":7}"), Some(String::new()));
    assert_eq!(history_session("{}"), Some(String::new()));
    assert_eq!(history_session("oops"), None);
}
