use activity_stats::insights::{EntryOutcome, InsightsAccumulator, InsightsSummary};
use activity_stats::transcript::parse_transcript_line;

fn feed(acc: &mut InsightsAccumulator, slug: &str, session: &str, line: &str) -> Option<EntryOutcome> {
    let entry = parse_transcript_line(line)?;
    Some(acc.add_entry(slug, session, &entry))
}

fn user(ts: &str) -> String {
    format!("{{\"type\":\"user\",\"timestamp\":\"{}\"}}", ts)
}

fn assistant_with_tools(ts: &str, tools: &[&str]) -> String {
    let blocks: Vec<String> = tools
        .iter()
        .map(|t| format!("{{\"type\":\"tool_use\",\"name\":\"{}\"}}", t))
        .collect();
    format!(
        "{{\"type\":\"assistant\",\"timestamp\":\"{}\",\"message\":{{\"content\":[{{\"type\":\"text\"}},{}]}}}}",
        ts,
        blocks.join(",")
    )
}

fn sample() -> InsightsSummary {
    let mut acc = InsightsAccumulator::new();
    assert!(acc.open_project("-Users-a-ACTION-HEALTH"));
    for line in [
        user("2026-04-26T22:45:47.406Z"),
        assistant_with_tools("2026-04-26T22:46:00.000Z", &["Bash", "Read", "Bash"]),
        user("2026-04-28T08:00:00.000Z"),
    ] {
        assert!(matches!(feed(&mut acc, "-Users-a-ACTION-HEALTH", "s1", &line), Some(EntryOutcome::Counted)));
    }
    assert!(acc.open_project("-Users-a-ACTION-HEALTH"));
    assert!(matches!(
        feed(&mut acc, "-Users-a-ACTION-HEALTH", "s2", &user("2026-04-20T01:00:00Z")),
        Some(EntryOutcome::Counted)
    ));
    assert!(acc.open_project("-Users-a-projects-web"));
    assert!(matches!(
        feed(&mut acc, "-Users-a-projects-web", "s3", &assistant_with_tools("2026-04-27T09:00:00Z", &["Edit"])),
        Some(EntryOutcome::Counted)
    ));
    assert!(acc.open_project("-Users-a-empty"));
    acc.summary("2026-05-01".to_string(), 2, 3, 4)
}

#[test]
fn totals() {
    let s = sample();
    assert_eq!(s.generated_at, "2026-05-01");
    assert_eq!(s.total_messages, 5);
    assert_eq!(s.total_sessions, 3);
    assert_eq!(s.total_tool_calls, 4);
    assert_eq!(s.active_days, 4);
    assert_eq!(s.first_date, "2026-04-20");
    assert_eq!(s.last_date, "2026-04-28");
    assert_eq!((s.plans_count, s.scheduled_tasks_count, s.memory_files_count), (2, 3, 4));
}

#[test]
fn projects_ranked_by_messages() {
    let s = sample();
    assert_eq!(s.top_projects.len(), 3);
    let p = &s.top_projects[0];
    assert_eq!(p.slug, "-Users-a-ACTION-HEALTH");
    assert_eq!(p.display_name, "ACTION-HEALTH");
    assert_eq!((p.message_count, p.session_count, p.tool_call_count), (4, 2, 3));
    assert_eq!(p.last_activity, "2026-04-28");
    let q = &s.top_projects[1];
    assert_eq!(q.display_name, "web");
    assert_eq!((q.message_count, q.session_count, q.tool_call_count), (1, 1, 1));
    let e = &s.top_projects[2];
    assert_eq!(e.display_name, "empty");
    assert_eq!((e.message_count, e.session_count, e.tool_call_count), (0, 0, 0));
    assert_eq!(e.last_activity, "");
}

#[test]
fn clusters_and_tools() {
    let s = sample();
    assert_eq!(s.project_clusters.len(), 2);
    assert_eq!(s.project_clusters[0].key, "ACTION-HEALTH");
    assert_eq!(s.project_clusters[0].message_count, 4);
    assert_eq!(s.project_clusters[1].key, "Other");
    assert_eq!(s.project_clusters[1].project_count, 2);
    assert_eq!(s.project_clusters[1].message_count, 1);
    assert_eq!(s.tool_frequencies.len(), 3);
    assert_eq!(s.tool_frequencies[0].name, "Bash");
    assert_eq!(s.tool_frequencies[0].count, 2);
    assert_eq!(s.tool_frequencies[1].count, 1);
    assert_eq!(s.tool_frequencies[2].count, 1);
}

#[test]
fn records_that_are_not_messages() {
    let mut acc = InsightsAccumulator::new();
    assert!(feed(&mut acc, "p", "s", "not json").is_none());
    assert!(feed(&mut acc, "p", "s", "   ").is_none());
    let skipped = [
        "{\"type\":\"summary\",\"timestamp\":\"2026-04-26T22:45:47Z\"}",
        "{\"type\":\"user\",\"timestamp\":\"2026-04-26T2\"}",
        "{\"type\":\"user\",\"timestamp\":12345678901234}",
        "{\"type\":\"user\"}",
        "{\"timestamp\":\"2026-04-26T22:45:47Z\"}",
        "[1,2,3]",
    ];
    for line in skipped {
        assert!(matches!(feed(&mut acc, "p", "s", line), Some(EntryOutcome::Skipped)), "{}", line);
    }
    let s = acc.summary(String::new(), 0, 0, 0);
    assert_eq!(s.total_messages, 0);
    assert!(s.top_projects.is_empty());
    assert!(s.project_clusters.is_empty());
    assert_eq!(s.first_date, "");
}

#[test]
fn timestamp_that_cannot_be_cut_is_refused() {
    let mut acc = InsightsAccumulator::new();
    // byte 10 falls inside the two-byte character
    let line = user("2026-04-2\u{e9}T10:00:00Z");
    assert!(matches!(feed(&mut acc, "p", "s", &line), Some(EntryOutcome::Refused)));
    let s = acc.summary(String::new(), 0, 0, 0);
    assert_eq!(s.total_messages, 0);
}

#[test]
fn non_ascii_after_the_date_is_counted() {
    let mut acc = InsightsAccumulator::new();
    let line = user("2026-04-26\u{e9}10:00:00Z");
    assert!(matches!(feed(&mut acc, "p", "s", &line), Some(EntryOutcome::Counted)));
    let s = acc.summary(String::new(), 0, 0, 0);
    assert_eq!(s.first_date, "2026-04-26");
}

#[test]
fn top_lists_are_cut() {
    let mut acc = InsightsAccumulator::new();
    for i in 0..20u32 {
        let slug = format!("p{}", i);
        assert!(acc.open_project(&slug));
        for _ in 0..i {
            assert!(matches!(feed(&mut acc, &slug, "s", &user("2026-01-01T00:00:00Z")), Some(EntryOutcome::Counted)));
        }
    }
    let names: Vec<String> = (0..25).map(|i| format!("T{}", i)).collect();
    let refs: Vec<&str> = names.iter().map(|s| s.as_str()).collect();
    assert!(matches!(
        feed(&mut acc, "p0", "s", &assistant_with_tools("2026-01-02T00:00:00Z", &refs)),
        Some(EntryOutcome::Counted)
    ));
    let s = acc.summary(String::new(), 0, 0, 0);
    assert_eq!(s.top_projects.len(), 15);
    assert_eq!(s.top_projects[0].slug, "p19");
    assert_eq!(s.top_projects[14].slug, "p5");
    for w in s.top_projects.windows(2) {
        assert!(w[0].message_count >= w[1].message_count);
    }
    assert_eq!(s.tool_frequencies.len(), 20);
    assert_eq!(s.project_clusters.len(), 1);
    assert_eq!(s.project_clusters[0].project_count, 20);
    assert_eq!(s.project_clusters[0].message_count, s.total_messages);
}

#[test]
fn message_total_is_sum_over_projects() {
    let s = sample();
    let sum: u32 = s.top_projects.iter().map(|p| p.message_count).sum();
    assert_eq!(sum, s.total_messages);
    let tools: u32 = s.top_projects.iter().map(|p| p.tool_call_count).sum();
    assert_eq!(tools, s.total_tool_calls);
}
