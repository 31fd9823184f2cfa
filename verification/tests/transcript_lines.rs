use activity_stats::transcript::parse_transcript_line;

#[test]
fn fields_of_a_record() {
    let e = parse_transcript_line(
        "{\"timestamp\":\"2026-04-26T22:45:47Z\",\"type\":\"assistant\",\"message\":{\"content\":[{\"type\":\"tool_use\",\"name\":\"Bash\"},{\"type\":\"text\"},7]}}",
    )
    .unwrap();
    assert_eq!(e.msg_type.as_deref(), Some("assistant"));
    assert_eq!(e.timestamp.as_deref(), Some("2026-04-26T22:45:47Z"));
    let blocks = e.blocks.unwrap();
    assert_eq!(blocks.len(), 3);
    assert_eq!(blocks[0].block_type.as_deref(), Some("tool_use"));
    assert_eq!(blocks[0].name.as_deref(), Some("Bash"));
    assert_eq!(blocks[1].block_type.as_deref(), Some("text"));
    assert!(blocks[1].name.is_none());
    assert!(blocks[2].block_type.is_none() && blocks[2].name.is_none());
}

#[test]
fn fields_that_are_not_strings_or_arrays() {
    let e = parse_transcript_line("{\"type\":1,\"timestamp\":null,\"message\":{\"content\":\"hello\"}}").unwrap();
    assert!(e.msg_type.is_none());
    assert!(e.timestamp.is_none());
    assert!(e.blocks.is_none());
    let f = parse_transcript_line("{\"type\":\"user\",\"message\":\"hi\"}").unwrap();
    assert_eq!(f.msg_type.as_deref(), Some("user"));
    assert!(f.blocks.is_none());
    let g = parse_transcript_line("[\"type\"]").unwrap();
    assert!(g.msg_type.is_none() && g.timestamp.is_none() && g.blocks.is_none());
    assert!(parse_transcript_line("{\"type\":").is_none());
}
