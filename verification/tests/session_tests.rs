use gallery::session::{
    build_session_segments, collect_session_messages, is_segment_file_name, segment_file_name,
    segment_session_messages, session_id_from_nanos, stored_session_choice,
    validate_editor_session_id, EditorSessionMessage, EditorSessionSegment,
};

fn message(id: usize, role: &str) -> EditorSessionMessage {
    EditorSessionMessage {
        id: format!("m{id}"),
        role: role.to_string(),
        content: format!("content {id}"),
        attachments: Vec::new(),
        tone: None,
        aspect_ratio: None,
        resolution: None,
        image_count: None,
    }
}

fn conversation(turns: usize) -> Vec<EditorSessionMessage> {
    let mut messages = Vec::new();
    for turn in 0..turns {
        messages.push(message(2 * turn, "user"));
        messages.push(message(2 * turn + 1, "assistant"));
    }
    messages
}

fn ids(messages: &[EditorSessionMessage]) -> Vec<String> {
    messages.iter().map(|m| m.id.clone()).collect()
}

#[test]
fn session_ids_are_validated() {
    assert_eq!(validate_editor_session_id("session-123_abc"), Ok(()));
    let invalid = Err("Invalid editor session id".to_string());
    assert_eq!(validate_editor_session_id(""), invalid);
    assert_eq!(validate_editor_session_id("../etc"), invalid);
    assert_eq!(validate_editor_session_id("a b"), invalid);
    assert_eq!(validate_editor_session_id("会话"), invalid);
}

#[test]
fn new_session_ids_name_the_time() {
    assert_eq!(session_id_from_nanos(0), "session-0");
    assert_eq!(session_id_from_nanos(1712345678901234567), "session-1712345678901234567");
    assert_eq!(validate_editor_session_id(&session_id_from_nanos(42)), Ok(()));
}

#[test]
fn stored_session_is_kept_only_when_valid() {
    assert_eq!(stored_session_choice(Some("session-7".to_string())), Some("session-7".to_string()));
    assert_eq!(stored_session_choice(Some("bad id".to_string())), None);
    assert_eq!(stored_session_choice(None), None);
}

#[test]
fn short_conversations_fit_in_one_segment() {
    let segments = segment_session_messages(conversation(3));
    assert_eq!(segments.len(), 1);
    assert_eq!(segments[0].len(), 6);
    assert!(segment_session_messages(Vec::new()).is_empty());
}

#[test]
fn a_new_segment_starts_at_the_hundred_and_first_user_turn() {
    let messages = conversation(250);
    let expected = ids(&messages);
    let segments = segment_session_messages(messages);
    assert_eq!(segments.len(), 3);
    assert_eq!(segments[0].len(), 200);
    assert_eq!(segments[1].len(), 200);
    assert_eq!(segments[2].len(), 100);
    assert_eq!(segments[1][0].role, "user");
    let joined: Vec<String> = segments.iter().flat_map(|s| ids(s)).collect();
    assert_eq!(joined, expected);
}

#[test]
fn assistant_messages_stay_with_the_last_user_turn() {
    let mut messages = conversation(100);
    messages.push(message(1000, "assistant"));
    messages.push(message(1001, "assistant"));
    messages.push(message(1002, "user"));
    let segments = segment_session_messages(messages);
    assert_eq!(segments.len(), 2);
    assert_eq!(segments[0].len(), 202);
    assert_eq!(ids(&segments[1]), vec!["m1002".to_string()]);
}

#[test]
fn segment_files_are_named_by_index() {
    assert_eq!(segment_file_name(0), "segment-00000.json");
    assert_eq!(segment_file_name(42), "segment-00042.json");
    assert_eq!(segment_file_name(123456), "segment-123456.json");
    assert!(is_segment_file_name("segment-00003.json"));
    assert!(!is_segment_file_name("meta.json"));
    assert!(!is_segment_file_name("segment-00003.json.tmp"));
}

#[test]
fn saved_sessions_read_back() {
    let messages = conversation(230);
    let expected = ids(&messages);
    let session_id = "session-9".to_string();
    let segments = build_session_segments(&session_id, messages, 1_700_000_000);
    assert_eq!(segments.len(), 3);
    for (index, segment) in segments.iter().enumerate() {
        assert_eq!(segment.segment_index, index);
        assert_eq!(segment.session_id, "session-9");
        assert_eq!(segment.created_at, 1_700_000_000);
        assert_eq!(segment.updated_at, 1_700_000_000);
    }
    let read = collect_session_messages("session-9", segments);
    assert_eq!(ids(&read), expected);
}

#[test]
fn segments_of_other_sessions_are_passed_over() {
    let segments = vec![
        EditorSessionSegment {
            session_id: "session-1".to_string(),
            segment_index: 0,
            messages: vec![message(1, "user")],
            created_at: 0,
            updated_at: 0,
        },
        EditorSessionSegment {
            session_id: "session-2".to_string(),
            segment_index: 1,
            messages: vec![message(2, "user")],
            created_at: 0,
            updated_at: 0,
        },
    ];
    let read = collect_session_messages("session-2", segments);
    assert_eq!(ids(&read), vec!["m2".to_string()]);
}
