use supershell::state::GameState;

fn sample_state() -> GameState {
    let mut st = GameState::new();
    st.current_course_id = String::from("intro course");
    st.course_version_seen = String::from("2.1");
    st.current_quest_id = String::from("q\"uo\\te");
    st.current_chapter_index = 3;
    st.current_task_index = 7;
    st.set_flag("saw_intro", true);
    st.set_flag("cheated", false);
    st.set_var("score", -42);
    st.set_var("deaths", 9000);
    st
}

#[test]
fn save_then_load_round_trips_field_for_field() {
    let st = sample_state();
    let text = st.save();
    let back = GameState::load(Some(text.as_str()));
    assert_eq!(back.current_course_id, st.current_course_id);
    assert_eq!(back.course_version_seen, st.course_version_seen);
    assert_eq!(back.current_quest_id, st.current_quest_id);
    assert_eq!(back.current_chapter_index, st.current_chapter_index);
    assert_eq!(back.current_task_index, st.current_task_index);
    assert_eq!(back.is_finished, st.is_finished);
    assert_eq!(back.flags.len(), st.flags.len());
    for i in 0..st.flags.len() {
        assert_eq!(back.flags[i].0, st.flags[i].0);
        assert_eq!(back.flags[i].1, st.flags[i].1);
    }
    assert_eq!(back.variables.len(), st.variables.len());
    for i in 0..st.variables.len() {
        assert_eq!(back.variables[i].0, st.variables[i].0);
        assert_eq!(back.variables[i].1, st.variables[i].1);
    }
}

#[test]
fn fresh_state_serializes_to_the_fixed_document() {
    let st = GameState::new();
    let text = st.save();
    let expected = "{\"current_course_id\":\"\",\"course_version_seen\":\"\",\"current_quest_id\":\"\",\"current_chapter_index\":0,\"current_task_index\":0,\"flags\":{},\"variables\":{},\"is_finished\":false}";
    assert_eq!(text, expected);
}

#[test]
fn known_document_loads_exactly() {
    let text = "{\"current_course_id\":\"c\",\"course_version_seen\":\"v\",\"current_quest_id\":\"test_quest\",\"current_chapter_index\":1,\"current_task_index\":2,\"flags\":{\"done\":true},\"variables\":{\"score\":-5},\"is_finished\":false}";
    let st = GameState::load(Some(text));
    assert_eq!(st.current_quest_id, "test_quest");
    assert_eq!(st.current_chapter_index, 1);
    assert_eq!(st.current_task_index, 2);
    assert_eq!(st.get_flag("done"), Some(true));
    assert_eq!(st.get_var("score"), Some(-5));
    assert!(!st.is_finished);
}

#[test]
fn corrupt_save_recovers_to_fresh_state() {
    let garbage = "\u{1}\u{2}not json at all {{{ \"current_task_index\": banana";
    let st = GameState::load(Some(garbage));
    assert_eq!(st.current_quest_id, "");
    assert_eq!(st.current_chapter_index, 0);
    assert_eq!(st.current_task_index, 0);
    assert!(st.flags.is_empty());
    assert!(st.variables.is_empty());
    assert!(!st.is_finished);
}

#[test]
fn truncated_save_recovers_to_fresh_state() {
    let st = sample_state();
    let text = st.save();
    let cut = &text[0..text.len() - 1];
    let back = GameState::load(Some(cut));
    assert_eq!(back.current_quest_id, "");
    assert_eq!(back.current_task_index, 0);
}

#[test]
fn trailing_garbage_is_rejected() {
    let st = sample_state();
    let mut text = st.save();
    text.push_str("x");
    let back = GameState::load(Some(text.as_str()));
    assert_eq!(back.current_quest_id, "");
}

#[test]
fn missing_save_yields_fresh_state() {
    let st = GameState::load(None);
    assert_eq!(st.current_quest_id, "");
    assert!(!st.is_finished);
}

#[test]
fn escaped_keys_round_trip() {
    let mut st = GameState::new();
    st.set_flag("weird \"key\" with \\slashes\\", true);
    st.set_var("newline\nkey", 1);
    let text = st.save();
    let back = GameState::load(Some(text.as_str()));
    assert_eq!(back.get_flag("weird \"key\" with \\slashes\\"), Some(true));
    assert_eq!(back.get_var("newline\nkey"), Some(1));
}
