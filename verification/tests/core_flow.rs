use supershell::conditions::EvalContext;
use supershell::content::{Condition, ConditionType, Mission, Module, Objective, Quest, Reward};
use supershell::driver::{check_command, status_text, CheckOutcome};
use supershell::state::GameState;

fn empty_ctx() -> EvalContext {
    EvalContext {
        cwd: String::from("/home/user"),
        env_vars: Vec::new(),
        history: Vec::new(),
        files: Vec::new(),
    }
}

fn cmd_cond(pattern: &str) -> Condition {
    Condition {
        condition_type: ConditionType::CommandMatches { pattern: String::from(pattern) },
        negate: false,
        failure_msg: None,
    }
}

fn task(title: &str, success: &str, conditions: Vec<Condition>, rewards: Vec<Reward>) -> Objective {
    Objective {
        title: String::from(title),
        description: String::from("desc"),
        instruction: String::from("instr"),
        success_msg: String::from(success),
        hint: None,
        conditions,
        rewards,
    }
}

fn one_quest_course(quest_id: &str, chapters: Vec<Mission>) -> Module {
    Module {
        title: String::from("Course"),
        author: String::from("someone"),
        version: String::from("1"),
        quests: vec![Quest {
            id: String::from(quest_id),
            title: String::from("Quest"),
            requires_sandbox: false,
            chapters,
        }],
    }
}

fn chapter(tasks: Vec<Objective>) -> Mission {
    Mission {
        title: String::from("Chapter 1"),
        intro: String::from("intro"),
        outro: String::from("outro"),
        setup_actions: Vec::new(),
        tasks,
    }
}

#[test]
fn new_game_auto_selects_first_quest() {
    let course = one_quest_course("q1", vec![chapter(vec![task(
        "Run echo",
        "Task 1 Complete",
        vec![cmd_cond("^echo")],
        Vec::new(),
    )])]);
    let mut state = GameState::new();
    assert_eq!(state.current_quest_id, "");
    let ctx = empty_ctx();
    let report = check_command(&course, &mut state, "ls", &ctx);
    assert!(matches!(report.outcome, CheckOutcome::Allow));
    assert_eq!(state.current_quest_id, "q1");
    assert_eq!(state.current_chapter_index, 0);
    assert_eq!(state.current_task_index, 0);
    assert!(report.state_changed);
}

#[test]
fn task_success_advances_and_persists() {
    let course = one_quest_course("q1", vec![chapter(vec![
        task("Run echo", "Task 1 Complete", vec![cmd_cond("^echo")], Vec::new()),
        task("Wait", "Done", Vec::new(), Vec::new()),
    ])]);
    let mut state = GameState::new();
    let ctx = empty_ctx();
    let report = check_command(&course, &mut state, "echo hi", &ctx);
    match report.outcome {
        CheckOutcome::Advanced { success_msg, course_finished } => {
            assert_eq!(success_msg, "Task 1 Complete");
            assert!(!course_finished);
        },
        _ => panic!("expected task success"),
    }
    assert_eq!(state.current_task_index, 1);
    assert!(report.state_changed);
    // persisted: the save text restores the advanced position
    let text = state.save();
    let restored = GameState::load(Some(text.as_str()));
    assert_eq!(restored.current_task_index, 1);
    assert_eq!(restored.current_quest_id, "q1");
}

#[test]
fn unrelated_command_passes_through() {
    // the task's other condition (a sandbox file) would fail, but an
    // unrelated command must still be allowed
    let mut conds = vec![cmd_cond("^touch")];
    conds.push(Condition {
        condition_type: ConditionType::FileExists { path: String::from("made.txt") },
        negate: false,
        failure_msg: Some(String::from("file is missing")),
    });
    let course = one_quest_course("q1", vec![chapter(vec![task(
        "Touch it",
        "ok",
        conds,
        Vec::new(),
    )])]);
    let mut state = GameState::new();
    let ctx = empty_ctx();
    let report = check_command(&course, &mut state, "ls -la", &ctx);
    assert!(matches!(report.outcome, CheckOutcome::Allow));
    assert_eq!(state.current_task_index, 0);
}

#[test]
fn matching_command_with_failed_condition_blocks() {
    let mut conds = vec![cmd_cond("^touch")];
    conds.push(Condition {
        condition_type: ConditionType::FileExists { path: String::from("made.txt") },
        negate: false,
        failure_msg: Some(String::from("file is missing")),
    });
    let course = one_quest_course("q1", vec![chapter(vec![task(
        "Touch it",
        "ok",
        conds,
        Vec::new(),
    )])]);
    let mut state = GameState::new();
    let ctx = empty_ctx();
    let report = check_command(&course, &mut state, "touch made.txt", &ctx);
    match report.outcome {
        CheckOutcome::Block { message, hint } => {
            assert_eq!(message, "file is missing");
            assert!(hint.is_none());
        },
        _ => panic!("expected a block"),
    }
    assert_eq!(state.current_task_index, 0);
}

#[test]
fn chapter_rollover_and_course_finish() {
    // one quest, one single-task chapter: success rolls the chapter over,
    // runs off the quest, and finishes the course
    let course = one_quest_course("q1", vec![chapter(vec![task(
        "Run echo",
        "done",
        vec![cmd_cond("^echo")],
        Vec::new(),
    )])]);
    let mut state = GameState::new();
    let ctx = empty_ctx();
    let report = check_command(&course, &mut state, "echo hello", &ctx);
    match report.outcome {
        CheckOutcome::Advanced { course_finished, .. } => assert!(course_finished),
        _ => panic!("expected success"),
    }
    assert!(state.is_finished);
    assert_eq!(state.current_task_index, 0);
    assert_eq!(state.current_chapter_index, 1);
    // terminal state: later checks are no-ops
    let again = check_command(&course, &mut state, "echo hello", &ctx);
    assert!(matches!(again.outcome, CheckOutcome::Allow));
    assert!(!again.state_changed);
    assert!(state.is_finished);
}

#[test]
fn chapter_rollover_enters_next_chapter() {
    let course = one_quest_course("q1", vec![
        chapter(vec![task("First", "one done", vec![cmd_cond("^echo")], Vec::new())]),
        chapter(vec![task("Second", "two done", vec![cmd_cond("^ls")], Vec::new())]),
    ]);
    let mut state = GameState::new();
    let ctx = empty_ctx();
    let report = check_command(&course, &mut state, "echo hello", &ctx);
    assert!(matches!(report.outcome, CheckOutcome::Advanced { .. }));
    assert_eq!(state.current_chapter_index, 1);
    assert_eq!(state.current_task_index, 0);
    assert!(!state.is_finished);
    assert_eq!(report.entered_chapter, Some((0, 1)));
}

#[test]
fn rewards_accumulate_across_successes() {
    let add = Reward::AddVar { key: String::from("score"), delta: 10 };
    let add2 = Reward::AddVar { key: String::from("score"), delta: 10 };
    let course = one_quest_course("q1", vec![chapter(vec![
        task("First", "one", vec![cmd_cond("^echo")], vec![add]),
        task("Second", "two", vec![cmd_cond("^echo")], vec![add2]),
    ])]);
    let mut state = GameState::new();
    let ctx = empty_ctx();
    let first = check_command(&course, &mut state, "echo a", &ctx);
    assert!(matches!(first.outcome, CheckOutcome::Advanced { .. }));
    assert_eq!(state.get_var("score"), Some(10));
    let second = check_command(&course, &mut state, "echo b", &ctx);
    assert!(matches!(second.outcome, CheckOutcome::Advanced { .. }));
    assert_eq!(state.get_var("score"), Some(20));
}

#[test]
fn malformed_input_pattern_never_matches() {
    // a broken pattern in the command condition means the task never
    // triggers: every command passes through
    let course = one_quest_course("q1", vec![chapter(vec![task(
        "Broken",
        "ok",
        vec![cmd_cond("(")],
        Vec::new(),
    )])]);
    let mut state = GameState::new();
    let ctx = empty_ctx();
    let report = check_command(&course, &mut state, "echo hi", &ctx);
    assert!(matches!(report.outcome, CheckOutcome::Allow));
}

#[test]
fn malformed_secondary_pattern_blocks_with_syntax_message() {
    let mut conds = vec![cmd_cond("^echo")];
    conds.push(Condition {
        condition_type: ConditionType::FileContentMatches {
            path: String::from("a.txt"),
            pattern: String::from("("),
        },
        negate: false,
        failure_msg: None,
    });
    let course = one_quest_course("q1", vec![chapter(vec![task(
        "Broken",
        "ok",
        conds,
        Vec::new(),
    )])]);
    let mut state = GameState::new();
    let ctx = empty_ctx();
    let report = check_command(&course, &mut state, "echo hi", &ctx);
    match report.outcome {
        CheckOutcome::Block { message, .. } => {
            assert_eq!(message, "Malformed condition pattern");
        },
        _ => panic!("expected a block"),
    }
}

#[test]
fn version_sync_updates_record() {
    let course = one_quest_course("q1", vec![chapter(vec![task(
        "Run echo",
        "ok",
        vec![cmd_cond("^echo")],
        Vec::new(),
    )])]);
    let mut state = GameState::new();
    let ctx = empty_ctx();
    let report = check_command(&course, &mut state, "ls", &ctx);
    assert!(report.state_changed);
    assert_eq!(state.course_version_seen, "1");
    assert_eq!(state.current_course_id, "Course");
}

#[test]
fn status_names_active_objective() {
    let course = one_quest_course("q1", vec![chapter(vec![task(
        "Run echo",
        "ok",
        vec![cmd_cond("^echo")],
        Vec::new(),
    )])]);
    let state = GameState::new();
    assert_eq!(status_text(&course, &state), "Run echo");
    let mut done = GameState::new();
    done.mark_finished();
    assert_eq!(status_text(&course, &done), "Course complete.");
}

#[test]
fn block_surfaces_the_task_hint() {
    let mut t = task(
        "Make it",
        "ok",
        vec![cmd_cond("^touch"), Condition {
            condition_type: ConditionType::FileExists { path: String::from("made.txt") },
            negate: false,
            failure_msg: None,
        }],
        Vec::new(),
    );
    t.hint = Some(String::from("try touch made.txt inside the sandbox"));
    let course = one_quest_course("q1", vec![chapter(vec![t])]);
    let mut state = GameState::new();
    let ctx = empty_ctx();
    let report = check_command(&course, &mut state, "touch nothere", &ctx);
    match report.outcome {
        CheckOutcome::Block { message, hint } => {
            assert_eq!(message, "Condition not met");
            assert_eq!(hint.as_deref(), Some("try touch made.txt inside the sandbox"));
        },
        _ => panic!("expected a block"),
    }
}

#[test]
fn negated_condition_flips_the_verdict() {
    // the task requires that the file does NOT exist
    let course = one_quest_course("q1", vec![chapter(vec![task(
        "Clean up",
        "gone",
        vec![cmd_cond("^rm"), Condition {
            condition_type: ConditionType::FileExists { path: String::from("junk.txt") },
            negate: true,
            failure_msg: None,
        }],
        Vec::new(),
    )])]);
    let mut state = GameState::new();
    let ctx = empty_ctx();
    let report = check_command(&course, &mut state, "rm junk.txt", &ctx);
    assert!(matches!(report.outcome, CheckOutcome::Advanced { .. }));
}

#[test]
fn rewards_gate_later_tasks_through_state_conditions() {
    let unlock = Reward::SetFlag { key: String::from("unlocked"), value: true };
    let needs_flag = Condition {
        condition_type: ConditionType::FlagIsTrue { key: String::from("unlocked") },
        negate: false,
        failure_msg: Some(String::from("still locked")),
    };
    let course = one_quest_course("q1", vec![chapter(vec![
        task("Unlock", "unlocked now", vec![cmd_cond("^unlock")], vec![unlock]),
        task("Enter", "entered", vec![cmd_cond("^enter"), needs_flag], Vec::new()),
    ])]);
    let mut state = GameState::new();
    let ctx = empty_ctx();
    let first = check_command(&course, &mut state, "unlock door", &ctx);
    assert!(matches!(first.outcome, CheckOutcome::Advanced { .. }));
    assert_eq!(state.get_flag("unlocked"), Some(true));
    let second = check_command(&course, &mut state, "enter", &ctx);
    assert!(matches!(second.outcome, CheckOutcome::Advanced { .. }));
}
