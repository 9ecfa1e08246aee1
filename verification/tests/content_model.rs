use supershell::conditions::{EvalContext, FileFact};
use supershell::content::{
    Condition, ConditionType, Library, Mission, Module, Objective, Quest, ValidationResult,
};
use supershell::state::{sat_add_i64, GameState};

fn task_with(conds: Vec<Condition>) -> Objective {
    Objective {
        title: String::from("t"),
        description: String::from("d"),
        instruction: String::from("i"),
        success_msg: String::from("s"),
        hint: None,
        conditions: conds,
        rewards: Vec::new(),
    }
}

fn chapter_with(tasks: Vec<Objective>) -> Mission {
    Mission {
        title: String::from("ch"),
        intro: String::new(),
        outro: String::new(),
        setup_actions: Vec::new(),
        tasks,
    }
}

fn course_titled(title: &str, quests: Vec<Quest>) -> Module {
    Module {
        title: String::from(title),
        author: String::new(),
        version: String::new(),
        quests,
    }
}

fn quest(id: &str, chapters: Vec<Mission>) -> Quest {
    Quest {
        id: String::from(id),
        title: String::from(id),
        requires_sandbox: false,
        chapters,
    }
}

fn plain_ctx() -> EvalContext {
    EvalContext {
        cwd: String::from("/workdir/projects"),
        env_vars: vec![(String::from("SHELL"), String::from("/bin/bash"))],
        history: vec![String::from("ls -la"), String::from("cat notes.txt")],
        files: vec![FileFact {
            path: String::from("notes.txt"),
            exists: true,
            is_dir: false,
            is_file: true,
            is_executable: false,
            is_empty: false,
            content: Some(String::from("hello sandbox")),
        }],
    }
}

fn check(ct: ConditionType, negate: bool, cmd: &str) -> ValidationResult {
    let cond = Condition { condition_type: ct, negate, failure_msg: None };
    let ctx = plain_ctx();
    let game = GameState::new();
    cond.check(cmd, &ctx, &game)
}

#[test]
fn chapter_without_tasks_is_rejected_at_validation() {
    let empty = course_titled("c", vec![quest("q", vec![chapter_with(Vec::new())])]);
    assert!(!empty.validate());
    let ok = course_titled("c", vec![quest("q", vec![chapter_with(vec![task_with(
        Vec::new(),
    )])])]);
    assert!(ok.validate());
    let no_chapters = course_titled("c", vec![quest("q", Vec::new())]);
    assert!(!no_chapters.validate());
}

#[test]
fn parse_chain_prefers_the_richest_schema() {
    let full = course_titled("full", Vec::new());
    let got = Module::resolve_parse_chain(Some(full), None, None, String::from("e"));
    assert_eq!(got.unwrap().title, "full");

    let qs = vec![quest("q1", Vec::new())];
    let got = Module::resolve_parse_chain(None, Some(qs), None, String::from("e"));
    let m = got.unwrap();
    assert_eq!(m.title, "");
    assert_eq!(m.quests.len(), 1);
    assert_eq!(m.quests[0].id, "q1");

    let got = Module::resolve_parse_chain(None, None, Some(quest("solo", Vec::new())),
        String::from("e"));
    let m = got.unwrap();
    assert_eq!(m.quests.len(), 1);
    assert_eq!(m.quests[0].id, "solo");

    let got = Module::resolve_parse_chain(None, None, None, String::from("bad yaml"));
    assert_eq!(got.err().unwrap().message, "bad yaml");
}

#[test]
fn library_resolves_by_stem_and_sorts_by_title() {
    let mut lib = Library::new(String::from("/content"));
    lib.register_module(String::from("b_file"), course_titled("Zeta", Vec::new()));
    lib.register_module(String::from("a_file"), course_titled("Alpha", Vec::new()));
    lib.register_module(String::from("c_file"), course_titled("", Vec::new()));
    assert!(lib.get_module("a_file").is_some());
    assert_eq!(lib.get_module("a_file").unwrap().title, "Alpha");
    assert!(lib.get_module("missing").is_none());
    let listing = lib.list_modules();
    assert_eq!(listing.len(), 3);
    // sorted by display title; the untitled course is listed by its stem
    assert_eq!(listing[0].1, "Alpha");
    assert_eq!(listing[1].1, "Zeta");
    assert_eq!(listing[2].1, "c_file");
    assert_eq!(listing[0].0, "a_file");
}

#[test]
fn command_and_history_conditions() {
    let m = ConditionType::CommandMatches { pattern: String::from("^echo") };
    assert!(matches!(check(m, false, "echo hi"), ValidationResult::Valid));
    let m = ConditionType::CommandMatches { pattern: String::from("^echo") };
    assert!(matches!(check(m, false, "ls"), ValidationResult::LogicError(_)));
    let m = ConditionType::CommandMatches { pattern: String::from("^echo") };
    assert!(matches!(check(m, true, "ls"), ValidationResult::Valid));
    let m = ConditionType::CommandMatches { pattern: String::from("(") };
    assert!(matches!(check(m, false, "echo"), ValidationResult::SyntaxError));
    let h = ConditionType::HistoryContains { pattern: String::from("notes") };
    assert!(matches!(check(h, false, "x"), ValidationResult::Valid));
    let h = ConditionType::HistoryContains { pattern: String::from("nowhere") };
    assert!(matches!(check(h, false, "x"), ValidationResult::LogicError(_)));
}

#[test]
fn environment_conditions_read_the_real_snapshot() {
    let w = ConditionType::WorkingDir { path: String::from("projects$") };
    assert!(matches!(check(w, false, "x"), ValidationResult::Valid));
    let w = ConditionType::WorkingDir { path: String::from("^/nope") };
    assert!(matches!(check(w, false, "x"), ValidationResult::LogicError(_)));
    let e = ConditionType::EnvVarEquals {
        name: String::from("SHELL"),
        value: String::from("/bin/bash"),
    };
    assert!(matches!(check(e, false, "x"), ValidationResult::Valid));
    let e = ConditionType::EnvVarEquals {
        name: String::from("SHELL"),
        value: String::from("/bin/zsh"),
    };
    assert!(matches!(check(e, false, "x"), ValidationResult::LogicError(_)));
    let e = ConditionType::EnvVarEquals {
        name: String::from("MISSING"),
        value: String::from(""),
    };
    assert!(matches!(check(e, false, "x"), ValidationResult::LogicError(_)));
}

#[test]
fn filesystem_conditions_read_the_sandbox_snapshot() {
    let f = ConditionType::FileExists { path: String::from("notes.txt") };
    assert!(matches!(check(f, false, "x"), ValidationResult::Valid));
    let f = ConditionType::FileExists { path: String::from("ghost.txt") };
    assert!(matches!(check(f, false, "x"), ValidationResult::LogicError(_)));
    let f = ConditionType::FileMissing { path: String::from("ghost.txt") };
    assert!(matches!(check(f, false, "x"), ValidationResult::Valid));
    let f = ConditionType::IsFile { path: String::from("notes.txt") };
    assert!(matches!(check(f, false, "x"), ValidationResult::Valid));
    let f = ConditionType::IsDirectory { path: String::from("notes.txt") };
    assert!(matches!(check(f, false, "x"), ValidationResult::LogicError(_)));
    let f = ConditionType::IsExecutable { path: String::from("notes.txt") };
    assert!(matches!(check(f, false, "x"), ValidationResult::LogicError(_)));
    let f = ConditionType::FileIsEmpty { path: String::from("notes.txt") };
    assert!(matches!(check(f, false, "x"), ValidationResult::LogicError(_)));
    let f = ConditionType::FileContentMatches {
        path: String::from("notes.txt"),
        pattern: String::from("sandbox"),
    };
    assert!(matches!(check(f, false, "x"), ValidationResult::Valid));
    let f = ConditionType::FileContentMatches {
        path: String::from("notes.txt"),
        pattern: String::from("absent"),
    };
    assert!(matches!(check(f, false, "x"), ValidationResult::LogicError(_)));
    let f = ConditionType::FileContentMatches {
        path: String::from("ghost.txt"),
        pattern: String::from("("),
    };
    assert!(matches!(check(f, false, "x"), ValidationResult::SyntaxError));
}

#[test]
fn session_state_conditions() {
    let mut game = GameState::new();
    game.set_flag("ready", true);
    game.set_var("lives", 3);
    let ctx = plain_ctx();
    let run = |ct: ConditionType| -> ValidationResult {
        let cond = Condition { condition_type: ct, negate: false, failure_msg: None };
        cond.check("x", &ctx, &game)
    };
    assert!(matches!(
        run(ConditionType::FlagIsTrue { key: String::from("ready") }),
        ValidationResult::Valid
    ));
    assert!(matches!(
        run(ConditionType::FlagIsTrue { key: String::from("nope") }),
        ValidationResult::LogicError(_)
    ));
    assert!(matches!(
        run(ConditionType::VarEquals { key: String::from("lives"), value: 3 }),
        ValidationResult::Valid
    ));
    assert!(matches!(
        run(ConditionType::VarGreaterThan { key: String::from("lives"), value: 2 }),
        ValidationResult::Valid
    ));
    assert!(matches!(
        run(ConditionType::VarLessThan { key: String::from("lives"), value: 2 }),
        ValidationResult::LogicError(_)
    ));
    assert!(matches!(
        run(ConditionType::VarEquals { key: String::from("missing"), value: 0 }),
        ValidationResult::LogicError(_)
    ));
}

#[test]
fn failure_message_is_the_declared_one_or_the_default() {
    let cond = Condition {
        condition_type: ConditionType::CommandMatches { pattern: String::from("^a") },
        negate: false,
        failure_msg: Some(String::from("you must start with a")),
    };
    let ctx = plain_ctx();
    let game = GameState::new();
    match cond.check("b", &ctx, &game) {
        ValidationResult::LogicError(m) => assert_eq!(m, "you must start with a"),
        _ => panic!("expected a logic failure"),
    }
    let plain = Condition {
        condition_type: ConditionType::CommandMatches { pattern: String::from("^a") },
        negate: false,
        failure_msg: None,
    };
    match plain.check("b", &ctx, &game) {
        ValidationResult::LogicError(m) => assert_eq!(m, "Condition not met"),
        _ => panic!("expected a logic failure"),
    }
}

#[test]
fn saturating_addition_clamps_at_the_extremes() {
    assert_eq!(sat_add_i64(1, 2), 3);
    assert_eq!(sat_add_i64(i64::MAX, 1), i64::MAX);
    assert_eq!(sat_add_i64(i64::MIN, -1), i64::MIN);
    assert_eq!(sat_add_i64(-5, 3), -2);
}

#[test]
fn set_flag_and_set_var_rebind_in_place() {
    let mut game = GameState::new();
    game.set_var("x", 1);
    game.set_var("x", 2);
    assert_eq!(game.get_var("x"), Some(2));
    assert_eq!(game.variables.len(), 1);
    game.set_flag("f", true);
    game.set_flag("f", false);
    assert_eq!(game.get_flag("f"), Some(false));
    assert_eq!(game.flags.len(), 1);
    game.complete_current_quest("next");
    assert_eq!(game.current_quest_id, "next");
    assert_eq!(game.current_chapter_index, 0);
    assert_eq!(game.current_task_index, 0);
}
