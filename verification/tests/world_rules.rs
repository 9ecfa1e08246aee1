use supershell::actions::SetupAction;
use supershell::world::{WorldEngine, WorldOp};

fn engine() -> WorldEngine {
    WorldEngine::new(String::from("/home/user/Construct"))
}

#[test]
fn safe_path_rejects_traversal_and_absolute_paths() {
    let e = engine();
    assert!(e.safe_path("../../etc/passwd").is_none());
    assert!(e.safe_path("/etc/passwd").is_none());
    assert!(e.safe_path("..").is_none());
    assert!(e.safe_path("a/../b").is_none());
    assert!(e.safe_path("a/..").is_none());
    assert!(e.safe_path("../a").is_none());
    assert!(e.safe_path("").is_none());
}

#[test]
fn safe_path_resolves_inside_the_root() {
    let e = engine();
    assert_eq!(
        e.safe_path("notes/todo.txt"),
        Some(String::from("/home/user/Construct/notes/todo.txt"))
    );
    // two dots that are not a traversal segment are just a name
    assert_eq!(e.safe_path("a..b"), Some(String::from("/home/user/Construct/a..b")));
    assert_eq!(e.safe_path("..."), Some(String::from("/home/user/Construct/...")));
    assert_eq!(e.safe_path("a/.hidden"), Some(String::from("/home/user/Construct/a/.hidden")));
}

#[test]
fn initialize_twice_requests_the_same_single_step() {
    let e = engine();
    let first = e.initialize();
    let second = e.initialize();
    assert_eq!(first.len(), 1);
    assert_eq!(second.len(), 1);
    match (&first[0], &second[0]) {
        (WorldOp::CreateDir { abs_path: a }, WorldOp::CreateDir { abs_path: b }) => {
            assert_eq!(a, "/home/user/Construct");
            assert_eq!(a, b);
        },
        _ => panic!("initialization must plan exactly one ensure-directory step"),
    }
}

#[test]
fn build_scenario_resolves_actions_in_order() {
    let e = engine();
    let actions = vec![
        SetupAction::CreateDir { path: String::from("level1") },
        SetupAction::CreateFile {
            path: String::from("level1/readme.txt"),
            content: String::from("welcome"),
        },
        SetupAction::RemovePath { path: String::from("old") },
    ];
    let plan = e.build_scenario(&actions);
    assert!(plan.violations.is_empty());
    assert_eq!(plan.ops.len(), 3);
    match &plan.ops[0] {
        WorldOp::CreateDir { abs_path } => assert_eq!(abs_path, "/home/user/Construct/level1"),
        _ => panic!("expected a directory step first"),
    }
    match &plan.ops[1] {
        WorldOp::WriteFile { abs_path, content } => {
            assert_eq!(abs_path, "/home/user/Construct/level1/readme.txt");
            assert_eq!(content, "welcome");
        },
        _ => panic!("expected a file step second"),
    }
    match &plan.ops[2] {
        WorldOp::RemovePath { abs_path } => assert_eq!(abs_path, "/home/user/Construct/old"),
        _ => panic!("expected a removal step third"),
    }
}

#[test]
fn escaping_actions_are_refused_but_do_not_abort_the_rest() {
    let e = engine();
    let actions = vec![
        SetupAction::RemovePath { path: String::from("../outside") },
        SetupAction::CreateDir { path: String::from("inside") },
    ];
    let plan = e.build_scenario(&actions);
    assert_eq!(plan.violations.len(), 1);
    assert_eq!(plan.violations[0], "../outside");
    assert_eq!(plan.ops.len(), 1);
    match &plan.ops[0] {
        WorldOp::CreateDir { abs_path } => assert_eq!(abs_path, "/home/user/Construct/inside"),
        _ => panic!("the safe action must still be planned"),
    }
}

#[test]
fn reset_world_requires_the_sandbox_directory_name() {
    let good = engine();
    let plan = good.build_scenario(&vec![SetupAction::ResetWorld]);
    assert!(plan.violations.is_empty());
    assert_eq!(plan.ops.len(), 1);
    assert!(matches!(plan.ops[0], WorldOp::ClearRoot));

    let bad = WorldEngine::new(String::from("/home/user"));
    let refused = bad.build_scenario(&vec![SetupAction::ResetWorld]);
    assert!(refused.ops.is_empty());
    assert_eq!(refused.violations.len(), 1);
    assert_eq!(refused.violations[0], "/home/user");
}

#[test]
fn bare_sandbox_name_passes_the_reset_guard() {
    let e = WorldEngine::new(String::from("Construct"));
    let plan = e.build_scenario(&vec![SetupAction::ResetWorld]);
    assert!(plan.violations.is_empty());
    assert!(matches!(plan.ops[0], WorldOp::ClearRoot));

    let lookalike = WorldEngine::new(String::from("/home/user/NotConstruct"));
    let refused = lookalike.build_scenario(&vec![SetupAction::ResetWorld]);
    assert!(refused.ops.is_empty());
    assert_eq!(refused.violations.len(), 1);
}
