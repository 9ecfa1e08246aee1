//! The world engine: turns declared setup actions into a plan of concrete
//! filesystem steps, every one of them proven to stay inside the sandbox
//! root. Executing the plan (the actual syscalls) happens outside; the
//! planning and the path-safety rules live here.

use crate::actions::SetupAction;
use vstd::prelude::*;
use vstd::string::StrSliceExecFns;

verus! {

/// The directory name the sandbox root must end in; a guard against a
/// misconfigured root letting a world reset wipe an unintended directory.
pub open spec fn sandbox_dir_name() -> Seq<char> {
    "Construct"@
}

/// The string holds a parent-directory traversal segment: `..` bounded by
/// separators or by the ends of the string.
pub open spec fn has_traversal(s: Seq<char>) -> bool {
    exists|i: int|
        0 <= i && i + 2 <= s.len() && #[trigger] s[i] == '.' && s[i + 1] == '.' && (i == 0 || s[i
            - 1] == '/') && (i + 2 == s.len() || s[i + 2] == '/')
}

/// A relative path the sandbox accepts: non-empty, not absolute, and free
/// of parent-directory traversal segments.
pub open spec fn rel_path_ok(s: Seq<char>) -> bool {
    s.len() > 0 && s[0] != '/' && !has_traversal(s)
}

/// The root, a separator, and the relative remainder.
pub open spec fn resolved_path(root: Seq<char>, rel: Seq<char>) -> Seq<char> {
    root + seq!['/'] + rel
}

/// The root names the expected sandbox directory: it ends in the sandbox
/// directory name, preceded by a separator unless the root is the bare name.
pub open spec fn sandbox_suffix_ok(root: Seq<char>) -> bool {
    let n = sandbox_dir_name().len() as int;
    &&& root.len() >= n
    &&& root.subrange(root.len() - n, root.len() as int) == sandbox_dir_name()
    &&& (root.len() == n || root[root.len() - n - 1] == '/')
}

/// A resolved path stays strictly inside the root: it extends the root by a
/// separator and a remainder that is exactly the accepted relative path,
/// which is itself free of traversal segments.
pub proof fn lemma_resolved_path_inside(root: Seq<char>, rel: Seq<char>)
    requires
        rel_path_ok(rel),
    ensures
        ({
            let p = resolved_path(root, rel);
            &&& p.len() == root.len() + 1 + rel.len()
            &&& p.subrange(0, root.len() as int) == root
            &&& p[root.len() as int] == '/'
            &&& p.subrange(root.len() as int + 1, p.len() as int) == rel
            &&& !has_traversal(p.subrange(root.len() as int + 1, p.len() as int))
        }),
{
    let p = resolved_path(root, rel);
    assert(p.subrange(0, root.len() as int) =~= root);
    assert(p.subrange(root.len() as int + 1, p.len() as int) =~= rel);
}

/// One concrete filesystem step with its already-resolved absolute path.
pub enum WorldOp {
    /// Recursively ensure the directory exists.
    CreateDir { abs_path: String },
    /// Create the file (and its parents), truncating existing content.
    WriteFile { abs_path: String, content: String },
    /// Remove the file or directory tree if present.
    RemovePath { abs_path: String },
    /// Erase every entry directly under the sandbox root, not the root.
    ClearRoot,
}

/// The mathematical shape of a filesystem step.
pub enum OpModel {
    CreateDir { path: Seq<char> },
    WriteFile { path: Seq<char>, content: Seq<char> },
    RemovePath { path: Seq<char> },
    ClearRoot,
}

/// The model of a concrete step.
pub open spec fn op_model(op: WorldOp) -> OpModel {
    match op {
        WorldOp::CreateDir { abs_path } => OpModel::CreateDir { path: abs_path@ },
        WorldOp::WriteFile { abs_path, content } => OpModel::WriteFile {
            path: abs_path@,
            content: content@,
        },
        WorldOp::RemovePath { abs_path } => OpModel::RemovePath { path: abs_path@ },
        WorldOp::ClearRoot => OpModel::ClearRoot,
    }
}

/// What one declared action plans to: a step, or the refused offending
/// path (the action's relative path, or the root itself for a refused
/// world reset).
pub open spec fn action_plan_entry(root: Seq<char>, a: SetupAction) -> Result<OpModel, Seq<char>> {
    match a {
        SetupAction::CreateDir { path } => {
            if rel_path_ok(path@) {
                Ok(OpModel::CreateDir { path: resolved_path(root, path@) })
            } else {
                Err(path@)
            }
        },
        SetupAction::CreateFile { path, content } => {
            if rel_path_ok(path@) {
                Ok(OpModel::WriteFile { path: resolved_path(root, path@), content: content@ })
            } else {
                Err(path@)
            }
        },
        SetupAction::RemovePath { path } => {
            if rel_path_ok(path@) {
                Ok(OpModel::RemovePath { path: resolved_path(root, path@) })
            } else {
                Err(path@)
            }
        },
        SetupAction::ResetWorld => {
            if sandbox_suffix_ok(root) {
                Ok(OpModel::ClearRoot)
            } else {
                Err(root)
            }
        },
    }
}

/// The steps a sequence of actions plans to, in declared order, with every
/// refused action dropped.
pub open spec fn plan_ops(root: Seq<char>, actions: Seq<SetupAction>) -> Seq<OpModel>
    decreases actions.len(),
{
    if actions.len() == 0 {
        Seq::empty()
    } else {
        plan_ops(root, actions.drop_last()) + (match action_plan_entry(root, actions.last()) {
            Ok(op) => seq![op],
            Err(_) => Seq::empty(),
        })
    }
}

/// The refusals a sequence of actions provokes, in declared order.
pub open spec fn plan_violations(root: Seq<char>, actions: Seq<SetupAction>) -> Seq<Seq<char>>
    decreases actions.len(),
{
    if actions.len() == 0 {
        Seq::empty()
    } else {
        plan_violations(root, actions.drop_last()) + (match action_plan_entry(
            root,
            actions.last(),
        ) {
            Ok(_) => Seq::empty(),
            Err(p) => seq![p],
        })
    }
}

/// The step touches nothing outside the root: its path extends the root by
/// a separator and a traversal-free remainder, and a root clear only ever
/// appears under a root that names the sandbox directory.
pub open spec fn op_inside_root(op: OpModel, root: Seq<char>) -> bool {
    match op {
        OpModel::CreateDir { path } => path_inside_root(path, root),
        OpModel::WriteFile { path, content: _ } => path_inside_root(path, root),
        OpModel::RemovePath { path } => path_inside_root(path, root),
        OpModel::ClearRoot => sandbox_suffix_ok(root),
    }
}

/// The path extends the root by a separator and a traversal-free,
/// non-empty, relative remainder.
pub open spec fn path_inside_root(path: Seq<char>, root: Seq<char>) -> bool {
    &&& path.len() > root.len() + 1
    &&& path.subrange(0, root.len() as int) == root
    &&& path[root.len() as int] == '/'
    &&& rel_path_ok(path.subrange(root.len() as int + 1, path.len() as int))
}

/// Sandbox invariant: every step of every plan stays inside the root.
pub proof fn lemma_plan_contained(root: Seq<char>, actions: Seq<SetupAction>)
    ensures
        forall|k: int|
            0 <= k < plan_ops(root, actions).len() ==> op_inside_root(
                #[trigger] plan_ops(root, actions)[k],
                root,
            ),
    decreases actions.len(),
{
    if actions.len() > 0 {
        let prefix = actions.drop_last();
        lemma_plan_contained(root, prefix);
        let entry = action_plan_entry(root, actions.last());
        if entry is Ok {
            match actions.last() {
                SetupAction::CreateDir { path } => {
                    lemma_resolved_path_inside(root, path@);
                },
                SetupAction::CreateFile { path, content: _ } => {
                    lemma_resolved_path_inside(root, path@);
                },
                SetupAction::RemovePath { path } => {
                    lemma_resolved_path_inside(root, path@);
                },
                SetupAction::ResetWorld => {},
            }
            assert(op_inside_root(entry->Ok_0, root));
        }
        assert forall|k: int|
            0 <= k < plan_ops(root, actions).len() implies op_inside_root(
            #[trigger] plan_ops(root, actions)[k],
            root,
        ) by {
            if k < plan_ops(root, prefix).len() {
                assert(plan_ops(root, actions)[k] == plan_ops(root, prefix)[k]);
            } else {
                assert(plan_ops(root, actions)[k] == entry->Ok_0);
            }
        }
    }
}

/// Initialization is idempotent: any two results of `initialize` for the
/// same engine describe the identical single ensure-directory step, and
/// that step, by its own meaning (a pre-existing directory is not an
/// error), changes nothing when performed a second time.
pub proof fn lemma_initialize_idempotent(
    e: WorldEngine,
    first: Seq<WorldOp>,
    second: Seq<WorldOp>,
)
    requires
        first.len() == 1,
        op_model(first[0]) == (OpModel::CreateDir { path: e.root_path@ }),
        second.len() == 1,
        op_model(second[0]) == (OpModel::CreateDir { path: e.root_path@ }),
    ensures
        first.map_values(|op: WorldOp| op_model(op)) == second.map_values(
            |op: WorldOp| op_model(op),
        ),
{
    assert(first.map_values(|op: WorldOp| op_model(op)) =~= second.map_values(
        |op: WorldOp| op_model(op),
    ));
}

/// The scenario planner's outcome: the steps to execute, and the refusals
/// (sandbox violations and refused resets), both in declared order.
pub struct ScenarioPlan {
    pub ops: Vec<WorldOp>,
    pub violations: Vec<String>,
}

/// The world engine, bound to one sandbox root directory.
pub struct WorldEngine {
    pub root_path: String,
}

impl WorldEngine {
    /// An engine bound to the given sandbox root.
    pub fn new(root_path: String) -> (r: WorldEngine)
        ensures
            r.root_path == root_path,
    {
        WorldEngine { root_path }
    }

    /// Resolves a relative path against the sandbox root, refusing absolute
    /// paths and parent-directory traversal outright.
    #[verifier::loop_isolation(false)]
    pub fn safe_path(&self, relative_path: &str) -> (r: Option<String>)
        ensures
            r is Some <==> rel_path_ok(relative_path@),
            r matches Some(p) ==> p@ == resolved_path(self.root_path@, relative_path@),
    {
        let n = relative_path.unicode_len();
        if n == 0 {
            return None;
        }
        if relative_path.get_char(0) == '/' {
            return None;
        }
        let mut i: usize = 0;
        while i < n
            invariant
                n == relative_path@.len(),
                i <= n,
                forall|j: int|
                    0 <= j < i && j + 2 <= n ==> !((#[trigger] relative_path@[j]) == '.'
                        && relative_path@[j + 1] == '.' && (j == 0 || relative_path@[j - 1] == '/')
                        && (j + 2 == n || relative_path@[j + 2] == '/')),
            decreases n - i,
        {
            if i + 1 < n {
                let c0 = relative_path.get_char(i);
                let c1 = relative_path.get_char(i + 1);
                if c0 == '.' && c1 == '.' {
                    let open_ok = if i == 0 {
                        true
                    } else {
                        relative_path.get_char(i - 1) == '/'
                    };
                    let close_ok = if i + 2 == n {
                        true
                    } else {
                        relative_path.get_char(i + 2) == '/'
                    };
                    if open_ok && close_ok {
                        return None;
                    }
                }
            }
            i += 1;
        }
        proof {
            assert(!has_traversal(relative_path@));
        }
        let mut out = self.root_path.clone();
        out.append("/");
        out.append(relative_path);
        proof {
            reveal_strlit("/");
            assert("/"@ =~= seq!['/']);
            assert(out@ =~= resolved_path(self.root_path@, relative_path@));
        }
        Some(out)
    }

    /// Whether the configured root ends in the sandbox directory name, the
    /// precondition for honoring a world reset.
    pub fn root_name_guard(&self) -> (r: bool)
        ensures
            r == sandbox_suffix_ok(self.root_path@),
    {
        let root = self.root_path.as_str();
        let n = root.unicode_len();
        let want = "Construct";
        proof {
            reveal_strlit("Construct");
        }
        let wn = want.unicode_len();
        if n < wn {
            return false;
        }
        let tail = root.substring_char(n - wn, n);
        if !crate::strutil::str_eq(tail, want) {
            return false;
        }
        if n == wn {
            true
        } else {
            root.get_char(n - wn - 1) == '/'
        }
    }

    /// The single step a startup initialization performs: ensure the
    /// sandbox root directory itself exists. Deterministic, so repeating it
    /// requests the very same step, which by its own meaning (a
    /// pre-existing directory is not an error) has no further effect.
    pub fn initialize(&self) -> (r: Vec<WorldOp>)
        ensures
            r@.len() == 1,
            op_model(r@[0]) == (OpModel::CreateDir { path: self.root_path@ }),
    {
        let mut ops: Vec<WorldOp> = Vec::new();
        ops.push(WorldOp::CreateDir { abs_path: self.root_path.clone() });
        ops
    }

    /// Plans a scenario: resolves each action in declared order, refusing
    /// sandbox escapes and unguarded resets while letting the remaining
    /// actions proceed.
    #[verifier::loop_isolation(false)]
    pub fn build_scenario(&self, actions: &Vec<SetupAction>) -> (r: ScenarioPlan)
        ensures
            r.ops@.map_values(|op: WorldOp| op_model(op)) == plan_ops(self.root_path@, actions@),
            r.violations@.map_values(|s: String| s@) == plan_violations(
                self.root_path@,
                actions@,
            ),
    {
        let mut ops: Vec<WorldOp> = Vec::new();
        let mut violations: Vec<String> = Vec::new();
        let mut i: usize = 0;
        while i < actions.len()
            invariant
                i <= actions@.len(),
                ops@.map_values(|op: WorldOp| op_model(op)) == plan_ops(
                    self.root_path@,
                    actions@.take(i as int),
                ),
                violations@.map_values(|s: String| s@) == plan_violations(
                    self.root_path@,
                    actions@.take(i as int),
                ),
            decreases actions@.len() - i,
        {
            proof {
                assert(actions@.take(i as int + 1).drop_last() =~= actions@.take(i as int));
                assert(actions@.take(i as int + 1).last() == actions@[i as int]);
            }
            let ghost ops_before = ops@;
            let ghost violations_before = violations@;
            match &actions[i] {
                SetupAction::CreateDir { path } => {
                    match self.safe_path(path.as_str()) {
                        Some(p) => ops.push(WorldOp::CreateDir { abs_path: p }),
                        None => violations.push(path.clone()),
                    }
                },
                SetupAction::CreateFile { path, content } => {
                    match self.safe_path(path.as_str()) {
                        Some(p) => ops.push(
                            WorldOp::WriteFile { abs_path: p, content: content.clone() },
                        ),
                        None => violations.push(path.clone()),
                    }
                },
                SetupAction::RemovePath { path } => {
                    match self.safe_path(path.as_str()) {
                        Some(p) => ops.push(WorldOp::RemovePath { abs_path: p }),
                        None => violations.push(path.clone()),
                    }
                },
                SetupAction::ResetWorld => {
                    if self.root_name_guard() {
                        ops.push(WorldOp::ClearRoot);
                    } else {
                        violations.push(self.root_path.clone());
                    }
                },
            }
            proof {
                assert(ops@.map_values(|op: WorldOp| op_model(op)) =~= plan_ops(
                    self.root_path@,
                    actions@.take(i as int + 1),
                ));
                assert(violations@.map_values(|s: String| s@) =~= plan_violations(
                    self.root_path@,
                    actions@.take(i as int + 1),
                ));
            }
            i += 1;
        }
        proof {
            assert(actions@.take(actions@.len() as int) =~= actions@);
        }
        ScenarioPlan { ops, violations }
    }
}

} // verus!

