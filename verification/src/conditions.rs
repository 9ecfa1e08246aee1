//! The condition engine: pure evaluation of a condition against the
//! intercepted command, an injected snapshot of the process environment and
//! sandbox filesystem, and the read-only session state.
//!
//! Nothing here touches the real environment: the driver's caller gathers a
//! snapshot first, so evaluation is testable and deterministic.

use crate::content::{Condition, ConditionType, Objective, ValidationResult};
use crate::state::{lookup_assoc, GameState};
use vstd::prelude::*;
use vstd::string::StrSliceExecFns;

verus! {

/// Whether the pattern is accepted by the regular-expression compiler.
pub uninterp spec fn regex_ok(pattern: Seq<char>) -> bool;

/// Whether the pattern matches somewhere in the text, for patterns the
/// compiler accepts.
pub uninterp spec fn regex_match(pattern: Seq<char>, text: Seq<char>) -> bool;

/// Relies on regex::Regex::new, which returns Err exactly on patterns it
/// rejects, and regex::Regex::is_match, which reports whether the compiled
/// pattern matches anywhere in the haystack; both are functions of their
/// string arguments alone.
#[verifier::external_body]
fn regex_is_match(pattern: &str, text: &str) -> (r: Option<bool>)
    ensures
        r is Some <==> regex_ok(pattern@),
        r matches Some(m) ==> m == regex_match(pattern@, text@),
{
    match regex::Regex::new(pattern) {
        Ok(re) => Some(re.is_match(text)),
        Err(_) => None,
    }
}

/// One observed path in the sandbox: existence, kind, and content when the
/// path names a readable file.
pub struct FileFact {
    pub path: String,
    pub exists: bool,
    pub is_dir: bool,
    pub is_file: bool,
    pub is_executable: bool,
    pub is_empty: bool,
    pub content: Option<String>,
}

/// The snapshot a condition may read: the real working directory, the real
/// environment variables, the session command history, and the sandbox
/// filesystem facts. A path with no entry counts as absent.
pub struct EvalContext {
    pub cwd: String,
    pub env_vars: Vec<(String, String)>,
    pub history: Vec<String>,
    pub files: Vec<FileFact>,
}

/// First recorded fact about a path, if any.
pub open spec fn file_entry(files: Seq<FileFact>, path: Seq<char>) -> Option<FileFact>
    decreases files.len(),
{
    if files.len() == 0 {
        None
    } else if files[0].path@ == path {
        Some(files[0])
    } else {
        file_entry(files.drop_first(), path)
    }
}

/// Some line of the history matches the pattern.
pub open spec fn history_has_match(history: Seq<String>, pattern: Seq<char>) -> bool {
    exists|i: int| 0 <= i < history.len() && regex_match(pattern, (#[trigger] history[i])@)
}

/// Whether every pattern the condition carries is well-formed. Conditions
/// without a pattern are always well-formed.
pub open spec fn cond_syntax_ok(ct: ConditionType) -> bool {
    match ct {
        ConditionType::CommandMatches { pattern } => regex_ok(pattern@),
        ConditionType::HistoryContains { pattern } => regex_ok(pattern@),
        ConditionType::WorkingDir { path } => regex_ok(path@),
        ConditionType::FileContentMatches { path: _, pattern } => regex_ok(pattern@),
        _ => true,
    }
}

/// The raw outcome of the check, before the condition's negation is applied.
pub open spec fn cond_base_holds(
    ct: ConditionType,
    cmd: Seq<char>,
    ctx: EvalContext,
    flags: Seq<(String, bool)>,
    vars: Seq<(String, i64)>,
) -> bool {
    match ct {
        ConditionType::CommandMatches { pattern } => regex_match(pattern@, cmd),
        ConditionType::HistoryContains { pattern } => history_has_match(ctx.history@, pattern@),
        ConditionType::WorkingDir { path } => regex_match(path@, ctx.cwd@),
        ConditionType::EnvVarEquals { name, value } => {
            match lookup_assoc(ctx.env_vars@, name@) {
                Some(v) => v@ == value@,
                None => false,
            }
        },
        ConditionType::FileExists { path } => {
            match file_entry(ctx.files@, path@) {
                Some(f) => f.exists,
                None => false,
            }
        },
        ConditionType::FileMissing { path } => {
            match file_entry(ctx.files@, path@) {
                Some(f) => !f.exists,
                None => true,
            }
        },
        ConditionType::IsDirectory { path } => {
            match file_entry(ctx.files@, path@) {
                Some(f) => f.exists && f.is_dir,
                None => false,
            }
        },
        ConditionType::IsFile { path } => {
            match file_entry(ctx.files@, path@) {
                Some(f) => f.exists && f.is_file,
                None => false,
            }
        },
        ConditionType::IsExecutable { path } => {
            match file_entry(ctx.files@, path@) {
                Some(f) => f.exists && f.is_executable,
                None => false,
            }
        },
        ConditionType::FileIsEmpty { path } => {
            match file_entry(ctx.files@, path@) {
                Some(f) => f.exists && f.is_empty,
                None => false,
            }
        },
        ConditionType::FileContentMatches { path, pattern } => {
            match file_entry(ctx.files@, path@) {
                Some(f) => match f.content {
                    Some(c) => regex_match(pattern@, c@),
                    None => false,
                },
                None => false,
            }
        },
        ConditionType::FlagIsTrue { key } => lookup_assoc(flags, key@) == Some(true),
        ConditionType::VarEquals { key, value } => lookup_assoc(vars, key@) == Some(
            value,
        ),
        ConditionType::VarGreaterThan { key, value } => {
            match lookup_assoc(vars, key@) {
                Some(v) => v > value,
                None => false,
            }
        },
        ConditionType::VarLessThan { key, value } => {
            match lookup_assoc(vars, key@) {
                Some(v) => v < value,
                None => false,
            }
        },
    }
}

/// The failure message the condition reports: its own, or the default.
pub open spec fn cond_message(c: Condition) -> Seq<char> {
    match c.failure_msg {
        Some(m) => m@,
        None => "Condition not met"@,
    }
}

/// The condition evaluates to `Valid`: its patterns are well-formed and its
/// outcome, after negation, is true.
pub open spec fn cond_valid(
    c: Condition,
    cmd: Seq<char>,
    ctx: EvalContext,
    flags: Seq<(String, bool)>,
    vars: Seq<(String, i64)>,
) -> bool {
    cond_syntax_ok(c.condition_type) && cond_base_holds(c.condition_type, cmd, ctx, flags, vars)
        != c.negate
}

/// Whether the condition reads the intercepted command or the history: the
/// class evaluated by the first pass of the interception protocol.
pub open spec fn is_input_cond(ct: ConditionType) -> bool {
    ct matches ConditionType::CommandMatches { .. } || ct matches ConditionType::HistoryContains {
        ..
    }
}

/// Index of the first condition that does not evaluate to `Valid`.
pub open spec fn first_invalid(
    cs: Seq<Condition>,
    cmd: Seq<char>,
    ctx: EvalContext,
    flags: Seq<(String, bool)>,
    vars: Seq<(String, i64)>,
) -> Option<int>
    decreases cs.len(),
{
    if cs.len() == 0 {
        None
    } else if !cond_valid(cs[0], cmd, ctx, flags, vars) {
        Some(0)
    } else {
        match first_invalid(cs.drop_first(), cmd, ctx, flags, vars) {
            Some(i) => Some(i + 1),
            None => None,
        }
    }
}

/// If every condition before `i` is valid, the first invalid index is `i`
/// when `i` is invalid, and there is none when `i` runs off the end.
proof fn lemma_first_invalid_at(
    cs: Seq<Condition>,
    cmd: Seq<char>,
    ctx: EvalContext,
    flags: Seq<(String, bool)>,
    vars: Seq<(String, i64)>,
    i: int,
)
    requires
        0 <= i <= cs.len(),
        forall|j: int| 0 <= j < i ==> cond_valid(#[trigger] cs[j], cmd, ctx, flags, vars),
        i < cs.len() ==> !cond_valid(cs[i], cmd, ctx, flags, vars),
    ensures
        i < cs.len() ==> first_invalid(cs, cmd, ctx, flags, vars) == Some(i),
        i == cs.len() ==> first_invalid(cs, cmd, ctx, flags, vars) is None,
    decreases cs.len(),
{
    if cs.len() > 0 {
        if i == 0 {
        } else {
            assert(cond_valid(cs[0], cmd, ctx, flags, vars));
            let sub = cs.drop_first();
            assert(forall|j: int|
                0 <= j < i - 1 ==> cond_valid(#[trigger] sub[j], cmd, ctx, flags, vars));
            lemma_first_invalid_at(sub, cmd, ctx, flags, vars, i - 1);
        }
    }
}

/// The default failure message.
fn default_failure_message() -> (r: String)
    ensures
        r@ == "Condition not met"@,
{
    "Condition not met".to_owned()
}

/// First recorded fact about a path.
#[verifier::loop_isolation(false)]
fn find_file<'a>(files: &'a Vec<FileFact>, path: &str) -> (r: Option<&'a FileFact>)
    ensures
        match r {
            Some(f) => file_entry(files@, path@) == Some(*f),
            None => file_entry(files@, path@) is None,
        },
{
    proof {
        assert(files@.skip(0) =~= files@);
    }
    let mut i: usize = 0;
    while i < files.len()
        invariant
            i <= files@.len(),
            file_entry(files@.skip(i as int), path@) == file_entry(files@, path@),
        decreases files@.len() - i,
    {
        proof {
            assert(files@.skip(i as int).drop_first() =~= files@.skip(i as int + 1));
            assert(files@.skip(i as int)[0] == files@[i as int]);
        }
        if crate::strutil::str_eq(files[i].path.as_str(), path) {
            return Some(&files[i]);
        }
        i += 1;
    }
    None
}

/// Whether the named environment variable is present with exactly the value.
#[verifier::loop_isolation(false)]
fn env_equals(env: &Vec<(String, String)>, name: &str, value: &str) -> (r: bool)
    ensures
        r == match lookup_assoc(env@, name@) {
            Some(v) => v@ == value@,
            None => false,
        },
{
    proof {
        assert(env@.skip(0) =~= env@);
    }
    let mut i: usize = 0;
    while i < env.len()
        invariant
            i <= env@.len(),
            lookup_assoc(env@.skip(i as int), name@) == lookup_assoc(env@, name@),
        decreases env@.len() - i,
    {
        proof {
            assert(env@.skip(i as int).drop_first() =~= env@.skip(i as int + 1));
            assert(env@.skip(i as int)[0] == env@[i as int]);
        }
        if crate::strutil::str_eq(env[i].0.as_str(), name) {
            return crate::strutil::str_eq(env[i].1.as_str(), value);
        }
        i += 1;
    }
    false
}

/// Scan the history for a line matching the pattern; a malformed pattern is
/// reported regardless of how much history there is.
#[verifier::loop_isolation(false)]
fn history_scan(pattern: &str, history: &Vec<String>) -> (r: Option<bool>)
    ensures
        r is Some <==> regex_ok(pattern@),
        r matches Some(m) ==> m == history_has_match(history@, pattern@),
{
    if regex_is_match(pattern, "").is_none() {
        return None;
    }
    let mut i: usize = 0;
    while i < history.len()
        invariant
            i <= history@.len(),
            regex_ok(pattern@),
            forall|j: int| 0 <= j < i ==> !regex_match(pattern@, (#[trigger] history@[j])@),
        decreases history@.len() - i,
    {
        match regex_is_match(pattern, history[i].as_str()) {
            Some(true) => {
                return Some(true);
            },
            Some(false) => {},
            None => {
                proof {
                    assert(false);
                }
            },
        }
        i += 1;
    }
    Some(false)
}

/// Match the pattern against the recorded content of a sandbox file; a
/// malformed pattern is reported regardless of whether the file is readable.
fn content_match(files: &Vec<FileFact>, path: &str, pattern: &str) -> (r: Option<bool>)
    ensures
        r is Some <==> regex_ok(pattern@),
        r matches Some(m) ==> m == match file_entry(files@, path@) {
            Some(f) => match f.content {
                Some(c) => regex_match(pattern@, c@),
                None => false,
            },
            None => false,
        },
{
    if regex_is_match(pattern, "").is_none() {
        return None;
    }
    match find_file(files, path) {
        Some(f) => match &f.content {
            Some(c) => {
                match regex_is_match(pattern, c.as_str()) {
                    Some(m) => Some(m),
                    None => {
                        proof {
                            assert(false);
                        }
                        None
                    },
                }
            },
            None => Some(false),
        },
        None => Some(false),
    }
}

impl Condition {
    /// The failure message this condition reports when unmet.
    pub fn failure_message(&self) -> (r: String)
        ensures
            r@ == cond_message(*self),
    {
        match &self.failure_msg {
            Some(m) => m.clone(),
            None => default_failure_message(),
        }
    }

    /// Evaluates this condition against the command, the environment
    /// snapshot and the session state, without mutating anything.
    pub fn check(&self, user_cmd: &str, ctx: &EvalContext, game: &GameState) -> (r:
        ValidationResult)
        ensures
            r is SyntaxError <==> !cond_syntax_ok(self.condition_type),
            r is Valid <==> cond_valid(*self, user_cmd@, *ctx, game.flags@, game.variables@),
            r matches ValidationResult::LogicError(m) ==> m@ == cond_message(*self),
    {
        let base: Option<bool> = match &self.condition_type {
            ConditionType::CommandMatches { pattern } => {
                regex_is_match(pattern.as_str(), user_cmd)
            },
            ConditionType::HistoryContains { pattern } => {
                history_scan(pattern.as_str(), &ctx.history)
            },
            ConditionType::WorkingDir { path } => {
                regex_is_match(path.as_str(), ctx.cwd.as_str())
            },
            ConditionType::EnvVarEquals { name, value } => {
                Some(env_equals(&ctx.env_vars, name.as_str(), value.as_str()))
            },
            ConditionType::FileExists { path } => {
                Some(
                    match find_file(&ctx.files, path.as_str()) {
                        Some(f) => f.exists,
                        None => false,
                    },
                )
            },
            ConditionType::FileMissing { path } => {
                Some(
                    match find_file(&ctx.files, path.as_str()) {
                        Some(f) => !f.exists,
                        None => true,
                    },
                )
            },
            ConditionType::IsDirectory { path } => {
                Some(
                    match find_file(&ctx.files, path.as_str()) {
                        Some(f) => f.exists && f.is_dir,
                        None => false,
                    },
                )
            },
            ConditionType::IsFile { path } => {
                Some(
                    match find_file(&ctx.files, path.as_str()) {
                        Some(f) => f.exists && f.is_file,
                        None => false,
                    },
                )
            },
            ConditionType::IsExecutable { path } => {
                Some(
                    match find_file(&ctx.files, path.as_str()) {
                        Some(f) => f.exists && f.is_executable,
                        None => false,
                    },
                )
            },
            ConditionType::FileIsEmpty { path } => {
                Some(
                    match find_file(&ctx.files, path.as_str()) {
                        Some(f) => f.exists && f.is_empty,
                        None => false,
                    },
                )
            },
            ConditionType::FileContentMatches { path, pattern } => {
                content_match(&ctx.files, path.as_str(), pattern.as_str())
            },
            ConditionType::FlagIsTrue { key } => {
                Some(
                    match game.get_flag(key.as_str()) {
                        Some(b) => b,
                        None => false,
                    },
                )
            },
            ConditionType::VarEquals { key, value } => {
                Some(
                    match game.get_var(key.as_str()) {
                        Some(v) => v == *value,
                        None => false,
                    },
                )
            },
            ConditionType::VarGreaterThan { key, value } => {
                Some(
                    match game.get_var(key.as_str()) {
                        Some(v) => v > *value,
                        None => false,
                    },
                )
            },
            ConditionType::VarLessThan { key, value } => {
                Some(
                    match game.get_var(key.as_str()) {
                        Some(v) => v < *value,
                        None => false,
                    },
                )
            },
        };
        match base {
            None => ValidationResult::SyntaxError,
            Some(b) => {
                if b != self.negate {
                    ValidationResult::Valid
                } else {
                    ValidationResult::LogicError(self.failure_message())
                }
            },
        }
    }
}

/// Every input-class condition of the sequence is valid; vacuously true when
/// the task has none. This is the first pass of the interception protocol:
/// when it fails, the command is simply not the one the task watches for.
pub open spec fn pass1_matched(
    cs: Seq<Condition>,
    cmd: Seq<char>,
    ctx: EvalContext,
    flags: Seq<(String, bool)>,
    vars: Seq<(String, i64)>,
) -> bool {
    forall|i: int|
        0 <= i < cs.len() && is_input_cond((#[trigger] cs[i]).condition_type) ==> cond_valid(
            cs[i],
            cmd,
            ctx,
            flags,
            vars,
        )
}

/// Every condition of the sequence is valid: the task's aggregate success.
pub open spec fn all_valid(
    cs: Seq<Condition>,
    cmd: Seq<char>,
    ctx: EvalContext,
    flags: Seq<(String, bool)>,
    vars: Seq<(String, i64)>,
) -> bool {
    forall|i: int| 0 <= i < cs.len() ==> cond_valid(#[trigger] cs[i], cmd, ctx, flags, vars)
}

impl Objective {
    /// The interception gate: does the intercepted command concern this
    /// task at all? Only the input-class conditions are consulted.
    #[verifier::loop_isolation(false)]
    pub fn command_applies(&self, user_cmd: &str, ctx: &EvalContext, game: &GameState) -> (r: bool)
        ensures
            r == pass1_matched(self.conditions@, user_cmd@, *ctx, game.flags@, game.variables@),
    {
        let cs = &self.conditions;
        let mut i: usize = 0;
        while i < cs.len()
            invariant
                i <= cs@.len(),
                forall|j: int|
                    0 <= j < i && is_input_cond((#[trigger] cs@[j]).condition_type) ==> cond_valid(
                        cs@[j],
                        user_cmd@,
                        *ctx,
                        game.flags@,
                        game.variables@,
                    ),
            decreases cs@.len() - i,
        {
            let is_input = match &cs[i].condition_type {
                ConditionType::CommandMatches { .. } => true,
                ConditionType::HistoryContains { .. } => true,
                _ => false,
            };
            if is_input {
                match cs[i].check(user_cmd, ctx, game) {
                    ValidationResult::Valid => {},
                    _ => {
                        return false;
                    },
                }
            }
            i += 1;
        }
        true
    }

    /// Full evaluation: every condition in declared order, reporting the
    /// verdict of the first one that is not valid.
    #[verifier::loop_isolation(false)]
    pub fn evaluate(&self, user_cmd: &str, ctx: &EvalContext, game: &GameState) -> (r:
        ValidationResult)
        ensures
            r is Valid <==> all_valid(self.conditions@, user_cmd@, *ctx, game.flags@, game.variables@),
            !(r is Valid) ==> ({
                let cs = self.conditions@;
                match first_invalid(cs, user_cmd@, *ctx, game.flags@, game.variables@) {
                    Some(i) => {
                        &&& (r is SyntaxError <==> !cond_syntax_ok(cs[i].condition_type))
                        &&& (r matches ValidationResult::LogicError(m) ==> m@ == cond_message(
                            cs[i],
                        ))
                    },
                    None => false,
                }
            }),
    {
        let cs = &self.conditions;
        let mut i: usize = 0;
        while i < cs.len()
            invariant
                i <= cs@.len(),
                forall|j: int|
                    0 <= j < i ==> cond_valid(
                        #[trigger] cs@[j],
                        user_cmd@,
                        *ctx,
                        game.flags@,
                        game.variables@,
                    ),
            decreases cs@.len() - i,
        {
            let verdict = cs[i].check(user_cmd, ctx, game);
            match verdict {
                ValidationResult::Valid => {},
                other => {
                    proof {
                        lemma_first_invalid_at(
                            cs@,
                            user_cmd@,
                            *ctx,
                            game.flags@,
                            game.variables@,
                            i as int,
                        );
                    }
                    return other;
                },
            }
            i += 1;
        }
        proof {
            lemma_first_invalid_at(
                cs@,
                user_cmd@,
                *ctx,
                game.flags@,
                game.variables@,
                cs@.len() as int,
            );
        }
        ValidationResult::Valid
    }
}

} // verus!
