//! The content model: an immutable course tree of quests, chapters and tasks,
//! its well-formedness rules, the schema fallback chain, and the library that
//! resolves loaded courses by name.

use crate::actions::SetupAction;
use vstd::prelude::*;
use vstd::string::StrSliceExecFns;

verus! {

/// A state mutation granted when a task succeeds.
#[allow(inconsistent_fields)]
pub enum Reward {
    SetFlag { key: String, value: bool },
    SetVar { key: String, value: i64 },
    /// Saturating addition onto the variable's current value (missing
    /// variables count as zero).
    AddVar { key: String, delta: i64 },
}

/// The closed set of checks a condition can perform.
///
/// Pattern-bearing variants treat a malformed pattern as a syntax error,
/// never as a crash. Path-bearing variants are answered from a snapshot of
/// the sandbox filesystem; `WorkingDir` and `EnvVarEquals` deliberately read
/// the real process environment snapshot instead, so a task can reason about
/// where the user's shell actually is.
#[allow(inconsistent_fields)]
pub enum ConditionType {
    /// The intercepted command matches the pattern.
    CommandMatches { pattern: String },
    /// Some line of the session command history matches the pattern.
    HistoryContains { pattern: String },
    /// The real working directory matches the pattern.
    WorkingDir { path: String },
    /// The named environment variable is present and equals the value.
    EnvVarEquals { name: String, value: String },
    /// The sandbox path exists.
    FileExists { path: String },
    /// The sandbox path does not exist.
    FileMissing { path: String },
    /// The sandbox path exists and is a directory.
    IsDirectory { path: String },
    /// The sandbox path exists and is a regular file.
    IsFile { path: String },
    /// The sandbox path exists and is executable.
    IsExecutable { path: String },
    /// The sandbox path exists and is empty.
    FileIsEmpty { path: String },
    /// The sandbox file is readable and its content matches the pattern.
    FileContentMatches { path: String, pattern: String },
    /// The session flag is set to true.
    FlagIsTrue { key: String },
    /// The session variable is present and equals the value.
    VarEquals { key: String, value: i64 },
    /// The session variable is present and is greater than the value.
    VarGreaterThan { key: String, value: i64 },
    /// The session variable is present and is less than the value.
    VarLessThan { key: String, value: i64 },
}

/// A check with its polarity and an optional author-supplied failure message.
pub struct Condition {
    pub condition_type: ConditionType,
    pub negate: bool,
    pub failure_msg: Option<String>,
}

/// The three-valued verdict of evaluating one condition (or a whole task).
pub enum ValidationResult {
    Valid,
    /// The condition's pattern is malformed; the condition can never hold.
    SyntaxError,
    /// The condition is well-formed but unmet; carries the failure message.
    LogicError(String),
}

/// A single task: what the user must do, how success is detected, and what
/// it grants. All conditions must hold (logical AND).
pub struct Objective {
    pub title: String,
    pub description: String,
    pub instruction: String,
    pub success_msg: String,
    pub hint: Option<String>,
    pub conditions: Vec<Condition>,
    pub rewards: Vec<Reward>,
}

/// A chapter: intro/outro text, world setup to run on entry, and a
/// non-empty ordered sequence of tasks.
pub struct Mission {
    pub title: String,
    pub intro: String,
    pub outro: String,
    pub setup_actions: Vec<SetupAction>,
    pub tasks: Vec<Objective>,
}

/// A quest: an identified, ordered sequence of chapters.
pub struct Quest {
    pub id: String,
    pub title: String,
    pub requires_sandbox: bool,
    pub chapters: Vec<Mission>,
}

/// A course, the root of one content file. The version is an opaque string
/// compared by equality only.
pub struct Module {
    pub title: String,
    pub author: String,
    pub version: String,
    pub quests: Vec<Quest>,
}

/// A malformed or unloadable content file; fatal for that file only.
#[derive(Debug)]
pub struct ContentError {
    pub message: String,
}

/// A chapter is well-formed when it has at least one task: a chapter with
/// zero tasks is a content error and is rejected at load time.
pub open spec fn mission_wf(m: Mission) -> bool {
    m.tasks@.len() > 0
}

/// A quest is well-formed when it has at least one chapter and every chapter
/// is well-formed.
pub open spec fn quest_wf(q: Quest) -> bool {
    &&& q.chapters@.len() > 0
    &&& forall|i: int| 0 <= i < q.chapters@.len() ==> mission_wf(#[trigger] q.chapters@[i])
}

/// A course is well-formed when every quest in it is well-formed. A course
/// with no quests at all is accepted but can never have an active task.
pub open spec fn module_wf(m: Module) -> bool {
    forall|i: int| 0 <= i < m.quests@.len() ==> quest_wf(#[trigger] m.quests@[i])
}

impl Mission {
    /// Rejects a chapter with zero tasks.
    pub fn validate(&self) -> (r: bool)
        ensures
            r == mission_wf(*self),
    {
        self.tasks.len() > 0
    }
}

impl Quest {
    /// Rejects a quest with zero chapters or with a task-less chapter.
    pub fn validate(&self) -> (r: bool)
        ensures
            r == quest_wf(*self),
    {
        if self.chapters.len() == 0 {
            return false;
        }
        let mut i: usize = 0;
        while i < self.chapters.len()
            invariant
                i <= self.chapters@.len(),
                forall|j: int| 0 <= j < i ==> mission_wf(#[trigger] self.chapters@[j]),
            decreases self.chapters@.len() - i,
        {
            if !self.chapters[i].validate() {
                return false;
            }
            i += 1;
        }
        true
    }
}

impl Module {
    /// Content validation: every quest must be well-formed, so that an
    /// in-range progression position always denotes a real task.
    pub fn validate(&self) -> (r: bool)
        ensures
            r == module_wf(*self),
    {
        let mut i: usize = 0;
        while i < self.quests.len()
            invariant
                i <= self.quests@.len(),
                forall|j: int| 0 <= j < i ==> quest_wf(#[trigger] self.quests@[j]),
            decreases self.quests@.len() - i,
        {
            if !self.quests[i].validate() {
                return false;
            }
            i += 1;
        }
        true
    }

    /// The backward-compatibility fallback chain for content files: the
    /// richest schema wins. The caller attempts, in order, a full-course
    /// parse, a bare quest-list parse, and a single-quest parse, and hands
    /// every outcome in; the first success is taken as-is, a bare list or a
    /// single quest is wrapped into an untitled course, and if every attempt
    /// failed the error carries the caller's diagnostic text.
    pub fn resolve_parse_chain(
        full: Option<Module>,
        quest_list: Option<Vec<Quest>>,
        single: Option<Quest>,
        detail: String,
    ) -> (r: Result<Module, ContentError>)
        ensures
            full matches Some(m) ==> (r matches Ok(out) && out == m),
            full is None ==> (quest_list matches Some(qs) ==> (r matches Ok(out)
                && out.quests == qs
                && out.title@ == Seq::<char>::empty() && out.author@ == Seq::<char>::empty()
                && out.version@ == Seq::<char>::empty())),
            full is None && quest_list is None ==> (single matches Some(q) ==> (r matches Ok(out)
                && out.quests@.len() == 1 && out.quests@[0] == q
                && out.title@ == Seq::<char>::empty() && out.author@ == Seq::<char>::empty()
                && out.version@ == Seq::<char>::empty())),
            full is None && quest_list is None && single is None ==> (r matches Err(e)
                && e.message == detail),
    {
        match full {
            Some(m) => Ok(m),
            None => match quest_list {
                Some(qs) => Ok(Module {
                    title: String::new(),
                    author: String::new(),
                    version: String::new(),
                    quests: qs,
                }),
                None => match single {
                    Some(q) => {
                        let mut qs: Vec<Quest> = Vec::new();
                        qs.push(q);
                        Ok(Module {
                            title: String::new(),
                            author: String::new(),
                            version: String::new(),
                            quests: qs,
                        })
                    },
                    None => Err(ContentError { message: detail }),
                },
            },
        }
    }
}

/// The title a course is listed under: its own, or the file stem when the
/// title is empty.
pub open spec fn display_name(e: (String, Module)) -> Seq<char> {
    if e.1.title@.len() == 0 {
        e.0@
    } else {
        e.1.title@
    }
}

/// A catalogue row: the stem and the display title.
pub open spec fn display_pair(e: (String, Module)) -> (Seq<char>, Seq<char>) {
    (e.0@, display_name(e))
}

/// Inserting anywhere in a sequence inserts into its multiset.
proof fn lemma_insert_to_multiset<A>(s: Seq<A>, k: int, e: A)
    requires
        0 <= k <= s.len(),
    ensures
        s.insert(k, e).to_multiset() == s.to_multiset().insert(e),
{
    broadcast use vstd::seq_lib::group_to_multiset_ensures;

    let s2 = s.insert(k, e);
    assert(s2.remove(k) =~= s);
    assert(s2.remove(k).to_multiset() =~= s2.to_multiset().remove(s2[k]));
    assert(s2[k] == e);
    assert(s2.contains(e)) by {
        assert(s2[k] == e);
    }
    assert(s2.to_multiset().count(e) > 0);
    assert(s2.to_multiset() =~= s.to_multiset().insert(e));
}

/// Pushing at the end inserts into the multiset.
proof fn lemma_push_to_multiset<A>(s: Seq<A>, e: A)
    ensures
        s.push(e).to_multiset() == s.to_multiset().insert(e),
{
    broadcast use vstd::seq_lib::group_to_multiset_ensures;

    assert(s.push(e).to_multiset() =~= s.to_multiset().insert(e));
}

/// First course registered under the given stem name, if any.
pub open spec fn lookup_module(mods: Seq<(String, Module)>, name: Seq<char>) -> Option<Module>
    decreases mods.len(),
{
    if mods.len() == 0 {
        None
    } else if mods[0].0@ == name {
        Some(mods[0].1)
    } else {
        lookup_module(mods.drop_first(), name)
    }
}

/// A set of loaded courses, each under the stem name of the file it came
/// from. Discovery and parsing happen outside; corrupt files are simply
/// never registered, so they cannot abort resolution of valid ones.
pub struct Library {
    pub root_dir: String,
    pub modules: Vec<(String, Module)>,
}

impl Library {
    /// An empty library rooted at a content directory.
    pub fn new(root_dir: String) -> (r: Library)
        ensures
            r.root_dir == root_dir,
            r.modules@.len() == 0,
    {
        Library { root_dir, modules: Vec::new() }
    }

    /// Registers one successfully loaded course under its file stem.
    pub fn register_module(&mut self, stem: String, module: Module)
        ensures
            final(self).root_dir == old(self).root_dir,
            final(self).modules@ == old(self).modules@.push((stem, module)),
    {
        self.modules.push((stem, module));
    }

    /// The name-sorted catalogue: one (stem, display title) pair for each
    /// registered course, ordered by display title. The display title is
    /// the course's own title, or the file stem when the title is empty.
    #[verifier::loop_isolation(false)]
    #[verifier::rlimit(60)]
    pub fn list_modules(&self) -> (r: Vec<(String, String)>)
        ensures
            r@.len() == self.modules@.len(),
            (r@.map_values(|e: (String, String)| (e.0@, e.1@)).to_multiset() == self.modules@
                .map_values(|e: (String, Module)| display_pair(e)).to_multiset()),
            forall|x: int|
                0 <= x && x + 1 < r@.len() ==> crate::strutil::lex_le(
                    (#[trigger] r@[x]).1@,
                    r@[x + 1].1@,
                ),
    {
        let mut out: Vec<(String, String)> = Vec::new();
        let mut i: usize = 0;
        proof {
            assert(self.modules@.take(0).map_values(|e: (String, Module)| display_pair(e))
                =~= Seq::<(Seq<char>, Seq<char>)>::empty());
            assert(out@.map_values(|e: (String, String)| (e.0@, e.1@)) =~= Seq::<(
                Seq<char>,
                Seq<char>,
            )>::empty());
        }
        while i < self.modules.len()
            invariant
                i <= self.modules@.len(),
                out@.len() == i,
                (out@.map_values(|e: (String, String)| (e.0@, e.1@)).to_multiset()
                    == self.modules@.take(i as int).map_values(
                    |e: (String, Module)| display_pair(e),
                ).to_multiset()),
                forall|x: int|
                    0 <= x && x + 1 < out@.len() ==> crate::strutil::lex_le(
                        (#[trigger] out@[x]).1@,
                        out@[x + 1].1@,
                    ),
            decreases self.modules@.len() - i,
        {
            let stem = self.modules[i].0.clone();
            let display = if self.modules[i].1.title.as_str().is_empty() {
                self.modules[i].0.clone()
            } else {
                self.modules[i].1.title.clone()
            };
            proof {
                assert((stem@, display@) == display_pair(self.modules@[i as int]));
            }
            let mut k: usize = 0;
            while k < out.len() && crate::strutil::str_lex_le(out[k].1.as_str(), display.as_str())
                invariant
                    k <= out@.len(),
                    forall|x: int|
                        0 <= x < k ==> crate::strutil::lex_le((#[trigger] out@[x]).1@, display@),
                decreases out@.len() - k,
            {
                k += 1;
            }
            proof {
                if k < out@.len() {
                    crate::strutil::lemma_lex_total(out@[k as int].1@, display@);
                    assert(crate::strutil::lex_le(display@, out@[k as int].1@));
                }
            }
            let ghost out_before = out@;
            let ghost newpair = (stem@, display@);
            out.insert(k, (stem, display));
            proof {
                assert(out@ == out_before.insert(k as int, out@[k as int]));
                assert(out@.map_values(|e: (String, String)| (e.0@, e.1@)) =~= out_before
                    .map_values(|e: (String, String)| (e.0@, e.1@)).insert(k as int, newpair));
                lemma_insert_to_multiset(
                    out_before.map_values(|e: (String, String)| (e.0@, e.1@)),
                    k as int,
                    newpair,
                );
                assert(self.modules@.take(i as int + 1) =~= self.modules@.take(i as int).push(
                    self.modules@[i as int],
                ));
                assert(self.modules@.take(i as int + 1).map_values(
                    |e: (String, Module)| display_pair(e),
                ) =~= self.modules@.take(i as int).map_values(
                    |e: (String, Module)| display_pair(e),
                ).push(newpair));
                lemma_push_to_multiset(
                    self.modules@.take(i as int).map_values(
                        |e: (String, Module)| display_pair(e),
                    ),
                    newpair,
                );
                assert forall|x: int|
                    0 <= x && x + 1 < out@.len() implies crate::strutil::lex_le(
                    (#[trigger] out@[x]).1@,
                    out@[x + 1].1@,
                ) by {
                    if x + 1 < k {
                        assert(out@[x] == out_before[x]);
                        assert(out@[x + 1] == out_before[x + 1]);
                    } else if x + 1 == k {
                        assert(out@[x] == out_before[x]);
                        assert(out@[x + 1].1@ == display@);
                    } else if x == k {
                        assert(out@[x].1@ == display@);
                        assert(out@[x + 1] == out_before[x]);
                    } else {
                        assert(out@[x] == out_before[x - 1]);
                        assert(out@[x + 1] == out_before[x]);
                    }
                }
            }
            i += 1;
        }
        proof {
            assert(self.modules@.take(self.modules@.len() as int) =~= self.modules@);
        }
        out
    }

    /// Resolves a course by stem name: the first registration wins.
    pub fn get_module(&self, module_name: &str) -> (r: Option<&Module>)
        ensures
            match r {
                Some(m) => lookup_module(self.modules@, module_name@) == Some(*m),
                None => lookup_module(self.modules@, module_name@) is None,
            },
    {
        proof {
            assert(self.modules@.skip(0) =~= self.modules@);
        }
        let mut i: usize = 0;
        while i < self.modules.len()
            invariant
                i <= self.modules@.len(),
                lookup_module(self.modules@.skip(i as int), module_name@)
                    == lookup_module(self.modules@, module_name@),
            decreases self.modules@.len() - i,
        {
            proof {
                assert(self.modules@.skip(i as int).drop_first()
                    =~= self.modules@.skip(i as int + 1));
            }
            if crate::strutil::str_eq(self.modules[i].0.as_str(), module_name) {
                proof {
                    assert(self.modules@.skip(i as int)[0] == self.modules@[i as int]);
                }
                return Some(&self.modules[i].1);
            }
            i += 1;
        }
        None
    }
}

} // verus!
