//! The driver-facing interface: one call per intercepted command. It
//! resolves the active task, runs the two-pass interception protocol,
//! applies rewards, advances the bookmark across task, chapter and quest
//! boundaries, and reports which chapter (if any) was newly entered so the
//! caller can run its setup actions and persist the state.

use crate::conditions::{
    all_valid, cond_message, cond_syntax_ok, first_invalid, pass1_matched, EvalContext,
};
use crate::content::{module_wf, Module, Quest, ValidationResult};
use crate::state::{apply_rewards_spec, GameState};
use vstd::prelude::*;

verus! {

/// Index of the first quest carrying the id, if any.
pub open spec fn quest_index(quests: Seq<Quest>, id: Seq<char>) -> Option<int>
    decreases quests.len(),
{
    if quests.len() == 0 {
        None
    } else if quests[0].id@ == id {
        Some(0)
    } else {
        match quest_index(quests.drop_first(), id) {
            Some(i) => Some(i + 1),
            None => None,
        }
    }
}

/// If no quest before `i` carries the id, the first index carrying it is
/// `i` when quest `i` does, and there is none when `i` runs off the end.
proof fn lemma_quest_index_at(quests: Seq<Quest>, id: Seq<char>, i: int)
    requires
        0 <= i <= quests.len(),
        forall|j: int| 0 <= j < i ==> (#[trigger] quests[j]).id@ != id,
        i < quests.len() ==> quests[i].id@ == id,
    ensures
        i < quests.len() ==> quest_index(quests, id) == Some(i),
        i == quests.len() ==> quest_index(quests, id) is None,
    decreases quests.len(),
{
    if quests.len() > 0 {
        if i == 0 {
        } else {
            lemma_quest_index_at(quests.drop_first(), id, i - 1);
        }
    }
}

/// If some quest carries the id, the lookup finds one (the first), and
/// the one it finds carries the id.
proof fn lemma_quest_index_found(quests: Seq<Quest>, id: Seq<char>, k: int)
    requires
        0 <= k < quests.len(),
        quests[k].id@ == id,
    ensures
        quest_index(quests, id) matches Some(f) && 0 <= f < quests.len() && quests[f].id@ == id,
    decreases quests.len(),
{
    if quests[0].id@ == id {
    } else {
        lemma_quest_index_found(quests.drop_first(), id, k - 1);
    }
}

/// First quest carrying the id.
#[verifier::loop_isolation(false)]
pub fn find_quest(quests: &Vec<Quest>, id: &str) -> (r: Option<usize>)
    ensures
        match r {
            Some(i) => quest_index(quests@, id@) == Some(i as int) && i < quests@.len(),
            None => quest_index(quests@, id@) is None,
        },
{
    let mut i: usize = 0;
    while i < quests.len()
        invariant
            i <= quests@.len(),
            forall|j: int| 0 <= j < i ==> (#[trigger] quests@[j]).id@ != id@,
        decreases quests@.len() - i,
    {
        if crate::strutil::str_eq(quests[i].id.as_str(), id) {
            proof {
                lemma_quest_index_at(quests@, id@, i as int);
            }
            return Some(i);
        }
        i += 1;
    }
    proof {
        lemma_quest_index_at(quests@, id@, quests@.len() as int);
    }
    None
}

/// The quest id the record points at once it is synchronized with the
/// course: an id that no longer resolves (or a fresh record's empty id)
/// auto-selects the first quest; a course without quests leaves it alone.
pub open spec fn synced_quest_id(course: Module, st: GameState) -> Seq<char> {
    if quest_index(course.quests@, st.current_quest_id@) is Some {
        st.current_quest_id@
    } else if course.quests@.len() > 0 {
        course.quests@[0].id@
    } else {
        st.current_quest_id@
    }
}

/// The quest index after synchronization.
pub open spec fn synced_qi(course: Module, st: GameState) -> Option<int> {
    match quest_index(course.quests@, st.current_quest_id@) {
        Some(i) => Some(i),
        None => if course.quests@.len() > 0 {
            Some(0)
        } else {
            None
        },
    }
}

/// The chapter index after synchronization: auto-selection rewinds it.
pub open spec fn synced_ci(course: Module, st: GameState) -> int {
    if quest_index(course.quests@, st.current_quest_id@) is Some || course.quests@.len() == 0 {
        st.current_chapter_index as int
    } else {
        0
    }
}

/// The task index after synchronization: auto-selection rewinds it.
pub open spec fn synced_ti(course: Module, st: GameState) -> int {
    if quest_index(course.quests@, st.current_quest_id@) is Some || course.quests@.len() == 0 {
        st.current_task_index as int
    } else {
        0
    }
}

/// The synchronized record still denotes a real task of the course.
pub open spec fn active_exists(course: Module, st: GameState) -> bool {
    match synced_qi(course, st) {
        Some(qi) => {
            &&& synced_ci(course, st) < course.quests@[qi].chapters@.len()
            &&& synced_ti(course, st) < course.quests@[qi].chapters@[synced_ci(
                course,
                st,
            )].tasks@.len()
        },
        None => false,
    }
}

/// The task the synchronized record denotes.
pub open spec fn the_active_task(course: Module, st: GameState) -> crate::content::Objective
    recommends
        active_exists(course, st),
{
    course.quests@[synced_qi(course, st)->Some_0].chapters@[synced_ci(course, st)].tasks@[synced_ti(
        course,
        st,
    )]
}

/// The new record is the old one synchronized with the course: session data
/// kept, identifiers brought up to date, position auto-selected if the old
/// quest id no longer resolves.
pub open spec fn is_synced_of(course: Module, st_old: GameState, st_new: GameState) -> bool {
    &&& st_new.flags == st_old.flags
    &&& st_new.variables == st_old.variables
    &&& st_new.is_finished == st_old.is_finished
    &&& st_new.current_course_id@ == course.title@
    &&& st_new.course_version_seen@ == course.version@
    &&& st_new.current_quest_id@ == synced_quest_id(course, st_old)
    &&& st_new.current_chapter_index == synced_ci(course, st_old)
    &&& st_new.current_task_index == synced_ti(course, st_old)
}

/// Brings the record up to date with the loaded course: records the course
/// identity and version (the version is opaque, compared by equality only),
/// and auto-selects the first quest when the recorded id no longer
/// resolves. Reports whether anything changed, so the caller knows to
/// persist.
pub fn sync_with_course(state: &mut GameState, course: &Module) -> (changed: bool)
    ensures
        is_synced_of(*course, *old(state), *final(state)),
        changed == (old(state).current_course_id@ != course.title@ || old(
            state,
        ).course_version_seen@ != course.version@ || (quest_index(
            course.quests@,
            old(state).current_quest_id@,
        ) is None && course.quests@.len() > 0)),
{
    let mut changed = false;
    if !crate::strutil::str_eq(state.current_course_id.as_str(), course.title.as_str()) {
        state.current_course_id = course.title.clone();
        changed = true;
    }
    if !crate::strutil::str_eq(state.course_version_seen.as_str(), course.version.as_str()) {
        state.course_version_seen = course.version.clone();
        changed = true;
    }
    match find_quest(&course.quests, state.current_quest_id.as_str()) {
        Some(_) => {},
        None => {
            if course.quests.len() > 0 {
                state.current_quest_id = course.quests[0].id.clone();
                state.current_chapter_index = 0;
                state.current_task_index = 0;
                changed = true;
            }
        },
    }
    changed
}

/// What one check tells the caller to do with the command.
pub enum CheckOutcome {
    /// The command does not concern the active task: let it run unhindered.
    Allow,
    /// The command concerns the active task but a condition is unmet: block
    /// it and surface the failure message and the task's hint.
    Block { message: String, hint: Option<String> },
    /// Every condition held: rewards were applied and the bookmark moved.
    Advanced { success_msg: String, course_finished: bool },
}

/// One check's outcome, the chapter newly entered by the transition (whose
/// setup actions the caller should plan and run), and whether the record
/// changed and should be persisted.
pub struct CheckReport {
    pub outcome: CheckOutcome,
    pub entered_chapter: Option<(usize, usize)>,
    pub state_changed: bool,
}

/// The hint of the task, duplicated for the caller.
fn clone_hint(hint: &Option<String>) -> (r: Option<String>)
    ensures
        r is Some <==> hint is Some,
        r matches Some(h) ==> (hint matches Some(h2) && h@ == h2@),
{
    match hint {
        Some(h) => Some(h.clone()),
        None => None,
    }
}

/// Checks one intercepted command against the active task.
///
/// A finished record is never touched again. Otherwise the record is first
/// synchronized with the course; a record denoting no real task lets every
/// command pass. The first pass looks only at the input-class conditions:
/// when they do not all hold, the command is not the one the task watches
/// for and is allowed, whatever the other conditions would say. Only then
/// are all conditions evaluated in declared order; the first unmet one
/// blocks the command with its message. When every condition holds, the
/// task's rewards are applied exactly once, the bookmark advances, chapter
/// and quest boundaries roll over, and finishing the last quest enters the
/// terminal state.
pub fn check_command(
    course: &Module,
    state: &mut GameState,
    user_cmd: &str,
    ctx: &EvalContext,
) -> (r: CheckReport)
    ensures
        old(state).is_finished ==> (*final(state) == *old(state) && r.outcome is Allow
            && r.entered_chapter is None && !r.state_changed),
        !old(state).is_finished && !active_exists(*course, *old(state)) ==> (r.outcome is Allow
            && r.entered_chapter is None && is_synced_of(*course, *old(state), *final(state))),
        !old(state).is_finished && active_exists(*course, *old(state)) && !pass1_matched(
            the_active_task(*course, *old(state)).conditions@,
            user_cmd@,
            *ctx,
            old(state).flags@,
            old(state).variables@,
        ) ==> (r.outcome is Allow && r.entered_chapter is None && is_synced_of(
            *course,
            *old(state),
            *final(state),
        )),
        !old(state).is_finished && active_exists(*course, *old(state)) && pass1_matched(
            the_active_task(*course, *old(state)).conditions@,
            user_cmd@,
            *ctx,
            old(state).flags@,
            old(state).variables@,
        ) && !all_valid(
            the_active_task(*course, *old(state)).conditions@,
            user_cmd@,
            *ctx,
            old(state).flags@,
            old(state).variables@,
        ) ==> (r.outcome is Block && r.entered_chapter is None && is_synced_of(
            *course,
            *old(state),
            *final(state),
        ) && ({
            let task = the_active_task(*course, *old(state));
            let cs = task.conditions@;
            match first_invalid(cs, user_cmd@, *ctx, old(state).flags@, old(state).variables@) {
                Some(i) => (r.outcome matches CheckOutcome::Block { message, hint } ==> ({
                    &&& (!cond_syntax_ok(cs[i].condition_type) ==> message@
                        == "Malformed condition pattern"@)
                    &&& (cond_syntax_ok(cs[i].condition_type) ==> message@ == cond_message(cs[i]))
                    &&& (hint is Some <==> task.hint is Some)
                    &&& (hint matches Some(h) ==> (task.hint matches Some(h2) && h@ == h2@))
                })),
                None => false,
            }
        })),
        !old(state).is_finished && module_wf(*course) && active_exists(*course, *old(state))
            ==> (final(state).is_finished || active_exists(*course, *final(state))),
        !old(state).is_finished && active_exists(*course, *old(state)) && pass1_matched(
            the_active_task(*course, *old(state)).conditions@,
            user_cmd@,
            *ctx,
            old(state).flags@,
            old(state).variables@,
        ) && all_valid(
            the_active_task(*course, *old(state)).conditions@,
            user_cmd@,
            *ctx,
            old(state).flags@,
            old(state).variables@,
        ) ==> ({
            let task = the_active_task(*course, *old(state));
            let qi = synced_qi(*course, *old(state))->Some_0;
            let ci = synced_ci(*course, *old(state));
            let ti = synced_ti(*course, *old(state));
            let q = course.quests@[qi];
            let ch = q.chapters@[ci];
            &&& r.state_changed
            &&& (r.outcome matches CheckOutcome::Advanced { success_msg, course_finished }
                ==> success_msg@ == task.success_msg@)
            &&& r.outcome is Advanced
            &&& (final(state).flags_map(), final(state).vars_map()) == apply_rewards_spec(
                old(state).flags_map(),
                old(state).vars_map(),
                task.rewards@,
            )
            &&& final(state).current_course_id@ == course.title@
            &&& final(state).course_version_seen@ == course.version@
            &&& (ti + 1 < ch.tasks@.len() ==> (final(state).current_quest_id@ == synced_quest_id(
                *course,
                *old(state),
            ) && final(state).current_chapter_index == ci && final(state).current_task_index == ti
                + 1 && final(state).is_finished == old(state).is_finished
                && r.entered_chapter is None))
            &&& (ti + 1 == ch.tasks@.len() && ci + 1 < q.chapters@.len() ==> (final(state).current_quest_id@ == synced_quest_id(*course, *old(state)) && final(state).current_chapter_index == ci + 1 && final(state).current_task_index == 0 && final(state).is_finished == old(state).is_finished && (r.entered_chapter matches Some(p) && p.0
                == qi && p.1 == ci + 1)))
            &&& (ti + 1 == ch.tasks@.len() && ci + 1 == q.chapters@.len() && qi + 1
                < course.quests@.len() ==> (final(state).current_quest_id@ == course.quests@[qi
                + 1].id@ && final(state).current_chapter_index == 0 && final(state).current_task_index == 0 && final(state).is_finished == old(state).is_finished && (
            r.entered_chapter matches Some(p) && p.0 == qi + 1 && p.1 == 0)))
            &&& (ti + 1 == ch.tasks@.len() && ci + 1 == q.chapters@.len() && qi + 1
                == course.quests@.len() ==> (final(state).is_finished && (
            r.outcome matches CheckOutcome::Advanced { success_msg, course_finished }
                ==> course_finished) && r.entered_chapter is None))
        }),
{
    if state.is_finished {
        return CheckReport {
            outcome: CheckOutcome::Allow,
            entered_chapter: None,
            state_changed: false,
        };
    }
    let changed = sync_with_course(state, course);
    let qi = match find_quest(&course.quests, state.current_quest_id.as_str()) {
        Some(qi) => qi,
        None => {
            return CheckReport {
                outcome: CheckOutcome::Allow,
                entered_chapter: None,
                state_changed: changed,
            };
        },
    };
    proof {
        assert(synced_qi(*course, *old(state)) == Some(qi as int));
    }
    let ci = state.current_chapter_index;
    let ti = state.current_task_index;
    if ci >= course.quests[qi].chapters.len() {
        return CheckReport {
            outcome: CheckOutcome::Allow,
            entered_chapter: None,
            state_changed: changed,
        };
    }
    if ti >= course.quests[qi].chapters[ci].tasks.len() {
        return CheckReport {
            outcome: CheckOutcome::Allow,
            entered_chapter: None,
            state_changed: changed,
        };
    }
    proof {
        assert(active_exists(*course, *state));
    }
    let task = &course.quests[qi].chapters[ci].tasks[ti];
    if !task.command_applies(user_cmd, ctx, state) {
        return CheckReport {
            outcome: CheckOutcome::Allow,
            entered_chapter: None,
            state_changed: changed,
        };
    }
    match task.evaluate(user_cmd, ctx, state) {
        ValidationResult::Valid => {
            state.apply_rewards(&task.rewards);
            let tasks_len = course.quests[qi].chapters[ci].tasks.len();
            state.advance_task();
            let mut entered: Option<(usize, usize)> = None;
            let mut course_finished = false;
            if state.current_task_index >= tasks_len {
                state.advance_chapter();
                let chapters_len = course.quests[qi].chapters.len();
                if state.current_chapter_index >= chapters_len {
                    let quests_count = course.quests.len();
                    proof {
                        assert(qi < quests_count);
                    }
                    if qi + 1 < quests_count {
                        state.complete_current_quest(course.quests[qi + 1].id.as_str());
                        entered = Some((qi + 1, 0));
                        proof {
                            if module_wf(*course) {
                                lemma_quest_index_found(
                                    course.quests@,
                                    course.quests@[qi + 1].id@,
                                    qi as int + 1,
                                );
                                let f = quest_index(
                                    course.quests@,
                                    state.current_quest_id@,
                                )->Some_0;
                                assert(crate::content::quest_wf(course.quests@[f]));
                                assert(crate::content::mission_wf(
                                    course.quests@[f].chapters@[0],
                                ));
                                assert(active_exists(*course, *state));
                            }
                        }
                    } else {
                        state.mark_finished();
                        course_finished = true;
                    }
                } else {
                    entered = Some((qi, state.current_chapter_index));
                    proof {
                        if module_wf(*course) {
                            assert(crate::content::quest_wf(course.quests@[qi as int]));
                            assert(crate::content::mission_wf(
                                course.quests@[qi as int].chapters@[ci as int + 1],
                            ));
                            assert(active_exists(*course, *state));
                        }
                    }
                }
            } else {
                proof {
                    assert(active_exists(*course, *state));
                }
            }
            CheckReport {
                outcome: CheckOutcome::Advanced {
                    success_msg: task.success_msg.clone(),
                    course_finished,
                },
                entered_chapter: entered,
                state_changed: true,
            }
        },
        ValidationResult::SyntaxError => {
            CheckReport {
                outcome: CheckOutcome::Block {
                    message: "Malformed condition pattern".to_owned(),
                    hint: clone_hint(&task.hint),
                },
                entered_chapter: None,
                state_changed: changed,
            }
        },
        ValidationResult::LogicError(m) => {
            CheckReport {
                outcome: CheckOutcome::Block { message: m, hint: clone_hint(&task.hint) },
                entered_chapter: None,
                state_changed: changed,
            }
        },
    }
}

/// The indices denote a real task of the course.
pub open spec fn valid_position(course: Module, qi: int, ci: int, ti: int) -> bool {
    &&& 0 <= qi < course.quests@.len()
    &&& 0 <= ci < course.quests@[qi].chapters@.len()
    &&& 0 <= ti < course.quests@[qi].chapters@[ci].tasks@.len()
}

/// A well-formed course never leaves the bookmark dangling: advancing the
/// task index from a valid position, together with the boundary checks
/// that roll the chapter and the quest over, always lands on another valid
/// position — unless the advance ran off the last task of the last chapter
/// of the last quest, which is exactly when the course finishes. The task
/// index is never left pointing past the end of a chapter without the
/// chapter (and, at its own end, the quest) having advanced.
pub proof fn lemma_advance_stays_in_bounds(course: Module, qi: int, ci: int, ti: int)
    requires
        module_wf(course),
        valid_position(course, qi, ci, ti),
    ensures
        ti + 1 < course.quests@[qi].chapters@[ci].tasks@.len() ==> valid_position(
            course,
            qi,
            ci,
            ti + 1,
        ),
        ti + 1 == course.quests@[qi].chapters@[ci].tasks@.len() && ci + 1
            < course.quests@[qi].chapters@.len() ==> valid_position(course, qi, ci + 1, 0),
        ti + 1 == course.quests@[qi].chapters@[ci].tasks@.len() && ci + 1
            == course.quests@[qi].chapters@.len() && qi + 1 < course.quests@.len()
            ==> valid_position(course, qi + 1, 0, 0),
{
    assert(crate::content::quest_wf(course.quests@[qi]));
    if qi + 1 < course.quests@.len() {
        assert(crate::content::quest_wf(course.quests@[qi + 1]));
    }
}

/// A one-line summary of where the user stands: the active task's
/// objective, or a fixed phrase when the course is finished or the record
/// denotes no task.
pub fn status_text(course: &Module, state: &GameState) -> (r: String)
    ensures
        state.is_finished ==> r@ == "Course complete."@,
        !state.is_finished && active_exists(*course, *state) ==> r@ == the_active_task(
            *course,
            *state,
        ).title@,
        !state.is_finished && !active_exists(*course, *state) ==> r@ == "No active objective."@,
{
    if state.is_finished {
        return "Course complete.".to_owned();
    }
    let (qi, ci, ti) = match find_quest(&course.quests, state.current_quest_id.as_str()) {
        Some(qi) => (qi, state.current_chapter_index, state.current_task_index),
        None => {
            if course.quests.len() > 0 {
                (0, 0, 0)
            } else {
                return "No active objective.".to_owned();
            }
        },
    };
    if ci >= course.quests[qi].chapters.len() {
        return "No active objective.".to_owned();
    }
    if ti >= course.quests[qi].chapters[ci].tasks.len() {
        return "No active objective.".to_owned();
    }
    course.quests[qi].chapters[ci].tasks[ti].title.clone()
}

/// The active task's hint, if the record denotes a task that has one.
pub fn hint_text(course: &Module, state: &GameState) -> (r: Option<String>)
    ensures
        !state.is_finished && active_exists(*course, *state) ==> ({
            let task = the_active_task(*course, *state);
            &&& (r is Some <==> task.hint is Some)
            &&& (r matches Some(h) ==> (task.hint matches Some(h2) && h@ == h2@))
        }),
        state.is_finished || !active_exists(*course, *state) ==> r is None,
{
    if state.is_finished {
        return None;
    }
    let (qi, ci, ti) = match find_quest(&course.quests, state.current_quest_id.as_str()) {
        Some(qi) => (qi, state.current_chapter_index, state.current_task_index),
        None => {
            if course.quests.len() > 0 {
                (0, 0, 0)
            } else {
                return None;
            }
        },
    };
    if ci >= course.quests[qi].chapters.len() {
        return None;
    }
    if ti >= course.quests[qi].chapters[ci].tasks.len() {
        return None;
    }
    clone_hint(&course.quests[qi].chapters[ci].tasks[ti].hint)
}

} // verus!
