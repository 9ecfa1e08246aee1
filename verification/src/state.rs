//! The progression record: where the user is in the content tree, session
//! flags and variables, and the transition operations the driver applies.

use crate::content::Reward;
use vstd::prelude::*;

verus! {

/// First value stored under a key, if any.
pub open spec fn lookup_assoc<V>(entries: Seq<(String, V)>, key: Seq<char>) -> Option<V>
    decreases entries.len(),
{
    if entries.len() == 0 {
        None
    } else if entries[0].0@ == key {
        Some(entries[0].1)
    } else {
        lookup_assoc(entries.drop_first(), key)
    }
}

/// Updating the first entry holding `key` (which must be the first match)
/// rebinds that key and leaves every other key's binding alone.
proof fn lemma_lookup_update<V>(entries: Seq<(String, V)>, i: int, value: V, key: Seq<char>)
    requires
        0 <= i < entries.len(),
        entries[i].0@ == key,
        forall|j: int| 0 <= j < i ==> (#[trigger] entries[j]).0@ != key,
    ensures
        forall|k: Seq<char>|
            #[trigger] lookup_assoc(entries.update(i, (entries[i].0, value)), k) == (if k == key {
                Some(value)
            } else {
                lookup_assoc(entries, k)
            }),
    decreases entries.len(),
{
    let updated = entries.update(i, (entries[i].0, value));
    if i == 0 {
        assert(updated.drop_first() =~= entries.drop_first());
        assert forall|k: Seq<char>|
            #[trigger] lookup_assoc(updated, k) == (if k == key {
                Some(value)
            } else {
                lookup_assoc(entries, k)
            }) by {
            assert(updated[0].0@ == key);
        }
    } else {
        let sub = entries.drop_first();
        assert(updated.drop_first() =~= sub.update(i - 1, (sub[i - 1].0, value)));
        lemma_lookup_update(sub, i - 1, value, key);
        assert forall|k: Seq<char>|
            #[trigger] lookup_assoc(updated, k) == (if k == key {
                Some(value)
            } else {
                lookup_assoc(entries, k)
            }) by {
            assert(updated[0] == entries[0]);
            assert(lookup_assoc(sub.update(i - 1, (sub[i - 1].0, value)), k) == (if k == key {
                Some(value)
            } else {
                lookup_assoc(sub, k)
            }));
        }
    }
}

/// Saturating signed addition, at mathematical level.
pub open spec fn spec_sat_add(a: int, b: int) -> int {
    if a + b > i64::MAX {
        i64::MAX as int
    } else if a + b < i64::MIN {
        i64::MIN as int
    } else {
        a + b
    }
}

/// Saturating `i64` addition.
pub fn sat_add_i64(a: i64, b: i64) -> (r: i64)
    ensures
        r as int == spec_sat_add(a as int, b as int),
{
    if b >= 0 {
        if a > i64::MAX - b {
            i64::MAX
        } else {
            a + b
        }
    } else {
        if a < i64::MIN - b {
            i64::MIN
        } else {
            a + b
        }
    }
}

/// The mutable session record. Fresh sessions start with empty identifiers
/// (triggering quest auto-selection), position (0, 0) and no flags or
/// variables; only the driver's transition operations mutate it.
pub struct GameState {
    pub current_course_id: String,
    pub course_version_seen: String,
    pub current_quest_id: String,
    pub current_chapter_index: usize,
    pub current_task_index: usize,
    pub flags: Vec<(String, bool)>,
    pub variables: Vec<(String, i64)>,
    pub is_finished: bool,
}

impl GameState {
    /// The session flags as a mapping from key to value.
    pub open spec fn flags_map(&self) -> Map<Seq<char>, bool> {
        Map::new(
            |k: Seq<char>| lookup_assoc(self.flags@, k) is Some,
            |k: Seq<char>| lookup_assoc(self.flags@, k)->Some_0,
        )
    }

    /// The session variables as a mapping from key to value.
    pub open spec fn vars_map(&self) -> Map<Seq<char>, i64> {
        Map::new(
            |k: Seq<char>| lookup_assoc(self.variables@, k) is Some,
            |k: Seq<char>| lookup_assoc(self.variables@, k)->Some_0,
        )
    }

    /// True when the two records agree on everything but their position
    /// fields (quest id, chapter index, task index, finished flag).
    pub open spec fn same_session_data(self, other: GameState) -> bool {
        &&& self.current_course_id == other.current_course_id
        &&& self.course_version_seen == other.course_version_seen
        &&& self.flags == other.flags
        &&& self.variables == other.variables
    }

    /// A fresh record: no progress yet.
    pub fn new() -> (r: GameState)
        ensures
            r.current_course_id@ == Seq::<char>::empty(),
            r.course_version_seen@ == Seq::<char>::empty(),
            r.current_quest_id@ == Seq::<char>::empty(),
            r.current_chapter_index == 0,
            r.current_task_index == 0,
            r.flags@ == Seq::<(String, bool)>::empty(),
            r.variables@ == Seq::<(String, i64)>::empty(),
            !r.is_finished,
    {
        GameState {
            current_course_id: String::new(),
            course_version_seen: String::new(),
            current_quest_id: String::new(),
            current_chapter_index: 0,
            current_task_index: 0,
            flags: Vec::new(),
            variables: Vec::new(),
            is_finished: false,
        }
    }

    /// Moves the bookmark to the next task of the current chapter. The
    /// caller must then check the new index against the chapter's task
    /// count and roll the chapter over if it is past the end.
    pub fn advance_task(&mut self)
        requires
            old(self).current_task_index < usize::MAX,
        ensures
            final(self).current_task_index == old(self).current_task_index + 1,
            final(self).current_chapter_index == old(self).current_chapter_index,
            final(self).current_quest_id == old(self).current_quest_id,
            final(self).is_finished == old(self).is_finished,
            final(self).same_session_data(*old(self)),
    {
        self.current_task_index = self.current_task_index + 1;
    }

    /// Moves the bookmark to the start of the next chapter. The caller must
    /// then check the new index against the quest's chapter count and
    /// complete the quest if it is past the end.
    pub fn advance_chapter(&mut self)
        requires
            old(self).current_chapter_index < usize::MAX,
        ensures
            final(self).current_chapter_index == old(self).current_chapter_index + 1,
            final(self).current_task_index == 0,
            final(self).current_quest_id == old(self).current_quest_id,
            final(self).is_finished == old(self).is_finished,
            final(self).same_session_data(*old(self)),
    {
        self.current_chapter_index = self.current_chapter_index + 1;
        self.current_task_index = 0;
    }

    /// Leaves the current quest behind and rewinds the bookmark to the
    /// start of the given next quest.
    pub fn complete_current_quest(&mut self, next_quest_id: &str)
        ensures
            final(self).current_quest_id@ == next_quest_id@,
            final(self).current_chapter_index == 0,
            final(self).current_task_index == 0,
            final(self).is_finished == old(self).is_finished,
            final(self).same_session_data(*old(self)),
    {
        self.current_quest_id = next_quest_id.to_owned();
        self.current_chapter_index = 0;
        self.current_task_index = 0;
    }

    /// Enters the terminal state: from here on every check is a no-op.
    pub fn mark_finished(&mut self)
        ensures
            final(self).is_finished,
            final(self).current_quest_id == old(self).current_quest_id,
            final(self).current_chapter_index == old(self).current_chapter_index,
            final(self).current_task_index == old(self).current_task_index,
            final(self).same_session_data(*old(self)),
    {
        self.is_finished = true;
    }

    /// The stored flag value, if the flag was ever set.
    pub fn get_flag(&self, key: &str) -> (r: Option<bool>)
        ensures
            r == lookup_assoc(self.flags@, key@),
    {
        let mut i: usize = 0;
        proof {
            assert(self.flags@.skip(0) =~= self.flags@);
        }
        while i < self.flags.len()
            invariant
                i <= self.flags@.len(),
                lookup_assoc(self.flags@.skip(i as int), key@) == lookup_assoc(self.flags@, key@),
            decreases self.flags@.len() - i,
        {
            proof {
                assert(self.flags@.skip(i as int).drop_first() =~= self.flags@.skip(i as int + 1));
                assert(self.flags@.skip(i as int)[0] == self.flags@[i as int]);
            }
            if crate::strutil::str_eq(self.flags[i].0.as_str(), key) {
                return Some(self.flags[i].1);
            }
            i += 1;
        }
        None
    }

    /// The stored variable value, if the variable was ever set.
    pub fn get_var(&self, key: &str) -> (r: Option<i64>)
        ensures
            r == lookup_assoc(self.variables@, key@),
    {
        let mut i: usize = 0;
        proof {
            assert(self.variables@.skip(0) =~= self.variables@);
        }
        while i < self.variables.len()
            invariant
                i <= self.variables@.len(),
                lookup_assoc(self.variables@.skip(i as int), key@) == lookup_assoc(
                    self.variables@,
                    key@,
                ),
            decreases self.variables@.len() - i,
        {
            proof {
                assert(self.variables@.skip(i as int).drop_first() =~= self.variables@.skip(
                    i as int + 1,
                ));
                assert(self.variables@.skip(i as int)[0] == self.variables@[i as int]);
            }
            if crate::strutil::str_eq(self.variables[i].0.as_str(), key) {
                return Some(self.variables[i].1);
            }
            i += 1;
        }
        None
    }

    /// Binds the flag, replacing any earlier binding of the same key.
    #[verifier::loop_isolation(false)]
    pub fn set_flag(&mut self, key: &str, value: bool)
        ensures
            final(self).flags_map() == old(self).flags_map().insert(key@, value),
            forall|k: Seq<char>|
                #[trigger] lookup_assoc(final(self).flags@, k) == (if k == key@ {
                    Some(value)
                } else {
                    lookup_assoc(old(self).flags@, k)
                }),
            final(self).variables == old(self).variables,
            final(self).current_course_id == old(self).current_course_id,
            final(self).course_version_seen == old(self).course_version_seen,
            final(self).current_quest_id == old(self).current_quest_id,
            final(self).current_chapter_index == old(self).current_chapter_index,
            final(self).current_task_index == old(self).current_task_index,
            final(self).is_finished == old(self).is_finished,
    {
        let ghost orig = self.flags@;
        let mut i: usize = 0;
        while i < self.flags.len()
            invariant
                i <= self.flags@.len(),
                *self == *old(self),
                forall|j: int| 0 <= j < i ==> (#[trigger] orig[j]).0@ != key@,
            decreases self.flags@.len() - i,
        {
            if crate::strutil::str_eq(self.flags[i].0.as_str(), key) {
                self.flags[i].1 = value;
                proof {
                    assert(self.flags@ =~= orig.update(i as int, (orig[i as int].0, value)));
                    lemma_lookup_update(orig, i as int, value, key@);
                    lemma_maps_match_after_set(orig, self.flags@, key@, value);
                }
                return ;
            }
            i += 1;
        }
        self.flags.push((key.to_owned(), value));
        proof {
            lemma_lookup_append_new(orig, self.flags@, key@, value);
            lemma_maps_match_after_set(orig, self.flags@, key@, value);
        }
    }

    /// Binds the variable, replacing any earlier binding of the same key.
    #[verifier::loop_isolation(false)]
    pub fn set_var(&mut self, key: &str, value: i64)
        ensures
            final(self).vars_map() == old(self).vars_map().insert(key@, value),
            forall|k: Seq<char>|
                #[trigger] lookup_assoc(final(self).variables@, k) == (if k == key@ {
                    Some(value)
                } else {
                    lookup_assoc(old(self).variables@, k)
                }),
            final(self).flags == old(self).flags,
            final(self).current_course_id == old(self).current_course_id,
            final(self).course_version_seen == old(self).course_version_seen,
            final(self).current_quest_id == old(self).current_quest_id,
            final(self).current_chapter_index == old(self).current_chapter_index,
            final(self).current_task_index == old(self).current_task_index,
            final(self).is_finished == old(self).is_finished,
    {
        let ghost orig = self.variables@;
        let mut i: usize = 0;
        while i < self.variables.len()
            invariant
                i <= self.variables@.len(),
                *self == *old(self),
                forall|j: int| 0 <= j < i ==> (#[trigger] orig[j]).0@ != key@,
            decreases self.variables@.len() - i,
        {
            if crate::strutil::str_eq(self.variables[i].0.as_str(), key) {
                self.variables[i].1 = value;
                proof {
                    assert(self.variables@ =~= orig.update(i as int, (orig[i as int].0, value)));
                    lemma_lookup_update(orig, i as int, value, key@);
                    lemma_maps_match_after_set(orig, self.variables@, key@, value);
                }
                return ;
            }
            i += 1;
        }
        self.variables.push((key.to_owned(), value));
        proof {
            lemma_lookup_append_new(orig, self.variables@, key@, value);
            lemma_maps_match_after_set(orig, self.variables@, key@, value);
        }
    }
}

/// The effect of one reward on the session maps: rewards never touch the
/// position fields. An `AddVar` saturates, and a missing variable counts
/// as zero.
pub open spec fn reward_step(
    fm: Map<Seq<char>, bool>,
    vm: Map<Seq<char>, i64>,
    r: Reward,
) -> (Map<Seq<char>, bool>, Map<Seq<char>, i64>) {
    match r {
        Reward::SetFlag { key, value } => (fm.insert(key@, value), vm),
        Reward::SetVar { key, value } => (fm, vm.insert(key@, value)),
        Reward::AddVar { key, delta } => {
            let cur: int = if vm.contains_key(key@) {
                vm[key@] as int
            } else {
                0
            };
            (fm, vm.insert(key@, spec_sat_add(cur, delta as int) as i64))
        },
    }
}

/// The effect of a reward sequence, applied in declared order.
pub open spec fn apply_rewards_spec(
    fm: Map<Seq<char>, bool>,
    vm: Map<Seq<char>, i64>,
    rs: Seq<Reward>,
) -> (Map<Seq<char>, bool>, Map<Seq<char>, i64>)
    decreases rs.len(),
{
    if rs.len() == 0 {
        (fm, vm)
    } else {
        let prev = apply_rewards_spec(fm, vm, rs.drop_last());
        reward_step(prev.0, prev.1, rs.last())
    }
}

impl GameState {
    /// Applies one reward to the session maps.
    pub fn apply_reward(&mut self, reward: &Reward)
        ensures
            (final(self).flags_map(), final(self).vars_map()) == reward_step(
                old(self).flags_map(),
                old(self).vars_map(),
                *reward,
            ),
            final(self).current_course_id == old(self).current_course_id,
            final(self).course_version_seen == old(self).course_version_seen,
            final(self).current_quest_id == old(self).current_quest_id,
            final(self).current_chapter_index == old(self).current_chapter_index,
            final(self).current_task_index == old(self).current_task_index,
            final(self).is_finished == old(self).is_finished,
    {
        match reward {
            Reward::SetFlag { key, value } => {
                self.set_flag(key.as_str(), *value);
            },
            Reward::SetVar { key, value } => {
                self.set_var(key.as_str(), *value);
            },
            Reward::AddVar { key, delta } => {
                let cur: i64 = match self.get_var(key.as_str()) {
                    Some(v) => v,
                    None => 0,
                };
                let bumped = sat_add_i64(cur, *delta);
                self.set_var(key.as_str(), bumped);
            },
        }
    }

    /// Applies a task's rewards in declared order, exactly once each.
    #[verifier::loop_isolation(false)]
    pub fn apply_rewards(&mut self, rewards: &Vec<Reward>)
        ensures
            (final(self).flags_map(), final(self).vars_map()) == apply_rewards_spec(
                old(self).flags_map(),
                old(self).vars_map(),
                rewards@,
            ),
            final(self).current_course_id == old(self).current_course_id,
            final(self).course_version_seen == old(self).course_version_seen,
            final(self).current_quest_id == old(self).current_quest_id,
            final(self).current_chapter_index == old(self).current_chapter_index,
            final(self).current_task_index == old(self).current_task_index,
            final(self).is_finished == old(self).is_finished,
    {
        let mut i: usize = 0;
        while i < rewards.len()
            invariant
                i <= rewards@.len(),
                (self.flags_map(), self.vars_map()) == apply_rewards_spec(
                    old(self).flags_map(),
                    old(self).vars_map(),
                    rewards@.take(i as int),
                ),
                self.current_course_id == old(self).current_course_id,
                self.course_version_seen == old(self).course_version_seen,
                self.current_quest_id == old(self).current_quest_id,
                self.current_chapter_index == old(self).current_chapter_index,
                self.current_task_index == old(self).current_task_index,
                self.is_finished == old(self).is_finished,
            decreases rewards@.len() - i,
        {
            proof {
                assert(rewards@.take(i as int + 1).drop_last() =~= rewards@.take(i as int));
                assert(rewards@.take(i as int + 1).last() == rewards@[i as int]);
            }
            self.apply_reward(&rewards[i]);
            i += 1;
        }
        proof {
            assert(rewards@.take(rewards@.len() as int) =~= rewards@);
        }
    }
}

/// Appending a fresh entry for an unbound key binds that key and leaves
/// every other key's binding alone.
proof fn lemma_lookup_append_new<V>(
    orig: Seq<(String, V)>,
    appended: Seq<(String, V)>,
    key: Seq<char>,
    value: V,
)
    requires
        forall|j: int| 0 <= j < orig.len() ==> (#[trigger] orig[j]).0@ != key,
        appended.len() == orig.len() + 1,
        forall|j: int| 0 <= j < orig.len() ==> appended[j] == orig[j],
        appended.last().0@ == key,
        appended.last().1 == value,
    ensures
        forall|k: Seq<char>|
            #[trigger] lookup_assoc(appended, k) == (if k == key {
                Some(value)
            } else {
                lookup_assoc(orig, k)
            }),
    decreases orig.len(),
{
    if orig.len() == 0 {
        assert forall|k: Seq<char>|
            #[trigger] lookup_assoc(appended, k) == (if k == key {
                Some(value)
            } else {
                lookup_assoc(orig, k)
            }) by {
            assert(appended[0] == appended.last());
            if k == key {
                assert(appended[0].0@ == k);
                assert(lookup_assoc(appended, k) == Some(appended[0].1));
            } else {
                assert(appended[0].0@ != k);
                assert(appended.drop_first().len() == 0);
                assert(lookup_assoc(appended.drop_first(), k) is None);
                assert(lookup_assoc(appended, k) is None);
            }
        }
    } else {
        assert(appended[0] == orig[0]);
        assert(appended.drop_first().len() == orig.drop_first().len() + 1);
        assert(forall|j: int|
            0 <= j < orig.drop_first().len() ==> (#[trigger] appended.drop_first()[j])
                == orig.drop_first()[j]);
        assert(appended.drop_first().last() == appended.last());
        lemma_lookup_append_new(orig.drop_first(), appended.drop_first(), key, value);
        assert forall|k: Seq<char>|
            #[trigger] lookup_assoc(appended, k) == (if k == key {
                Some(value)
            } else {
                lookup_assoc(orig, k)
            }) by {
            assert(lookup_assoc(appended.drop_first(), k) == (if k == key {
                Some(value)
            } else {
                lookup_assoc(orig.drop_first(), k)
            }));
            if appended[0].0@ == k {
                assert(lookup_assoc(appended, k) == Some(appended[0].1));
                assert(lookup_assoc(orig, k) == Some(orig[0].1));
            } else {
                assert(lookup_assoc(appended, k) == lookup_assoc(appended.drop_first(), k));
                assert(lookup_assoc(orig, k) == lookup_assoc(orig.drop_first(), k));
            }
        }
    }
}

/// Pointwise agreement of lookups lifts to map-level `insert`.
proof fn lemma_maps_match_after_set<V>(
    orig: Seq<(String, V)>,
    updated: Seq<(String, V)>,
    key: Seq<char>,
    value: V,
)
    requires
        forall|k: Seq<char>|
            #[trigger] lookup_assoc(updated, k) == (if k == key {
                Some(value)
            } else {
                lookup_assoc(orig, k)
            }),
    ensures
        Map::new(
            |k: Seq<char>| lookup_assoc(updated, k) is Some,
            |k: Seq<char>| lookup_assoc(updated, k)->Some_0,
        ) == Map::new(
            |k: Seq<char>| lookup_assoc(orig, k) is Some,
            |k: Seq<char>| lookup_assoc(orig, k)->Some_0,
        ).insert(key, value),
{
    let mu = Map::new(
        |k: Seq<char>| lookup_assoc(updated, k) is Some,
        |k: Seq<char>| lookup_assoc(updated, k)->Some_0,
    );
    let mo = Map::new(
        |k: Seq<char>| lookup_assoc(orig, k) is Some,
        |k: Seq<char>| lookup_assoc(orig, k)->Some_0,
    ).insert(key, value);
    assert(mu =~= mo);
}

} // verus!
