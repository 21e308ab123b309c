//! The in-memory store: the collection, the current selection, and outcome
//! recording.
use vstd::prelude::*;
use vstd::string::StringExecFns;
use crate::model::{Character, EntityView, StreakCategory, StreakView, entity_views, streak_views, text_views};
use crate::reconcile::{has_entity, in_alternate_group, is_alternate_group};

verus! {

/// The category whose best streak is a floor for another's.
pub open spec fn four_k() -> Seq<char> {
    seq!['4', 'k']
}

/// The category that takes the floor.
pub open spec fn three_k() -> Seq<char> {
    seq!['3', 'k']
}

/// The streak after a win: the current streak grows by one (it stays at the
/// largest `i32` once there) and the best is raised to it if lower.
pub open spec fn after_win(s: StreakView) -> StreakView {
    let cur: i32 = if s.1 < i32::MAX {
        (s.1 + 1) as i32
    } else {
        s.1
    };
    (s.0, cur, if s.2 >= cur {
        s.2
    } else {
        cur
    })
}

/// The streak after a loss: the current streak drops to zero, the best stays.
pub open spec fn after_loss(s: StreakView) -> StreakView {
    (s.0, 0, s.2)
}

pub open spec fn after_outcome(s: StreakView, win: bool) -> StreakView {
    if win {
        after_win(s)
    } else {
        after_loss(s)
    }
}

/// `i` is the first position of a category with this name.
pub open spec fn first_named(st: Seq<StreakView>, name: Seq<char>, i: int) -> bool {
    0 <= i < st.len() && st[i].0 == name && forall|j: int| 0 <= j < i ==> st[j].0 != name
}

/// `i` is the first position of an entity with this name.
pub open spec fn first_entity(es: Seq<EntityView>, name: Seq<char>, i: int) -> bool {
    0 <= i < es.len() && es[i].0 == name && forall|j: int| 0 <= j < i ==> es[j].0 != name
}

/// The best of the first `4k` category raised as a floor on the best of the
/// first `3k` category, where both exist.
pub open spec fn with_floor(st: Seq<StreakView>) -> Seq<StreakView> {
    if (exists|a: int| first_named(st, four_k(), a)) && (exists|b: int|
        first_named(st, three_k(), b)) {
        let a = choose|a: int| first_named(st, four_k(), a);
        let b = choose|b: int| first_named(st, three_k(), b);
        st.update(
            b,
            (st[b].0, st[b].1, if st[b].2 >= st[a].2 {
                st[b].2
            } else {
                st[a].2
            }),
        )
    } else {
        st
    }
}

/// An entity's categories after an outcome on category `idx`: that category
/// is updated, if it exists; then, where the floor rule is on, the outcome a
/// win and the entity in the primary group, the floor is applied.
pub open spec fn outcome_streaks(e: EntityView, idx: int, win: bool, floor_rule: bool) -> Seq<
    StreakView,
> {
    let st = if 0 <= idx < e.2.len() {
        e.2.update(idx, after_outcome(e.2[idx], win))
    } else {
        e.2
    };
    if floor_rule && win && !in_alternate_group(e.0) {
        with_floor(st)
    } else {
        st
    }
}

/// Best is monotonic: an outcome never lowers any category's best, and the
/// category it was recorded on ends with best at least its current streak,
/// given a best that was not negative.
pub proof fn lemma_outcome_best_monotonic(e: EntityView, idx: int, win: bool, floor_rule: bool)
    ensures
        outcome_streaks(e, idx, win, floor_rule).len() == e.2.len(),
        forall|k: int|
            0 <= k < e.2.len() ==> (#[trigger] outcome_streaks(e, idx, win, floor_rule)[k]).2
                >= e.2[k].2,
        forall|k: int|
            0 <= k < e.2.len() ==> (#[trigger] outcome_streaks(e, idx, win, floor_rule)[k]).0
                == e.2[k].0,
        0 <= idx < e.2.len() && e.2[idx].2 >= 0 ==> outcome_streaks(e, idx, win, floor_rule)[idx].2
            >= outcome_streaks(e, idx, win, floor_rule)[idx].1,
{
    let st = if 0 <= idx < e.2.len() {
        e.2.update(idx, after_outcome(e.2[idx], win))
    } else {
        e.2
    };
    assert(forall|k: int| 0 <= k < st.len() ==> (#[trigger] st[k]).2 >= e.2[k].2 && st[k].0 == e.2[k].0);
    if (exists|a: int| first_named(st, four_k(), a)) && (exists|b: int| first_named(st, three_k(), b)) {
        let b = choose|b: int| first_named(st, three_k(), b);
        let f = with_floor(st);
        assert(forall|k: int| 0 <= k < st.len() ==> (#[trigger] f[k]).2 >= st[k].2 && f[k].1 == st[k].1 && f[k].0 == st[k].0);
    }
}

/// An entity after a run of outcomes, each recorded on category `idx`.
pub open spec fn outcome_run(e: EntityView, idx: int, wins: Seq<bool>, floor_rule: bool) -> EntityView
    decreases wins.len(),
{
    if wins.len() == 0 {
        e
    } else {
        let p = outcome_run(e, idx, wins.drop_last(), floor_rule);
        (p.0, p.1, outcome_streaks(p, idx, wins.last(), floor_rule))
    }
}

proof fn lemma_run_shape(e: EntityView, idx: int, wins: Seq<bool>, floor_rule: bool)
    requires
        0 <= idx < e.2.len(),
        e.2[idx].2 >= 0,
    ensures
        outcome_run(e, idx, wins, floor_rule).0 == e.0,
        outcome_run(e, idx, wins, floor_rule).2.len() == e.2.len(),
        outcome_run(e, idx, wins, floor_rule).2[idx].2 >= 0,
    decreases wins.len(),
{
    if wins.len() > 0 {
        let p = outcome_run(e, idx, wins.drop_last(), floor_rule);
        lemma_run_shape(e, idx, wins.drop_last(), floor_rule);
        lemma_outcome_best_monotonic(p, idx, wins.last(), floor_rule);
    }
}

/// Over any run of outcomes on one category, every category's best is
/// non-decreasing from each call to the next, and after each call the
/// recorded category's best is at least its current streak, given a best
/// that was not negative at the start.
pub proof fn lemma_best_monotonic_over_run(
    e: EntityView,
    idx: int,
    wins: Seq<bool>,
    floor_rule: bool,
)
    requires
        0 <= idx < e.2.len(),
        e.2[idx].2 >= 0,
    ensures
        forall|n: int, k: int|
            0 <= n < wins.len() && 0 <= k < e.2.len() ==> (#[trigger] outcome_run(
                e,
                idx,
                wins.take(n + 1),
                floor_rule,
            ).2[k]).2 >= outcome_run(e, idx, wins.take(n), floor_rule).2[k].2,
        forall|n: int|
            1 <= n <= wins.len() ==> (#[trigger] outcome_run(e, idx, wins.take(n), floor_rule).2[idx]).2
                >= outcome_run(e, idx, wins.take(n), floor_rule).2[idx].1,
{
    assert forall|n: int, k: int| 0 <= n < wins.len() && 0 <= k < e.2.len() implies (
    #[trigger] outcome_run(e, idx, wins.take(n + 1), floor_rule).2[k]).2 >= outcome_run(
        e,
        idx,
        wins.take(n),
        floor_rule,
    ).2[k].2 by {
        assert(wins.take(n + 1).drop_last() =~= wins.take(n));
        lemma_run_shape(e, idx, wins.take(n), floor_rule);
        lemma_outcome_best_monotonic(outcome_run(e, idx, wins.take(n), floor_rule), idx, wins[n], floor_rule);
    }
    assert forall|n: int| 1 <= n <= wins.len() implies (#[trigger] outcome_run(
        e,
        idx,
        wins.take(n),
        floor_rule,
    ).2[idx]).2 >= outcome_run(e, idx, wins.take(n), floor_rule).2[idx].1 by {
        assert(wins.take(n).drop_last() =~= wins.take(n - 1));
        lemma_run_shape(e, idx, wins.take(n - 1), floor_rule);
        lemma_outcome_best_monotonic(
            outcome_run(e, idx, wins.take(n - 1), floor_rule),
            idx,
            wins[n - 1],
            floor_rule,
        );
    }
}

/// The position of the first category with this name.
fn position_of(streaks: &Vec<StreakCategory>, name: &String) -> (r: Option<usize>)
    ensures
        match r {
            Some(i) => first_named(streak_views(streaks@), name@, i as int),
            None => forall|j: int| 0 <= j < streaks@.len() ==> streaks@[j].name@ != name@,
        },
{
    let mut i: usize = 0;
    while i < streaks.len()
        invariant
            0 <= i <= streaks@.len(),
            forall|k: int| 0 <= k < i ==> streaks@[k].name@ != name@,
        decreases streaks@.len() - i,
    {
        if streaks[i].name == *name {
            return Some(i);
        }
        i += 1;
    }
    None
}

/// Raises the best of the first `3k` category to the best of the first `4k`
/// category, where both exist.
fn apply_floor(streaks: &mut Vec<StreakCategory>)
    ensures
        streak_views(final(streaks)@) == with_floor(streak_views(old(streaks)@)),
{
    proof {
        reveal_strlit("4k");
        reveal_strlit("3k");
    }
    let four = String::from_str("4k");
    let three = String::from_str("3k");
    assert(four@ =~= four_k());
    assert(three@ =~= three_k());
    let ghost st = streak_views(streaks@);
    match position_of(streaks, &four) {
        Some(a) => {
            match position_of(streaks, &three) {
                Some(b) => {
                    let floor = streaks[a].best;
                    if streaks[b].best < floor {
                        streaks[b].best = floor;
                    }
                    let ghost ca = choose|x: int| first_named(st, four_k(), x);
                    let ghost cb = choose|x: int| first_named(st, three_k(), x);
                    assert(ca == a as int);
                    assert(cb == b as int);
                    assert(streak_views(streaks@) =~= with_floor(st));
                },
                None => {
                    assert(!exists|x: int| first_named(st, three_k(), x));
                },
            }
        },
        None => {
            assert(!exists|x: int| first_named(st, four_k(), x));
        },
    }
}

/// The collection with the current selection. `selected_category` indexes
/// the categories of the selected entity; the floor rule, when on, raises the
/// `3k` best to the `4k` best on each win of a primary-group entity.
pub struct Store {
    pub entities: Vec<Character>,
    pub selected_entity: usize,
    pub selected_category: usize,
    pub floor_rule: bool,
}

impl Store {
    /// The selected entity exists, unless the collection is empty.
    pub open spec fn well_formed(&self) -> bool {
        if self.entities@.len() == 0 {
            self.selected_entity == 0
        } else {
            self.selected_entity < self.entities@.len()
        }
    }

    pub open spec fn entity_views(&self) -> Seq<EntityView> {
        entity_views(self.entities@)
    }

    /// A store over a collection, with the first entity and its first
    /// category selected.
    pub fn new(entities: Vec<Character>, floor_rule: bool) -> (r: Store)
        ensures
            r.well_formed(),
            r.entities@ == entities@,
            r.selected_entity == 0,
            r.selected_category == 0,
            r.floor_rule == floor_rule,
    {
        Store { entities, selected_entity: 0, selected_category: 0, floor_rule }
    }

    /// The names of all entities, in collection order.
    pub fn entity_names(&self) -> (r: Vec<String>)
        ensures
            r@.len() == self.entities@.len(),
            forall|k: int| 0 <= k < r@.len() ==> #[trigger] r@[k]@ == self.entities@[k].name@,
    {
        let mut r: Vec<String> = Vec::new();
        let mut i: usize = 0;
        while i < self.entities.len()
            invariant
                0 <= i <= self.entities@.len(),
                r@.len() == i,
                forall|k: int| 0 <= k < i ==> #[trigger] r@[k]@ == self.entities@[k].name@,
            decreases self.entities@.len() - i,
        {
            r.push(self.entities[i].name.clone());
            i += 1;
        }
        r
    }

    /// The category names of the selected entity, in order; none when the
    /// collection is empty.
    pub fn category_names(&self) -> (r: Vec<String>)
        requires
            self.well_formed(),
        ensures
            self.entities@.len() == 0 ==> r@.len() == 0,
            self.entities@.len() > 0 ==> {
                let st = self.entities@[self.selected_entity as int].streaks@;
                &&& r@.len() == st.len()
                &&& forall|k: int| 0 <= k < r@.len() ==> #[trigger] r@[k]@ == st[k].name@
            },
    {
        let mut r: Vec<String> = Vec::new();
        if self.entities.len() == 0 {
            return r;
        }
        let st = &self.entities[self.selected_entity].streaks;
        let mut i: usize = 0;
        while i < st.len()
            invariant
                0 <= i <= st@.len(),
                r@.len() == i,
                forall|k: int| 0 <= k < i ==> #[trigger] r@[k]@ == st@[k].name@,
            decreases st@.len() - i,
        {
            r.push(st[i].name.clone());
            i += 1;
        }
        r
    }

    /// The selected entity, if the collection is not empty.
    pub fn selected(&self) -> (r: Option<&Character>)
        requires
            self.well_formed(),
        ensures
            self.entities@.len() == 0 ==> r.is_none(),
            self.entities@.len() > 0 ==> r == Some(&self.entities@[self.selected_entity as int]),
    {
        if self.entities.len() == 0 {
            None
        } else {
            Some(&self.entities[self.selected_entity])
        }
    }

    /// The `(current, best)` of the selected category, if there is one.
    pub fn selected_counts(&self) -> (r: Option<(i32, i32)>)
        requires
            self.well_formed(),
        ensures
            r.is_some() == (self.entities@.len() > 0 && self.selected_category
                < self.entities@[self.selected_entity as int].streaks@.len()),
            r.is_some() ==> {
                let s = self.entities@[self.selected_entity as int].streaks@[self.selected_category as int];
                r == Some((s.current, s.best))
            },
    {
        if self.entities.len() == 0 {
            return None;
        }
        let c = &self.entities[self.selected_entity];
        if self.selected_category < c.streaks.len() {
            Some((c.streaks[self.selected_category].current, c.streaks[self.selected_category].best))
        } else {
            None
        }
    }

    /// Selects the first entity with this exact name and resets the category
    /// selection to the first; without such an entity nothing changes.
    pub fn select_entity(&mut self, name: &String) -> (found: bool)
        requires
            old(self).well_formed(),
        ensures
            final(self).well_formed(),
            final(self).entities == old(self).entities,
            final(self).floor_rule == old(self).floor_rule,
            found == has_entity(old(self).entity_views(), name@),
            found ==> first_entity(old(self).entity_views(), name@, final(self).selected_entity as int)
                && final(self).selected_category == 0,
            !found ==> final(self).selected_entity == old(self).selected_entity
                && final(self).selected_category == old(self).selected_category,
    {
        let mut i: usize = 0;
        while i < self.entities.len()
            invariant
                0 <= i <= self.entities@.len(),
                *self == *old(self),
                forall|k: int| 0 <= k < i ==> self.entities@[k].name@ != name@,
            decreases self.entities@.len() - i,
        {
            if self.entities[i].name == *name {
                self.selected_entity = i;
                self.selected_category = 0;
                assert(self.entity_views()[i as int].0 == name@);
                return true;
            }
            i += 1;
        }
        assert(forall|k: int| 0 <= k < self.entities@.len() ==> self.entity_views()[k].0 != name@);
        false
    }

    /// Selects the first category with this exact name within the selected
    /// entity; without one nothing changes.
    pub fn select_category(&mut self, name: &String) -> (found: bool)
        requires
            old(self).well_formed(),
        ensures
            final(self).well_formed(),
            final(self).entities == old(self).entities,
            final(self).floor_rule == old(self).floor_rule,
            final(self).selected_entity == old(self).selected_entity,
            found == (old(self).entities@.len() > 0 && exists|j: int|
                first_named(
                    old(self).entity_views()[old(self).selected_entity as int].2,
                    name@,
                    j,
                )),
            found ==> first_named(
                old(self).entity_views()[old(self).selected_entity as int].2,
                name@,
                final(self).selected_category as int,
            ),
            !found ==> final(self).selected_category == old(self).selected_category,
    {
        if self.entities.len() == 0 {
            return false;
        }
        let e = self.selected_entity;
        assert(self.entity_views()[e as int].2 == streak_views(self.entities@[e as int].streaks@));
        match position_of(&self.entities[e].streaks, name) {
            Some(j) => {
                self.selected_category = j;
                true
            },
            None => {
                let ghost st = self.entity_views()[e as int].2;
                assert forall|j: int| !first_named(st, name@, j) by {
                    if 0 <= j < st.len() {
                        assert(st[j].0 == self.entities@[e as int].streaks@[j].name@);
                    }
                }
                false
            },
        }
    }

    /// Records a win or a loss on the selected category and returns its new
    /// `(current, best)`, or `(0, 0)` when nothing is selected.
    pub fn record_outcome(&mut self, is_win: bool) -> (r: (i32, i32))
        requires
            old(self).well_formed(),
        ensures
            final(self).well_formed(),
            final(self).selected_entity == old(self).selected_entity,
            final(self).selected_category == old(self).selected_category,
            final(self).floor_rule == old(self).floor_rule,
            old(self).entities@.len() == 0 ==> final(self).entities == old(self).entities && r == (
                0i32,
                0i32,
            ),
            old(self).entities@.len() > 0 ==> {
                let e = old(self).selected_entity as int;
                let old_e = old(self).entity_views()[e];
                let st = outcome_streaks(
                    old_e,
                    old(self).selected_category as int,
                    is_win,
                    old(self).floor_rule,
                );
                &&& final(self).entity_views() == old(self).entity_views().update(
                    e,
                    (old_e.0, old_e.1, st),
                )
                &&& r == if old(self).selected_category < st.len() {
                    (st[old(self).selected_category as int].1, st[old(self).selected_category as int].2)
                } else {
                    (0i32, 0i32)
                }
            },
    {
        if self.entities.len() == 0 {
            return (0, 0);
        }
        let e = self.selected_entity;
        let s = self.selected_category;
        let ghost old_views = self.entity_views();
        let ghost old_e = old_views[e as int];
        let alt = is_alternate_group(self.entities[e].name.as_str());
        let floor_rule = self.floor_rule;
        let ghost st1 = if (s as int) < old_e.2.len() {
            old_e.2.update(s as int, after_outcome(old_e.2[s as int], is_win))
        } else {
            old_e.2
        };
        if s < self.entities[e].streaks.len() {
            let cur = self.entities[e].streaks[s].current;
            let best = self.entities[e].streaks[s].best;
            if is_win {
                let next: i32 = if cur < i32::MAX {
                    cur + 1
                } else {
                    cur
                };
                self.entities[e].streaks[s].current = next;
                if best < next {
                    self.entities[e].streaks[s].best = next;
                }
            } else {
                self.entities[e].streaks[s].current = 0;
            }
        }
        assert(streak_views(self.entities@[e as int].streaks@) =~= st1);
        if floor_rule && is_win && !alt {
            apply_floor(&mut self.entities[e].streaks);
        }
        assert(self.entity_views() =~= old_views.update(
            e as int,
            (old_e.0, old_e.1, outcome_streaks(old_e, s as int, is_win, floor_rule)),
        ));
        if s < self.entities[e].streaks.len() {
            (self.entities[e].streaks[s].current, self.entities[e].streaks[s].best)
        } else {
            (0, 0)
        }
    }
}

} // verus!
