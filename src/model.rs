//! Tracked entities and their streak categories.
use vstd::prelude::*;

verus! {

/// A streak category as a mathematical value: its name, current streak and
/// best streak.
pub type StreakView = (Seq<char>, i32, i32);

/// A tracked entity as a mathematical value: its name, image path and
/// categories in insertion order.
pub type EntityView = (Seq<char>, Seq<char>, Seq<StreakView>);

/// A named counter pair: the running streak and its high-water mark.
#[derive(Clone, Debug, PartialEq, Eq)]
pub struct StreakCategory {
    pub name: String,
    pub current: i32,
    pub best: i32,
}

/// A trackable character with its image and independent streak categories.
#[derive(Clone, Debug, PartialEq, Eq)]
pub struct Character {
    pub name: String,
    pub image_path: String,
    pub streaks: Vec<StreakCategory>,
}

impl View for StreakCategory {
    type V = StreakView;

    open spec fn view(&self) -> StreakView {
        (self.name@, self.current, self.best)
    }
}

impl View for Character {
    type V = EntityView;

    open spec fn view(&self) -> EntityView {
        (self.name@, self.image_path@, streak_views(self.streaks@))
    }
}

pub open spec fn streak_views(s: Seq<StreakCategory>) -> Seq<StreakView> {
    s.map_values(|c: StreakCategory| c@)
}

pub open spec fn entity_views(s: Seq<Character>) -> Seq<EntityView> {
    s.map_values(|c: Character| c@)
}

pub open spec fn text_views(s: Seq<String>) -> Seq<Seq<char>> {
    s.map_values(|t: String| t@)
}

/// A fresh category: both counters at zero.
pub open spec fn zero_streak(name: Seq<char>) -> StreakView {
    (name, 0, 0)
}

/// Copies a list of strings.
pub fn copy_texts(v: &Vec<String>) -> (r: Vec<String>)
    ensures
        text_views(r@) == text_views(v@),
{
    let mut r: Vec<String> = Vec::new();
    let mut i: usize = 0;
    while i < v.len()
        invariant
            0 <= i <= v@.len(),
            r@.len() == i,
            forall|k: int| 0 <= k < i ==> r@[k]@ == v@[k]@,
        decreases v@.len() - i,
    {
        let t = v[i].clone();
        assert(t@ == v@[i as int]@);
        r.push(t);
        i += 1;
    }
    assert(text_views(r@) =~= text_views(v@));
    r
}

} // verus!
