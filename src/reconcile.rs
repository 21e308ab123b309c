//! Merging stored entities with discovered media files and configured
//! categories into one sorted, complete collection.
use vstd::prelude::*;
use vstd::string::StrSliceExecFns;
use crate::model::{
    Character, EntityView, StreakCategory, StreakView, entity_views, streak_views, text_views,
    zero_streak,
};

verus! {

/// ASCII case folding of one character, as a code point.
pub open spec fn fold_ascii(c: char) -> int {
    if 'A' <= c && c <= 'Z' {
        (c as int) + 32
    } else {
        c as int
    }
}

/// Equality of two texts up to ASCII case.
pub open spec fn eq_ignore_ascii_case(a: Seq<char>, b: Seq<char>) -> bool {
    a.len() == b.len() && forall|i: int| 0 <= i < a.len() ==> fold_ascii(a[i]) == fold_ascii(b[i])
}

/// The name that marks the alternate group.
pub open spec fn alternate_marker() -> Seq<char> {
    seq!['s', 'u', 'r', 'v', 'i', 'v', 'o', 'r']
}

/// Whether an entity of this name takes the alternate category set: its name
/// equals `survivor` up to ASCII case.
pub open spec fn in_alternate_group(name: Seq<char>) -> bool {
    eq_ignore_ascii_case(name, alternate_marker())
}

/// The category list that applies to an entity of this name.
pub open spec fn group_categories(
    name: Seq<char>,
    primary: Seq<Seq<char>>,
    alternate: Seq<Seq<char>>,
) -> Seq<Seq<char>> {
    if in_alternate_group(name) {
        alternate
    } else {
        primary
    }
}

pub open spec fn has_category(st: Seq<StreakView>, name: Seq<char>) -> bool {
    exists|i: int| 0 <= i < st.len() && st[i].0 == name
}

/// The categories after appending, in list order, a zeroed category for each
/// listed name that is not yet present.
pub open spec fn with_categories(st: Seq<StreakView>, cats: Seq<Seq<char>>) -> Seq<StreakView>
    decreases cats.len(),
{
    if cats.len() == 0 {
        st
    } else {
        let prev = with_categories(st, cats.drop_last());
        if has_category(prev, cats.last()) {
            prev
        } else {
            prev.push(zero_streak(cats.last()))
        }
    }
}

pub open spec fn has_entity(es: Seq<EntityView>, name: Seq<char>) -> bool {
    exists|i: int| 0 <= i < es.len() && es[i].0 == name
}

/// A newly discovered entity: one zeroed category per distinct name of its
/// group's list, in list order, as if appended to no categories at all.
pub open spec fn new_entity(
    name: Seq<char>,
    path: Seq<char>,
    primary: Seq<Seq<char>>,
    alternate: Seq<Seq<char>>,
) -> EntityView {
    (name, path, with_categories(Seq::empty(), group_categories(name, primary, alternate)))
}

pub open spec fn pair_views(s: Seq<(String, String)>) -> Seq<(Seq<char>, Seq<char>)> {
    s.map_values(|p: (String, String)| (p.0@, p.1@))
}

/// The collection after adding, in discovery order, each discovered
/// `(name, path)` whose name is not yet present.
pub open spec fn add_discovered(
    es: Seq<EntityView>,
    disc: Seq<(Seq<char>, Seq<char>)>,
    primary: Seq<Seq<char>>,
    alternate: Seq<Seq<char>>,
) -> Seq<EntityView>
    decreases disc.len(),
{
    if disc.len() == 0 {
        es
    } else {
        let prev = add_discovered(es, disc.drop_last(), primary, alternate);
        let d = disc.last();
        if has_entity(prev, d.0) {
            prev
        } else {
            prev.push(new_entity(d.0, d.1, primary, alternate))
        }
    }
}

/// An entity with every category of its group present.
pub open spec fn complete_entity(
    e: EntityView,
    primary: Seq<Seq<char>>,
    alternate: Seq<Seq<char>>,
) -> EntityView {
    (e.0, e.1, with_categories(e.2, group_categories(e.0, primary, alternate)))
}

/// Whether completing the entity appends any category.
pub open spec fn gains_categories(
    e: EntityView,
    primary: Seq<Seq<char>>,
    alternate: Seq<Seq<char>>,
) -> bool {
    complete_entity(e, primary, alternate).2 != e.2
}

/// Stored entities merged with the discovered ones, every entity completed
/// with its group's categories, before sorting.
pub open spec fn merged(
    es: Seq<EntityView>,
    disc: Seq<(Seq<char>, Seq<char>)>,
    primary: Seq<Seq<char>>,
    alternate: Seq<Seq<char>>,
) -> Seq<EntityView> {
    add_discovered(es, disc, primary, alternate).map_values(
        |e: EntityView| complete_entity(e, primary, alternate),
    )
}

/// Byte-wise (code point) lexicographic order on texts.
pub open spec fn text_le(a: Seq<char>, b: Seq<char>) -> bool
    decreases a.len(),
{
    if a.len() == 0 {
        true
    } else if b.len() == 0 {
        false
    } else if a[0] != b[0] {
        (a[0] as u32) < (b[0] as u32)
    } else {
        text_le(a.drop_first(), b.drop_first())
    }
}

/// Entities in ascending order of name.
pub open spec fn sorted_by_name(es: Seq<EntityView>) -> bool {
    forall|i: int| 0 <= i < es.len() - 1 ==> text_le(#[trigger] es[i].0, es[i + 1].0)
}

/// Relies on `slice::sort_by` with `String::cmp` on the names: a stable sort,
/// and strings compare lexicographically by their UTF-8 bytes, which orders
/// them as their code points. A stable sort leaves a sorted slice as it is.
#[verifier::external_body]
fn sort_by_name(v: &mut Vec<Character>)
    ensures
        entity_views(final(v)@).to_multiset() == entity_views(old(v)@).to_multiset(),
        sorted_by_name(entity_views(final(v)@)),
        sorted_by_name(entity_views(old(v)@)) ==> entity_views(final(v)@) == entity_views(
            old(v)@,
        ),
{
    v.sort_by(|a, b| a.name.cmp(&b.name))
}

/// Compares two texts up to ASCII case.
pub fn eq_ascii_case(a: &str, b: &str) -> (r: bool)
    ensures
        r == eq_ignore_ascii_case(a@, b@),
{
    let n = a.unicode_len();
    if n != b.unicode_len() {
        return false;
    }
    let mut i: usize = 0;
    while i < n
        invariant
            n == a@.len(),
            n == b@.len(),
            0 <= i <= n,
            forall|k: int| 0 <= k < i ==> fold_ascii(a@[k]) == fold_ascii(b@[k]),
        decreases n - i,
    {
        let x = a.get_char(i);
        let y = b.get_char(i);
        let fx: u32 = if 'A' <= x && x <= 'Z' {
            (x as u32) + 32
        } else {
            x as u32
        };
        let fy: u32 = if 'A' <= y && y <= 'Z' {
            (y as u32) + 32
        } else {
            y as u32
        };
        if fx != fy {
            return false;
        }
        i += 1;
    }
    true
}

/// Whether a name equals `survivor` up to ASCII case, which puts its entity
/// in the alternate group.
pub fn is_alternate_group(name: &str) -> (r: bool)
    ensures
        r == in_alternate_group(name@),
{
    let marker = "survivor";
    proof {
        reveal_strlit("survivor");
    }
    assert(marker@ =~= alternate_marker());
    eq_ascii_case(name, marker)
}

/// Whether some category of the list has this name.
fn find_category(streaks: &Vec<StreakCategory>, name: &String) -> (r: bool)
    ensures
        r == has_category(streak_views(streaks@), name@),
{
    let mut i: usize = 0;
    while i < streaks.len()
        invariant
            0 <= i <= streaks@.len(),
            forall|k: int| 0 <= k < i ==> streaks@[k].name@ != name@,
        decreases streaks@.len() - i,
    {
        if streaks[i].name == *name {
            assert(streak_views(streaks@)[i as int].0 == name@);
            return true;
        }
        i += 1;
    }
    false
}

/// Appends a zeroed category for each listed name that the character lacks,
/// in list order, and tells whether any was appended. Existing categories are
/// kept as they are.
pub fn ensure_categories(character: &mut Character, categories: &Vec<String>) -> (changed: bool)
    ensures
        final(character)@ == (
            old(character)@.0,
            old(character)@.1,
            with_categories(old(character)@.2, text_views(categories@)),
        ),
        changed == (final(character)@.2 != old(character)@.2),
{
    let ghost st0 = old(character)@.2;
    let mut changed = false;
    let mut i: usize = 0;
    while i < categories.len()
        invariant
            0 <= i <= categories@.len(),
            character@.0 == old(character)@.0,
            character@.1 == old(character)@.1,
            character@.2 == with_categories(st0, text_views(categories@.subrange(0, i as int))),
            changed == (character@.2.len() > st0.len()),
        decreases categories@.len() - i,
    {
        let ghost cs = text_views(categories@.subrange(0, i + 1));
        assert(cs.drop_last() =~= text_views(categories@.subrange(0, i as int)));
        proof {
            lemma_with_categories_prefix(st0, cs.drop_last());
        }
        if !find_category(&character.streaks, &categories[i]) {
            character.streaks.push(
                StreakCategory { name: categories[i].clone(), current: 0, best: 0 },
            );
            assert(streak_views(character.streaks@) =~= with_categories(st0, cs));
            changed = true;
        }
        i += 1;
    }
    assert(categories@.subrange(0, categories@.len() as int) =~= categories@);
    proof {
        lemma_with_categories_prefix(st0, text_views(categories@));
        if !changed {
            assert(character@.2 =~= character@.2.subrange(0, st0.len() as int));
        }
    }
    changed
}

/// Whether some entity of the collection has this name.
fn has_character(es: &Vec<Character>, name: &String) -> (r: bool)
    ensures
        r == has_entity(entity_views(es@), name@),
{
    let mut i: usize = 0;
    while i < es.len()
        invariant
            0 <= i <= es@.len(),
            forall|k: int| 0 <= k < i ==> es@[k].name@ != name@,
        decreases es@.len() - i,
    {
        if es[i].name == *name {
            assert(entity_views(es@)[i as int].0 == name@);
            return true;
        }
        i += 1;
    }
    false
}

/// A new character with one zeroed category per distinct listed name, in
/// list order.
fn new_character(name: String, image_path: String, categories: &Vec<String>) -> (r: Character)
    ensures
        r@ == (name@, image_path@, with_categories(Seq::empty(), text_views(categories@))),
{
    let mut r = Character { name, image_path, streaks: Vec::new() };
    assert(r@.2 =~= Seq::<StreakView>::empty());
    ensure_categories(&mut r, categories);
    r
}

/// Merges stored entities with discovered `(name, image path)` pairs and the
/// two groups' category lists: each discovered name not yet present becomes a
/// new entity with its group's categories zeroed, every entity gains the
/// missing categories of its group, and the result is sorted by name. The
/// flag tells whether anything was added.
pub fn reconcile(
    persisted: Vec<Character>,
    discovered: &Vec<(String, String)>,
    primary: &Vec<String>,
    alternate: &Vec<String>,
) -> (r: (Vec<Character>, bool))
    ensures
        entity_views(r.0@).to_multiset() == merged(
            entity_views(persisted@),
            pair_views(discovered@),
            text_views(primary@),
            text_views(alternate@),
        ).to_multiset(),
        sorted_by_name(entity_views(r.0@)),
        sorted_by_name(
            merged(
                entity_views(persisted@),
                pair_views(discovered@),
                text_views(primary@),
                text_views(alternate@),
            ),
        ) ==> entity_views(r.0@) == merged(
            entity_views(persisted@),
            pair_views(discovered@),
            text_views(primary@),
            text_views(alternate@),
        ),
        r.1 == (merged(
            entity_views(persisted@),
            pair_views(discovered@),
            text_views(primary@),
            text_views(alternate@),
        ) != entity_views(persisted@)),
{
    let ghost pv = entity_views(persisted@);
    let ghost dv = pair_views(discovered@);
    let ghost prim = text_views(primary@);
    let ghost alt = text_views(alternate@);
    let n0 = persisted.len();
    let mut chars = persisted;
    let mut i: usize = 0;
    while i < discovered.len()
        invariant
            0 <= i <= discovered@.len(),
            dv == pair_views(discovered@),
            prim == text_views(primary@),
            alt == text_views(alternate@),
            entity_views(chars@) == add_discovered(pv, dv.subrange(0, i as int), prim, alt),
        decreases discovered@.len() - i,
    {
        assert(dv.subrange(0, i + 1).drop_last() =~= dv.subrange(0, i as int));
        let name = &discovered[i].0;
        if !has_character(&chars, name) {
            let cats = if is_alternate_group(name.as_str()) {
                alternate
            } else {
                primary
            };
            let c = new_character(name.clone(), discovered[i].1.clone(), cats);
            chars.push(c);
            assert(entity_views(chars@) =~= add_discovered(pv, dv.subrange(0, i + 1), prim, alt));
        }
        i += 1;
    }
    assert(dv.subrange(0, dv.len() as int) =~= dv);
    let ghost added = entity_views(chars@);
    proof {
        lemma_add_discovered_prefix(pv, dv, prim, alt);
    }
    let mut changed = chars.len() > n0;
    let mut j: usize = 0;
    while j < chars.len()
        invariant
            prim == text_views(primary@),
            alt == text_views(alternate@),
            n0 == pv.len(),
            chars@.len() == added.len(),
            0 <= j <= added.len(),
            forall|k: int|
                0 <= k < j ==> #[trigger] entity_views(chars@)[k] == complete_entity(
                    added[k],
                    prim,
                    alt,
                ),
            forall|k: int| j <= k < added.len() ==> #[trigger] entity_views(chars@)[k] == added[k],
            changed == (added.len() > pv.len() || exists|k: int|
                0 <= k < j && #[trigger] gains_categories(added[k], prim, alt)),
        decreases added.len() - j,
    {
        let alt_group = is_alternate_group(chars[j].name.as_str());
        let cats = if alt_group {
            alternate
        } else {
            primary
        };
        let ghost before = entity_views(chars@);
        let ghost old_c = chars@[j as int];
        assert(before[j as int] == old_c@);
        assert(forall|k: int| 0 <= k < j ==> before[k] == complete_entity(added[k], prim, alt));
        assert(forall|k: int| j <= k < added.len() ==> before[k] == added[k]);
        let grew = ensure_categories(&mut chars[j], cats);
        assert(entity_views(chars@)[j as int] == chars@[j as int]@);
        assert(entity_views(chars@)[j as int] == complete_entity(added[j as int], prim, alt));
        assert(forall|k: int| 0 <= k < added.len() && k != j ==> entity_views(chars@)[k] == before[k]);
        if grew {
            assert(gains_categories(added[j as int], prim, alt));
            changed = true;
        }
        let ghost after = entity_views(chars@);
        assert forall|k: int| 0 <= k < j + 1 implies after[k] == complete_entity(
            added[k],
            prim,
            alt,
        ) by {
            if k < j {
                assert(before[k] == complete_entity(added[k], prim, alt));
                assert(after[k] == before[k]);
            }
        }
        assert(forall|k: int| j + 1 <= k < added.len() ==> after[k] == added[k]);
        j += 1;
    }
    let ghost mg = merged(pv, dv, prim, alt);
    assert(entity_views(chars@) =~= mg);
    proof {
        if added.len() == pv.len() {
            assert(added =~= added.subrange(0, pv.len() as int));
            if !changed {
                assert forall|k: int| 0 <= k < mg.len() implies mg[k] == pv[k] by {
                    assert(!gains_categories(added[k], prim, alt));
                    assert(added[k] == pv[k]);
                }
                assert(mg =~= pv);
            } else {
                let k = choose|k: int| 0 <= k < added.len() && #[trigger] gains_categories(added[k], prim, alt);
                assert(mg[k] != pv[k]);
            }
        } else {
            assert(mg.len() != pv.len());
        }
    }
    sort_by_name(&mut chars);
    (chars, changed)
}

/// Adding discovered entities keeps every stored entity, in place.
pub proof fn lemma_add_discovered_prefix(
    es: Seq<EntityView>,
    disc: Seq<(Seq<char>, Seq<char>)>,
    primary: Seq<Seq<char>>,
    alternate: Seq<Seq<char>>,
)
    ensures
        add_discovered(es, disc, primary, alternate).len() >= es.len(),
        add_discovered(es, disc, primary, alternate).subrange(0, es.len() as int) == es,
    decreases disc.len(),
{
    if disc.len() > 0 {
        lemma_add_discovered_prefix(es, disc.drop_last(), primary, alternate);
        let prev = add_discovered(es, disc.drop_last(), primary, alternate);
        let d = disc.last();
        if !has_entity(prev, d.0) {
            assert(prev.push(new_entity(d.0, d.1, primary, alternate)).subrange(0, es.len() as int)
                =~= prev.subrange(0, es.len() as int));
        }
    }
}

/// Appending categories keeps every earlier category, in place.
pub proof fn lemma_with_categories_prefix(st: Seq<StreakView>, cats: Seq<Seq<char>>)
    ensures
        with_categories(st, cats).len() >= st.len(),
        with_categories(st, cats).subrange(0, st.len() as int) == st,
    decreases cats.len(),
{
    if cats.len() > 0 {
        lemma_with_categories_prefix(st, cats.drop_last());
        let prev = with_categories(st, cats.drop_last());
        if !has_category(prev, cats.last()) {
            assert(prev.push(zero_streak(cats.last())).subrange(0, st.len() as int) =~= prev.subrange(
                0,
                st.len() as int,
            ));
        }
    }
}

/// After appending, every listed name is present.
pub proof fn lemma_with_categories_covers(st: Seq<StreakView>, cats: Seq<Seq<char>>)
    ensures
        forall|j: int| 0 <= j < cats.len() ==> has_category(with_categories(st, cats), #[trigger] cats[j]),
    decreases cats.len(),
{
    if cats.len() > 0 {
        let prev = with_categories(st, cats.drop_last());
        lemma_with_categories_covers(st, cats.drop_last());
        let r = with_categories(st, cats);
        assert forall|j: int| 0 <= j < cats.len() implies has_category(r, #[trigger] cats[j]) by {
            if j < cats.len() - 1 {
                assert(cats.drop_last()[j] == cats[j]);
                assert(has_category(prev, cats[j]));
                let i = choose|i: int| 0 <= i < prev.len() && prev[i].0 == cats[j];
                assert(r[i] == prev[i]);
            } else if !has_category(prev, cats.last()) {
                assert(r[prev.len() as int].0 == cats[j]);
            }
        }
    }
}

/// Appending names that are all present already changes nothing.
pub proof fn lemma_with_categories_noop(st: Seq<StreakView>, cats: Seq<Seq<char>>)
    requires
        forall|j: int| 0 <= j < cats.len() ==> has_category(st, #[trigger] cats[j]),
    ensures
        with_categories(st, cats) == st,
    decreases cats.len(),
{
    if cats.len() > 0 {
        assert forall|j: int| 0 <= j < cats.drop_last().len() implies has_category(
            st,
            #[trigger] cats.drop_last()[j],
        ) by {
            assert(cats.drop_last()[j] == cats[j]);
        }
        lemma_with_categories_noop(st, cats.drop_last());
        assert(has_category(st, cats[cats.len() - 1]));
    }
}

/// After adding, every discovered name is present.
pub proof fn lemma_add_discovered_covers(
    es: Seq<EntityView>,
    disc: Seq<(Seq<char>, Seq<char>)>,
    primary: Seq<Seq<char>>,
    alternate: Seq<Seq<char>>,
)
    ensures
        forall|j: int|
            0 <= j < disc.len() ==> has_entity(
                add_discovered(es, disc, primary, alternate),
                (#[trigger] disc[j]).0,
            ),
    decreases disc.len(),
{
    if disc.len() > 0 {
        let prev = add_discovered(es, disc.drop_last(), primary, alternate);
        lemma_add_discovered_covers(es, disc.drop_last(), primary, alternate);
        let r = add_discovered(es, disc, primary, alternate);
        assert forall|j: int| 0 <= j < disc.len() implies has_entity(r, (#[trigger] disc[j]).0) by {
            if j < disc.len() - 1 {
                assert(disc.drop_last()[j] == disc[j]);
                assert(has_entity(prev, disc[j].0));
                let i = choose|i: int| 0 <= i < prev.len() && prev[i].0 == disc[j].0;
                assert(r[i] == prev[i]);
            } else if !has_entity(prev, disc.last().0) {
                assert(r[prev.len() as int].0 == disc[j].0);
            }
        }
    }
}

/// Discovering only names that are present already adds nothing.
pub proof fn lemma_add_discovered_noop(
    es: Seq<EntityView>,
    disc: Seq<(Seq<char>, Seq<char>)>,
    primary: Seq<Seq<char>>,
    alternate: Seq<Seq<char>>,
)
    requires
        forall|j: int| 0 <= j < disc.len() ==> has_entity(es, (#[trigger] disc[j]).0),
    ensures
        add_discovered(es, disc, primary, alternate) == es,
    decreases disc.len(),
{
    if disc.len() > 0 {
        assert forall|j: int| 0 <= j < disc.drop_last().len() implies has_entity(
            es,
            (#[trigger] disc.drop_last()[j]).0,
        ) by {
            assert(disc.drop_last()[j] == disc[j]);
        }
        lemma_add_discovered_noop(es, disc.drop_last(), primary, alternate);
        assert(has_entity(es, disc[disc.len() - 1].0));
    }
}

/// No two entities share a name.
pub open spec fn unique_names(es: Seq<EntityView>) -> bool {
    forall|i: int, j: int| 0 <= i < j < es.len() ==> es[i].0 != es[j].0
}

proof fn lemma_add_discovered_unique(
    es: Seq<EntityView>,
    disc: Seq<(Seq<char>, Seq<char>)>,
    primary: Seq<Seq<char>>,
    alternate: Seq<Seq<char>>,
)
    requires
        unique_names(es),
    ensures
        unique_names(add_discovered(es, disc, primary, alternate)),
    decreases disc.len(),
{
    if disc.len() > 0 {
        lemma_add_discovered_unique(es, disc.drop_last(), primary, alternate);
        let prev = add_discovered(es, disc.drop_last(), primary, alternate);
        let d = disc.last();
        if !has_entity(prev, d.0) {
            let r = prev.push(new_entity(d.0, d.1, primary, alternate));
            assert forall|i: int, j: int| 0 <= i < j < r.len() implies r[i].0 != r[j].0 by {
                if j == prev.len() {
                    assert(r[i] == prev[i]);
                }
            }
        }
    }
}

/// Discovery never duplicates an entity: a discovered name that is already
/// stored, or discovered twice, yields no second entity, so a collection
/// whose names are unique keeps them unique through reconciliation.
pub proof fn lemma_discovery_no_duplicates(
    es: Seq<EntityView>,
    disc: Seq<(Seq<char>, Seq<char>)>,
    primary: Seq<Seq<char>>,
    alternate: Seq<Seq<char>>,
)
    requires
        unique_names(es),
    ensures
        unique_names(merged(es, disc, primary, alternate)),
        forall|j: int|
            0 <= j < disc.len() ==> has_entity(
                merged(es, disc, primary, alternate),
                (#[trigger] disc[j]).0,
            ),
{
    lemma_add_discovered_unique(es, disc, primary, alternate);
    lemma_add_discovered_covers(es, disc, primary, alternate);
    let added = add_discovered(es, disc, primary, alternate);
    let mg = merged(es, disc, primary, alternate);
    assert forall|j: int| 0 <= j < disc.len() implies has_entity(mg, (#[trigger] disc[j]).0) by {
        let i = choose|i: int| 0 <= i < added.len() && added[i].0 == disc[j].0;
        assert(mg[i].0 == added[i].0);
    }
    assert forall|i: int, j: int| 0 <= i < j < mg.len() implies mg[i].0 != mg[j].0 by {
        assert(mg[i].0 == added[i].0 && mg[j].0 == added[j].0);
    }
}

/// Discovery dedup holds of the sorted result too: for any arrangement
/// `out` of the merged collection (as `reconcile` returns), names stay
/// unique when the stored ones were, every discovered name is present, and
/// each stored entity appears exactly once, under its stored image path.
pub proof fn lemma_reconciled_names_unique(
    es: Seq<EntityView>,
    disc: Seq<(Seq<char>, Seq<char>)>,
    primary: Seq<Seq<char>>,
    alternate: Seq<Seq<char>>,
    out: Seq<EntityView>,
)
    requires
        unique_names(es),
        out.to_multiset() == merged(es, disc, primary, alternate).to_multiset(),
    ensures
        unique_names(out),
        forall|j: int| 0 <= j < disc.len() ==> has_entity(out, (#[trigger] disc[j]).0),
        forall|k: int|
            0 <= k < es.len() ==> exists|i: int|
                0 <= i < out.len() && (#[trigger] out[i]).0 == (#[trigger] es[k]).0 && out[i].1
                    == es[k].1,
{
    broadcast use vstd::seq_lib::group_to_multiset_ensures;

    let mg = merged(es, disc, primary, alternate);
    lemma_discovery_no_duplicates(es, disc, primary, alternate);
    lemma_categories_append_only(es, disc, primary, alternate);
    assert(mg.no_duplicates()) by {
        assert forall|i: int, j: int| 0 <= i < mg.len() && 0 <= j < mg.len() && i != j implies mg[i]
            != mg[j] by {
            if i < j {
                assert(mg[i].0 != mg[j].0);
            } else {
                assert(mg[j].0 != mg[i].0);
            }
        }
    }
    mg.lemma_multiset_has_no_duplicates();
    out.lemma_multiset_has_no_duplicates_conv();
    assert forall|i: int, j: int| 0 <= i < j < out.len() implies out[i].0 != out[j].0 by {
        assert(out.contains(out[i]) && out.contains(out[j]));
        assert(mg.to_multiset().count(out[i]) > 0 && mg.to_multiset().count(out[j]) > 0);
        assert(mg.contains(out[i]) && mg.contains(out[j]));
        let a = choose|a: int| 0 <= a < mg.len() && mg[a] == out[i];
        let b = choose|b: int| 0 <= b < mg.len() && mg[b] == out[j];
        assert(out[i] != out[j]);
        if a < b {
            assert(mg[a].0 != mg[b].0);
        } else if b < a {
            assert(mg[b].0 != mg[a].0);
        }
    }
    assert forall|x: EntityView| mg.contains(x) implies out.contains(x) by {
        assert(mg.to_multiset().count(x) > 0);
    }
    assert forall|j: int| 0 <= j < disc.len() implies has_entity(out, (#[trigger] disc[j]).0) by {
        let a = choose|a: int| 0 <= a < mg.len() && mg[a].0 == disc[j].0;
        assert(mg.contains(mg[a]));
        let i = choose|i: int| 0 <= i < out.len() && out[i] == mg[a];
        assert(out[i].0 == disc[j].0);
    }
    assert forall|k: int| 0 <= k < es.len() implies exists|i: int|
        0 <= i < out.len() && (#[trigger] out[i]).0 == (#[trigger] es[k]).0 && out[i].1 == es[k].1 by {
        assert(mg[k].0 == es[k].0 && mg[k].1 == es[k].1);
        assert(mg.contains(mg[k]));
        let i = choose|i: int| 0 <= i < out.len() && out[i] == mg[k];
        assert(out[i].0 == es[k].0);
    }
}

/// Categories are append-only: every stored entity keeps its name, its image
/// path and all its categories, with their counters, in place; reconciliation
/// only appends after them.
pub proof fn lemma_categories_append_only(
    es: Seq<EntityView>,
    disc: Seq<(Seq<char>, Seq<char>)>,
    primary: Seq<Seq<char>>,
    alternate: Seq<Seq<char>>,
)
    ensures
        merged(es, disc, primary, alternate).len() >= es.len(),
        forall|k: int|
            0 <= k < es.len() ==> {
                let m = #[trigger] merged(es, disc, primary, alternate)[k];
                &&& m.0 == es[k].0
                &&& m.1 == es[k].1
                &&& m.2.len() >= es[k].2.len()
                &&& m.2.subrange(0, es[k].2.len() as int) == es[k].2
            },
        forall|k: int, j: int|
            0 <= k < es.len() && 0 <= j < es[k].2.len() ==> has_category(
                #[trigger] merged(es, disc, primary, alternate)[k].2,
                #[trigger] es[k].2[j].0,
            ),
{
    lemma_add_discovered_prefix(es, disc, primary, alternate);
    let added = add_discovered(es, disc, primary, alternate);
    let mg = merged(es, disc, primary, alternate);
    assert forall|k: int| 0 <= k < es.len() implies {
        let m = #[trigger] mg[k];
        &&& m.0 == es[k].0
        &&& m.1 == es[k].1
        &&& m.2.len() >= es[k].2.len()
        &&& m.2.subrange(0, es[k].2.len() as int) == es[k].2
    } by {
        assert(added[k] == added.subrange(0, es.len() as int)[k]);
        lemma_with_categories_prefix(es[k].2, group_categories(es[k].0, primary, alternate));
    }
    assert forall|k: int, j: int| 0 <= k < es.len() && 0 <= j < es[k].2.len() implies has_category(
        #[trigger] mg[k].2,
        #[trigger] es[k].2[j].0,
    ) by {
        assert(mg[k].2.subrange(0, es[k].2.len() as int)[j] == es[k].2[j]);
        assert(mg[k].2[j].0 == es[k].2[j].0);
    }
}

/// Reconciliation is idempotent: reconciling any arrangement of a
/// reconciled collection again, with the same discovered files and category
/// lists, merges to that same arrangement. So a second run reports no change
/// and, the first run's output being sorted, returns it unchanged.
pub proof fn lemma_reconcile_idempotent(
    es: Seq<EntityView>,
    disc: Seq<(Seq<char>, Seq<char>)>,
    primary: Seq<Seq<char>>,
    alternate: Seq<Seq<char>>,
    out: Seq<EntityView>,
)
    requires
        out.to_multiset() == merged(es, disc, primary, alternate).to_multiset(),
    ensures
        merged(out, disc, primary, alternate) == out,
{
    broadcast use vstd::seq_lib::group_to_multiset_ensures;

    let added = add_discovered(es, disc, primary, alternate);
    let mg = merged(es, disc, primary, alternate);
    lemma_add_discovered_covers(es, disc, primary, alternate);
    assert forall|j: int| 0 <= j < disc.len() implies has_entity(out, (#[trigger] disc[j]).0) by {
        let i = choose|i: int| 0 <= i < added.len() && added[i].0 == disc[j].0;
        assert(mg[i].0 == disc[j].0);
        assert(mg.contains(mg[i]));
        assert(out.to_multiset().count(mg[i]) > 0);
        assert(out.contains(mg[i]));
        let k = choose|k: int| 0 <= k < out.len() && out[k] == mg[i];
        assert(out[k].0 == disc[j].0);
    }
    lemma_add_discovered_noop(out, disc, primary, alternate);
    assert forall|k: int| 0 <= k < out.len() implies #[trigger] complete_entity(
        out[k],
        primary,
        alternate,
    ) == out[k] by {
        assert(out.contains(out[k]));
        assert(mg.to_multiset().count(out[k]) > 0);
        assert(mg.contains(out[k]));
        let i = choose|i: int| 0 <= i < mg.len() && mg[i] == out[k];
        let g = group_categories(added[i].0, primary, alternate);
        lemma_with_categories_covers(added[i].2, g);
        assert(out[k].2 == with_categories(added[i].2, g));
        lemma_with_categories_noop(out[k].2, g);
    }
    assert(merged(out, disc, primary, alternate) =~= out);
}

} // verus!
