use streak_tracker::categories::{
    categories_or_defaults, default_alternate_categories, default_file_lines,
    default_primary_categories, is_space, parse_categories, trim_line,
};
use streak_tracker::model::{Character, StreakCategory};
use streak_tracker::discovery::{discover, format_classified, format_name, is_png_extension, MediaFile};
use streak_tracker::reconcile::{eq_ascii_case, ensure_categories, is_alternate_group, reconcile};
use streak_tracker::store::Store;

fn texts(v: &[&str]) -> Vec<String> {
    v.iter().map(|s| s.to_string()).collect()
}

fn streak(name: &str, current: i32, best: i32) -> StreakCategory {
    StreakCategory { name: name.to_string(), current, best }
}

fn character(name: &str, streaks: Vec<StreakCategory>) -> Character {
    Character {
        name: name.to_string(),
        image_path: format!("media/{}.png", name),
        streaks,
    }
}

fn media(stem: &str, ext: &str) -> MediaFile {
    MediaFile {
        stem: stem.to_string(),
        extension: ext.to_string(),
        path: format!("media/{}.{}", stem, ext),
    }
}

fn names_of(c: &Character) -> Vec<String> {
    c.streaks.iter().map(|s| s.name.clone()).collect()
}

#[test]
fn name_from_underscored_stem() {
    assert_eq!(format_name("Ghost_Face"), "Ghost Face");
    assert_eq!(format_name("The_Trapper"), "The Trapper");
}

#[test]
fn name_from_single_word() {
    assert_eq!(format_name("Oni"), "Oni");
    assert_eq!(format_name(""), "");
}

#[test]
fn name_from_camel_case() {
    assert_eq!(format_name("PigMask"), "Pig Mask");
    assert_eq!(format_name("GhostFace"), "Ghost Face");
    assert_eq!(format_name("ABC"), "ABC");
    assert_eq!(format_name("theDoctorX"), "the Doctor X");
}

#[test]
fn trim_removes_outer_whitespace() {
    assert_eq!(trim_line("  4k \t"), "4k");
    assert_eq!(trim_line("Perkless 3k"), "Perkless 3k");
    assert_eq!(trim_line("   "), "");
}

#[test]
fn parse_skips_comments_and_blank_lines() {
    let lines = texts(&["# header", "", "  4k  ", "   ", "#3k", "3k", "4k", "  # indented"]);
    assert_eq!(parse_categories(&lines), texts(&["4k", "3k", "4k"]));
}

#[test]
fn empty_file_falls_back_to_defaults() {
    let defaults = default_primary_categories();
    let (cats, fell_back) = categories_or_defaults(&texts(&["# only a comment", ""]), &defaults);
    assert!(fell_back);
    assert_eq!(cats, texts(&["4k", "3k", "Perkless 4k", "Perkless 3k"]));
    let (cats, fell_back) = categories_or_defaults(&texts(&["Solo"]), &defaults);
    assert!(!fell_back);
    assert_eq!(cats, texts(&["Solo"]));
}

#[test]
fn default_category_sets() {
    assert_eq!(default_primary_categories(), texts(&["4k", "3k", "Perkless 4k", "Perkless 3k"]));
    assert_eq!(default_alternate_categories(), texts(&["Solo escape", "3 out"]));
}

#[test]
fn default_file_reads_back_as_defaults() {
    let defaults = default_alternate_categories();
    let lines = default_file_lines(&defaults);
    assert_eq!(
        lines,
        texts(&[
            "# Streak Categories Configuration",
            "# Each line represents a streak type you want to track.",
            "# Lines starting with # are comments and will be ignored.",
            "# Empty lines are also ignored.",
            "#",
            "# Default streak categories:",
            "Solo escape",
            "3 out",
        ])
    );
    assert_eq!(parse_categories(&lines), defaults);
}

#[test]
fn png_extension_ignores_ascii_case() {
    assert!(is_png_extension("png"));
    assert!(is_png_extension("PNG"));
    assert!(is_png_extension("pNg"));
    assert!(!is_png_extension("jpg"));
    assert!(!is_png_extension("pngx"));
    assert!(!is_png_extension(""));
}

#[test]
fn discover_keeps_png_files_in_order() {
    let files = vec![media("The_Trapper", "png"), media("notes", "txt"), media("PigMask", "PNG")];
    let found = discover(&files);
    assert_eq!(
        found,
        vec![
            ("The Trapper".to_string(), "media/The_Trapper.png".to_string()),
            ("Pig Mask".to_string(), "media/PigMask.PNG".to_string()),
        ]
    );
}

#[test]
fn alternate_group_ignores_ascii_case() {
    assert!(is_alternate_group("survivor"));
    assert!(is_alternate_group("Survivor"));
    assert!(is_alternate_group("SURVIVOR"));
    assert!(!is_alternate_group("survivors"));
    assert!(!is_alternate_group("Nurse"));
}

#[test]
fn ensure_appends_only_missing_categories() {
    let mut c = character("Nurse", vec![streak("3k", 2, 5), streak("Custom", 1, 1)]);
    let changed = ensure_categories(&mut c, &texts(&["4k", "3k", "4k"]));
    assert!(changed);
    assert_eq!(c.streaks, vec![streak("3k", 2, 5), streak("Custom", 1, 1), streak("4k", 0, 0)]);
    assert!(!ensure_categories(&mut c, &texts(&["4k", "3k"])));
    assert_eq!(c.streaks.len(), 3);
}

#[test]
fn end_to_end_empty_then_one_media_file() {
    let primary = default_primary_categories();
    let alternate = default_alternate_categories();
    let (first, changed) = reconcile(Vec::new(), &Vec::new(), &primary, &alternate);
    assert!(first.is_empty());
    assert!(!changed);

    let found = discover(&vec![media("Nurse", "png")]);
    let (second, changed) = reconcile(first, &found, &primary, &alternate);
    assert!(changed);
    assert_eq!(second.len(), 1);
    assert_eq!(second[0].name, "Nurse");
    assert_eq!(second[0].image_path, "media/Nurse.png");
    assert_eq!(
        second[0].streaks,
        vec![streak("4k", 0, 0), streak("3k", 0, 0), streak("Perkless 4k", 0, 0), streak("Perkless 3k", 0, 0)]
    );
}

#[test]
fn reconcile_twice_reports_no_change() {
    let primary = default_primary_categories();
    let alternate = default_alternate_categories();
    let stored = vec![character("Wraith", vec![streak("4k", 3, 4)])];
    let found = discover(&vec![media("Survivor", "png"), media("Ghost_Face", "png")]);
    let (once, changed) = reconcile(stored, &found, &primary, &alternate);
    assert!(changed);
    let (twice, changed) = reconcile(once.clone(), &found, &primary, &alternate);
    assert!(!changed);
    assert_eq!(once, twice);
}

#[test]
fn reconcile_sorts_by_name_bytewise() {
    let primary = texts(&["4k"]);
    let alternate = texts(&["Solo escape"]);
    let stored = vec![character("b", vec![]), character("Z", vec![]), character("a", vec![])];
    let (out, _) = reconcile(stored, &Vec::new(), &primary, &alternate);
    let names: Vec<String> = out.iter().map(|c| c.name.clone()).collect();
    assert_eq!(names, texts(&["Z", "a", "b"]));
}

#[test]
fn discovered_name_matching_stored_entity_is_not_duplicated() {
    let primary = default_primary_categories();
    let alternate = default_alternate_categories();
    let stored = vec![character("Ghost Face", vec![streak("4k", 1, 2)])];
    let found = discover(&vec![media("Ghost_Face", "png"), media("GhostFace", "png")]);
    let (out, _) = reconcile(stored, &found, &primary, &alternate);
    assert_eq!(out.len(), 1);
    assert_eq!(out[0].image_path, "media/Ghost Face.png");
    assert_eq!(out[0].streaks[0], streak("4k", 1, 2));
}

#[test]
fn dedup_is_case_sensitive() {
    let primary = texts(&["4k"]);
    let alternate = texts(&["Solo escape"]);
    let stored = vec![character("nurse", vec![streak("4k", 0, 0)])];
    let found = vec![("Nurse".to_string(), "media/Nurse.png".to_string())];
    let (out, changed) = reconcile(stored, &found, &primary, &alternate);
    assert!(changed);
    assert_eq!(out.len(), 2);
}

#[test]
fn survivor_gets_alternate_categories() {
    let primary = default_primary_categories();
    let alternate = default_alternate_categories();
    let found = discover(&vec![media("survivor", "png")]);
    let (out, _) = reconcile(Vec::new(), &found, &primary, &alternate);
    assert_eq!(names_of(&out[0]), texts(&["Solo escape", "3 out"]));
}

#[test]
fn shrinking_category_list_removes_nothing() {
    let stored = vec![character("Nurse", vec![streak("4k", 1, 3), streak("Old", 2, 2)])];
    let (out, changed) = reconcile(stored, &Vec::new(), &texts(&["3k"]), &texts(&[]));
    assert!(changed);
    assert_eq!(out[0].streaks, vec![streak("4k", 1, 3), streak("Old", 2, 2), streak("3k", 0, 0)]);
}

fn single_store(current: i32, best: i32, floor_rule: bool) -> Store {
    Store::new(vec![character("Nurse", vec![streak("4k", current, best), streak("3k", 0, 0)])], floor_rule)
}

#[test]
fn loss_resets_current_and_keeps_best() {
    let mut store = single_store(5, 7, false);
    assert_eq!(store.record_outcome(false), (0, 7));
    assert_eq!(store.selected_counts(), Some((0, 7)));
}

#[test]
fn win_increments_and_may_raise_best() {
    let mut store = single_store(2, 2, false);
    assert_eq!(store.record_outcome(true), (3, 3));
    let mut store = single_store(0, 5, false);
    assert_eq!(store.record_outcome(true), (1, 5));
}

#[test]
fn best_never_decreases_over_a_sequence() {
    let mut store = single_store(0, 0, false);
    let mut last_best = 0;
    for win in [true, true, false, true, false, false, true, true, true] {
        let (current, best) = store.record_outcome(win);
        assert!(best >= last_best);
        assert!(best >= current);
        last_best = best;
    }
    assert_eq!(store.selected_counts(), Some((3, 3)));
}

#[test]
fn win_at_largest_counter_saturates() {
    let mut store = single_store(i32::MAX, i32::MAX, false);
    assert_eq!(store.record_outcome(true), (i32::MAX, i32::MAX));
}

#[test]
fn floor_rule_raises_three_k_best() {
    let mut store = Store::new(
        vec![character("Nurse", vec![streak("4k", 0, 6), streak("3k", 1, 2), streak("Perkless 4k", 0, 0)])],
        true,
    );
    assert!(store.select_category(&"Perkless 4k".to_string()));
    assert_eq!(store.record_outcome(true), (1, 1));
    assert_eq!(store.entities[0].streaks[1], streak("3k", 1, 6));
    store.entities[0].streaks[1].best = 0;
    store.record_outcome(false);
    assert_eq!(store.entities[0].streaks[1].best, 0);
}

#[test]
fn floor_rule_off_or_for_survivor_does_nothing() {
    let mut store = Store::new(vec![character("Nurse", vec![streak("4k", 0, 6), streak("3k", 0, 0)])], false);
    store.record_outcome(true);
    assert_eq!(store.entities[0].streaks[1], streak("3k", 0, 0));
    let mut store = Store::new(vec![character("Survivor", vec![streak("4k", 0, 6), streak("3k", 0, 0)])], true);
    store.record_outcome(true);
    assert_eq!(store.entities[0].streaks[1], streak("3k", 0, 0));
}

#[test]
fn selecting_entity_resets_category() {
    let mut store = Store::new(
        vec![
            character("Nurse", vec![streak("4k", 0, 0), streak("3k", 4, 4)]),
            character("Wraith", vec![streak("4k", 1, 2), streak("3k", 0, 0)]),
        ],
        false,
    );
    assert!(store.select_category(&"3k".to_string()));
    assert_eq!(store.selected_category, 1);
    assert!(store.select_entity(&"Wraith".to_string()));
    assert_eq!(store.selected_entity, 1);
    assert_eq!(store.selected_category, 0);
    assert_eq!(store.selected_counts(), Some((1, 2)));
    assert_eq!(store.category_names(), texts(&["4k", "3k"]));
    assert_eq!(store.selected().map(|c| c.name.clone()), Some("Wraith".to_string()));
}

#[test]
fn selecting_missing_name_changes_nothing() {
    let mut store = Store::new(vec![character("Nurse", vec![streak("4k", 0, 0), streak("3k", 4, 4)])], false);
    assert!(store.select_category(&"3k".to_string()));
    assert!(!store.select_entity(&"Nobody".to_string()));
    assert!(!store.select_category(&"5k".to_string()));
    assert_eq!(store.selected_entity, 0);
    assert_eq!(store.selected_category, 1);
    assert_eq!(store.entity_names(), texts(&["Nurse"]));
}

#[test]
fn empty_store_records_nothing() {
    let mut store = Store::new(Vec::new(), true);
    assert_eq!(store.record_outcome(true), (0, 0));
    assert_eq!(store.selected_counts(), None);
    assert!(store.selected().is_none());
    assert!(store.category_names().is_empty());
    assert!(!store.select_category(&"4k".to_string()));
}

#[test]
fn classified_name_follows_given_flags() {
    // "aB_c": lowercase a, uppercase B, the space from `_`, lowercase c
    let upper = vec![false, true, false, false];
    let lower = vec![true, false, false, true];
    assert_eq!(format_classified("aB_c", &upper, &lower), "a B c");
    // the same characters, classified as if none were lowercase
    assert_eq!(format_classified("aB_c", &upper, &vec![false; 4]), "aB c");
    assert_eq!(format_classified("xy", &vec![true, true], &vec![true, true]), "x y");
}

#[test]
fn whitespace_set() {
    for c in [' ', '\t', '\n', '\r', '\u{0B}', '\u{0C}', '\u{85}', '\u{A0}', '\u{1680}', '\u{2000}', '\u{200A}', '\u{2028}', '\u{2029}', '\u{202F}', '\u{205F}', '\u{3000}'] {
        assert!(is_space(c), "{:?}", c);
        assert_eq!(is_space(c), c.is_whitespace());
    }
    for c in ['a', '_', '#', '\u{200B}', '\u{1F}', '\u{2030}'] {
        assert!(!is_space(c), "{:?}", c);
        assert_eq!(is_space(c), c.is_whitespace());
    }
    assert_eq!(trim_line("\u{3000}4k\u{A0}"), "4k");
}

#[test]
fn ascii_case_compare() {
    assert!(eq_ascii_case("Perkless 4K", "perkless 4k"));
    assert!(!eq_ascii_case("4k", "4k "));
    assert!(!eq_ascii_case("é", "É"));
}

#[test]
fn new_entity_gets_each_listed_category_once() {
    let primary = texts(&["4k", "3k", "4k"]);
    let alternate = texts(&["Solo escape", "Solo escape"]);
    let found = discover(&vec![media("Nurse", "png"), media("Survivor", "png")]);
    let (out, changed) = reconcile(Vec::new(), &found, &primary, &alternate);
    assert!(changed);
    assert_eq!(out[0].name, "Nurse");
    assert_eq!(out[0].streaks, vec![streak("4k", 0, 0), streak("3k", 0, 0)]);
    assert_eq!(out[1].name, "Survivor");
    assert_eq!(out[1].streaks, vec![streak("Solo escape", 0, 0)]);
}
