//! Category configuration: which lines of a category file name a category,
//! the default category sets, and the text of a fresh configuration file.
use vstd::prelude::*;
use vstd::string::StrSliceExecFns;
use vstd::string::StringExecFns;
use crate::model::{copy_texts, text_views};

verus! {

/// The Unicode `White_Space` characters, which `char::is_whitespace` names.
pub open spec fn white_space(c: char) -> bool {
    let u = c as u32;
    (0x9 <= u && u <= 0xD) || u == 0x20 || u == 0x85 || u == 0xA0 || u == 0x1680 || (0x2000 <= u
        && u <= 0x200A) || u == 0x2028 || u == 0x2029 || u == 0x202F || u == 0x205F || u == 0x3000
}

/// Whether the character is Unicode whitespace.
pub fn is_space(c: char) -> (r: bool)
    ensures
        r == white_space(c),
{
    let u = c as u32;
    (0x9 <= u && u <= 0xD) || u == 0x20 || u == 0x85 || u == 0xA0 || u == 0x1680 || (0x2000 <= u
        && u <= 0x200A) || u == 0x2028 || u == 0x2029 || u == 0x202F || u == 0x205F || u == 0x3000
}

pub open spec fn trim_start(s: Seq<char>) -> Seq<char>
    decreases s.len(),
{
    if s.len() > 0 && white_space(s[0]) {
        trim_start(s.drop_first())
    } else {
        s
    }
}

pub open spec fn trim_end(s: Seq<char>) -> Seq<char>
    decreases s.len(),
{
    if s.len() > 0 && white_space(s.last()) {
        trim_end(s.drop_last())
    } else {
        s
    }
}

/// A line without its leading and trailing whitespace.
pub open spec fn trimmed(s: Seq<char>) -> Seq<char> {
    trim_end(trim_start(s))
}

/// Whether a trimmed line names a category: it is not empty and is not a
/// comment.
pub open spec fn names_category(t: Seq<char>) -> bool {
    t.len() > 0 && t[0] != '#'
}

/// The categories that a file's lines name, trimmed, in file order,
/// duplicates kept.
pub open spec fn category_lines(lines: Seq<Seq<char>>) -> Seq<Seq<char>>
    decreases lines.len(),
{
    if lines.len() == 0 {
        Seq::empty()
    } else {
        let prev = category_lines(lines.drop_last());
        let t = trimmed(lines.last());
        if names_category(t) {
            prev.push(t)
        } else {
            prev
        }
    }
}

/// Removes leading and trailing whitespace from a line.
pub fn trim_line(s: &str) -> (r: String)
    ensures
        r@ == trimmed(s@),
{
    let n = s.unicode_len();
    let mut lo: usize = 0;
    assert(s@.subrange(0, n as int) =~= s@);
    while lo < n && is_space(s.get_char(lo))
        invariant
            n == s@.len(),
            0 <= lo <= n,
            trim_start(s@) == trim_start(s@.subrange(lo as int, n as int)),
        decreases n - lo,
    {
        assert(s@.subrange(lo as int, n as int).drop_first() =~= s@.subrange(lo + 1, n as int));
        lo += 1;
    }
    let mut hi: usize = n;
    while hi > lo && is_space(s.get_char(hi - 1))
        invariant
            n == s@.len(),
            0 <= lo <= hi <= n,
            trimmed(s@) == trim_end(s@.subrange(lo as int, hi as int)),
        decreases hi - lo,
    {
        assert(s@.subrange(lo as int, hi as int).drop_last() =~= s@.subrange(lo as int, hi - 1));
        hi -= 1;
    }
    String::from_str(s.substring_char(lo, hi))
}

/// The category names among a category file's lines: each line is trimmed,
/// and empty lines and lines starting with `#` are left out.
pub fn parse_categories(lines: &Vec<String>) -> (r: Vec<String>)
    ensures
        text_views(r@) == category_lines(text_views(lines@)),
{
    let mut r: Vec<String> = Vec::new();
    let mut i: usize = 0;
    while i < lines.len()
        invariant
            0 <= i <= lines@.len(),
            text_views(r@) == category_lines(text_views(lines@.subrange(0, i as int))),
        decreases lines@.len() - i,
    {
        let t = trim_line(lines[i].as_str());
        let ghost before = r@;
        let keep = t.unicode_len() > 0 && t.as_str().get_char(0) != '#';
        if keep {
            r.push(t);
        }
        assert(text_views(lines@.subrange(0, i + 1)).drop_last() =~= text_views(
            lines@.subrange(0, i as int),
        ));
        assert(text_views(r@) =~= category_lines(text_views(lines@.subrange(0, i + 1))));
        i += 1;
    }
    assert(lines@.subrange(0, lines@.len() as int) =~= lines@);
    r
}

/// The categories a configuration file's lines name, or `defaults` when they
/// name none; the flag tells whether the defaults were taken, in which case
/// the file is due to be written afresh.
pub fn categories_or_defaults(lines: &Vec<String>, defaults: &Vec<String>) -> (r: (
    Vec<String>,
    bool,
))
    ensures
        r.1 == (category_lines(text_views(lines@)).len() == 0),
        r.1 ==> text_views(r.0@) == text_views(defaults@),
        !r.1 ==> text_views(r.0@) == category_lines(text_views(lines@)),
{
    let parsed = parse_categories(lines);
    if parsed.len() == 0 {
        (copy_texts(defaults), true)
    } else {
        (parsed, false)
    }
}

/// The primary group's default categories.
pub open spec fn primary_defaults() -> Seq<Seq<char>> {
    seq![
        seq!['4', 'k'],
        seq!['3', 'k'],
        seq!['P', 'e', 'r', 'k', 'l', 'e', 's', 's', ' ', '4', 'k'],
        seq!['P', 'e', 'r', 'k', 'l', 'e', 's', 's', ' ', '3', 'k'],
    ]
}

/// The alternate group's default categories.
pub open spec fn alternate_defaults() -> Seq<Seq<char>> {
    seq![
        seq!['S', 'o', 'l', 'o', ' ', 'e', 's', 'c', 'a', 'p', 'e'],
        seq!['3', ' ', 'o', 'u', 't'],
    ]
}

/// The primary group's default categories: `4k`, `3k`, `Perkless 4k`,
/// `Perkless 3k`.
pub fn default_primary_categories() -> (r: Vec<String>)
    ensures
        text_views(r@) == primary_defaults(),
{
    proof {
        reveal_strlit("4k");
        reveal_strlit("3k");
        reveal_strlit("Perkless 4k");
        reveal_strlit("Perkless 3k");
    }
    let a = String::from_str("4k");
    let b = String::from_str("3k");
    let c = String::from_str("Perkless 4k");
    let d = String::from_str("Perkless 3k");
    assert(a@ =~= primary_defaults()[0]);
    assert(b@ =~= primary_defaults()[1]);
    assert(c@ =~= primary_defaults()[2]);
    assert(d@ =~= primary_defaults()[3]);
    let r = vec![a, b, c, d];
    assert(text_views(r@) =~= primary_defaults());
    r
}

/// The alternate group's default categories: `Solo escape`, `3 out`.
pub fn default_alternate_categories() -> (r: Vec<String>)
    ensures
        text_views(r@) == alternate_defaults(),
{
    proof {
        reveal_strlit("Solo escape");
        reveal_strlit("3 out");
    }
    let a = String::from_str("Solo escape");
    let b = String::from_str("3 out");
    assert(a@ =~= alternate_defaults()[0]);
    assert(b@ =~= alternate_defaults()[1]);
    let r = vec![a, b];
    assert(text_views(r@) =~= alternate_defaults());
    r
}

/// The commented header of a fresh category file.
pub open spec fn header_lines() -> Seq<Seq<char>> {
    seq![
        "# Streak Categories Configuration"@,
        "# Each line represents a streak type you want to track."@,
        "# Lines starting with # are comments and will be ignored."@,
        "# Empty lines are also ignored."@,
        "#"@,
        "# Default streak categories:"@,
    ]
}

/// The lines of a fresh category file: the commented header, then one line
/// per default category.
pub fn default_file_lines(defaults: &Vec<String>) -> (r: Vec<String>)
    ensures
        text_views(r@) == header_lines() + text_views(defaults@),
{
    let mut r = vec![
        String::from_str("# Streak Categories Configuration"),
        String::from_str("# Each line represents a streak type you want to track."),
        String::from_str("# Lines starting with # are comments and will be ignored."),
        String::from_str("# Empty lines are also ignored."),
        String::from_str("#"),
        String::from_str("# Default streak categories:"),
    ];
    assert(text_views(r@) =~= header_lines());
    let mut i: usize = 0;
    while i < defaults.len()
        invariant
            0 <= i <= defaults@.len(),
            r@.len() == 6 + i,
            forall|k: int| 0 <= k < 6 ==> #[trigger] r@[k]@ == header_lines()[k],
            forall|k: int| 0 <= k < i ==> r@[6 + k]@ == defaults@[k]@,
        decreases defaults@.len() - i,
    {
        r.push(defaults[i].clone());
        i += 1;
    }
    assert(text_views(r@) =~= header_lines() + text_views(defaults@));
    r
}

} // verus!
