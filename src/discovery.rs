//! Media-file discovery and the display names derived from file stems.
use vstd::prelude::*;
use vstd::string::StrSliceExecFns;
use vstd::string::StringExecFns;
use crate::reconcile::{eq_ascii_case, eq_ignore_ascii_case};

verus! {

/// What `char::is_uppercase` answers for a character.
pub uninterp spec fn upper_case(c: char) -> bool;

/// What `char::is_lowercase` answers for a character.
pub uninterp spec fn lower_case(c: char) -> bool;

/// Relies on `char::is_uppercase`: whether the character has the Unicode
/// `Uppercase` property.
#[verifier::external_body]
fn is_upper(c: char) -> (r: bool)
    ensures
        r == upper_case(c),
{
    c.is_uppercase()
}

/// Relies on `char::is_lowercase`: whether the character has the Unicode
/// `Lowercase` property.
#[verifier::external_body]
fn is_lower(c: char) -> (r: bool)
    ensures
        r == lower_case(c),
{
    c.is_lowercase()
}

/// An underscore reads as a space.
pub open spec fn unscore(c: char) -> char {
    if c == '_' {
        ' '
    } else {
        c
    }
}

/// What position `i` of the stem contributes to the display name, given for
/// each position whether its character (underscores read as spaces) is
/// uppercase and whether it is lowercase: a space goes before an uppercase
/// character that follows a lowercase one.
pub open spec fn name_piece(stem: Seq<char>, upper: Seq<bool>, lower: Seq<bool>, i: int) -> Seq<
    char,
> {
    if i > 0 && upper[i] && lower[i - 1] {
        seq![' ', unscore(stem[i])]
    } else {
        seq![unscore(stem[i])]
    }
}

/// The display name of the first `n` characters of a stem, under the given
/// classifications.
pub open spec fn display_prefix(stem: Seq<char>, upper: Seq<bool>, lower: Seq<bool>, n: nat) -> Seq<
    char,
>
    decreases n,
{
    if n == 0 {
        Seq::empty()
    } else {
        display_prefix(stem, upper, lower, (n - 1) as nat) + name_piece(stem, upper, lower, n - 1)
    }
}

/// Whether each character of the stem, underscores read as spaces, is
/// uppercase.
pub open spec fn upper_flags(stem: Seq<char>) -> Seq<bool> {
    Seq::new(stem.len(), |i: int| upper_case(unscore(stem[i])))
}

/// Whether each character of the stem, underscores read as spaces, is
/// lowercase.
pub open spec fn lower_flags(stem: Seq<char>) -> Seq<bool> {
    Seq::new(stem.len(), |i: int| lower_case(unscore(stem[i])))
}

/// The display name of a stem: underscores become spaces, and a space goes
/// before each uppercase letter that follows a lowercase one.
pub open spec fn display_name(stem: Seq<char>) -> Seq<char> {
    display_prefix(stem, upper_flags(stem), lower_flags(stem), stem.len())
}

/// Derives a display name from a stem and, for each of its characters
/// (underscores read as spaces), whether it is uppercase and whether it is
/// lowercase.
pub fn format_classified(stem: &str, upper: &Vec<bool>, lower: &Vec<bool>) -> (r: String)
    requires
        upper@.len() == stem@.len(),
        lower@.len() == stem@.len(),
    ensures
        r@ == display_prefix(stem@, upper@, lower@, stem@.len()),
{
    proof {
        reveal_strlit(" ");
    }
    assert(" "@ =~= seq![' ']);
    let n = stem.unicode_len();
    let mut out = String::new();
    let mut i: usize = 0;
    while i < n
        invariant
            n == stem@.len(),
            upper@.len() == n,
            lower@.len() == n,
            " "@ == seq![' '],
            0 <= i <= n,
            out@ == display_prefix(stem@, upper@, lower@, i as nat),
        decreases n - i,
    {
        let ghost before = out@;
        let c = stem.get_char(i);
        if i > 0 && upper[i] && lower[i - 1] {
            out.append(" ");
        }
        if c == '_' {
            out.append(" ");
        } else {
            let one = stem.substring_char(i, i + 1);
            assert(one@ =~= seq![c]);
            out.append(one);
        }
        assert(display_prefix(stem@, upper@, lower@, (i + 1) as nat) == before + name_piece(
            stem@,
            upper@,
            lower@,
            i as int,
        ));
        assert(out@ =~= before + name_piece(stem@, upper@, lower@, i as int));
        i += 1;
    }
    out
}

/// Derives an entity's display name from a media file stem.
pub fn format_name(stem: &str) -> (r: String)
    ensures
        r@ == display_name(stem@),
{
    let n = stem.unicode_len();
    let mut upper: Vec<bool> = Vec::new();
    let mut lower: Vec<bool> = Vec::new();
    let mut i: usize = 0;
    while i < n
        invariant
            n == stem@.len(),
            0 <= i <= n,
            upper@.len() == i,
            lower@.len() == i,
            forall|k: int| 0 <= k < i ==> upper@[k] == upper_flags(stem@)[k],
            forall|k: int| 0 <= k < i ==> lower@[k] == lower_flags(stem@)[k],
        decreases n - i,
    {
        let c = stem.get_char(i);
        let shown = if c == '_' {
            ' '
        } else {
            c
        };
        upper.push(is_upper(shown));
        lower.push(is_lower(shown));
        i += 1;
    }
    assert(upper@ =~= upper_flags(stem@));
    assert(lower@ =~= lower_flags(stem@));
    format_classified(stem, &upper, &lower)
}

/// The extension that marks a media file.
pub open spec fn png_text() -> Seq<char> {
    seq!['p', 'n', 'g']
}

/// A directory entry offered for discovery: its file stem, its extension
/// (empty when it has none) and its full path.
pub struct MediaFile {
    pub stem: String,
    pub extension: String,
    pub path: String,
}

pub open spec fn is_media(f: MediaFile) -> bool {
    eq_ignore_ascii_case(f.extension@, png_text())
}

/// The `(display name, path)` pairs of the media files among the first `n`
/// entries, in entry order.
pub open spec fn discovered_prefix(files: Seq<MediaFile>, n: nat) -> Seq<(Seq<char>, Seq<char>)>
    decreases n,
{
    if n == 0 {
        Seq::empty()
    } else {
        let prev = discovered_prefix(files, (n - 1) as nat);
        let f = files[n - 1];
        if is_media(f) {
            prev.push((display_name(f.stem@), f.path@))
        } else {
            prev
        }
    }
}

/// Whether an extension is `png` up to ASCII case.
pub fn is_png_extension(ext: &str) -> (r: bool)
    ensures
        r == eq_ignore_ascii_case(ext@, png_text()),
{
    let marker = "png";
    proof {
        reveal_strlit("png");
    }
    assert(marker@ =~= png_text());
    eq_ascii_case(ext, marker)
}

/// The media files among the entries, as `(display name, path)` pairs in
/// entry order: those whose extension is `png` up to ASCII case.
pub fn discover(files: &Vec<MediaFile>) -> (r: Vec<(String, String)>)
    ensures
        r@.map_values(|p: (String, String)| (p.0@, p.1@)) == discovered_prefix(
            files@,
            files@.len(),
        ),
{
    let mut r: Vec<(String, String)> = Vec::new();
    let mut i: usize = 0;
    while i < files.len()
        invariant
            0 <= i <= files@.len(),
            r@.map_values(|p: (String, String)| (p.0@, p.1@)) == discovered_prefix(files@, i as nat),
        decreases files@.len() - i,
    {
        let f = &files[i];
        if is_png_extension(f.extension.as_str()) {
            let name = format_name(f.stem.as_str());
            r.push((name, f.path.clone()));
        }
        assert(r@.map_values(|p: (String, String)| (p.0@, p.1@)) =~= discovered_prefix(
            files@,
            (i + 1) as nat,
        ));
        i += 1;
    }
    r
}

} // verus!
