//! Rules on file names: hidden entries, extensions, stems, roles, sidecar
//! names and the suffix that a rename keeps.

use vstd::prelude::*;
use vstd::string::*;
use crate::text::chars_of;

verus! {

/// What a media file is within its capture group.
#[derive(Debug, Clone, Copy, PartialEq, Eq, Hash, Structural)]
pub enum ImgRole {
    /// A raw sensor capture.
    Raw,
    /// A preview rendered by the camera.
    CameraJPG,
}

/// Position of the last dot in `s`, or `-1` where it has none.
pub open spec fn last_dot(s: Seq<char>) -> int
    decreases s.len(),
{
    if s.len() == 0 {
        -1
    } else if s.last() == '.' {
        s.len() - 1
    } else {
        last_dot(s.drop_last())
    }
}

/// `last_dot` is the position of a dot with no dot behind it.
pub proof fn lemma_last_dot(s: Seq<char>)
    ensures
        -1 <= last_dot(s) < s.len(),
        last_dot(s) >= 0 ==> s[last_dot(s)] == '.',
        forall|i: int| last_dot(s) < i < s.len() ==> s[i] != '.',
    decreases s.len(),
{
    if s.len() > 0 && s.last() != '.' {
        lemma_last_dot(s.drop_last());
        assert forall|i: int| last_dot(s) < i < s.len() implies s[i] != '.' by {
            if i < s.len() - 1 {
                assert(s.drop_last()[i] == s[i]);
            }
        }
    }
}

/// Whether `name` has an extension: a dot that is not its first character.
pub open spec fn has_extension(name: Seq<char>) -> bool {
    last_dot(name) > 0
}

/// What follows the last dot of `name`; meaningful where `has_extension`.
pub open spec fn extension(name: Seq<char>) -> Seq<char> {
    name.subrange(last_dot(name) + 1, name.len() as int)
}

/// `name` without its extension and the dot before it; the whole name where
/// it has no extension.
pub open spec fn stem(name: Seq<char>) -> Seq<char> {
    if has_extension(name) {
        name.subrange(0, last_dot(name))
    } else {
        name
    }
}

/// Whether `c` is the letter given in its two cases.
pub open spec fn is_letter(c: char, lower: char, upper: char) -> bool {
    c == lower || c == upper
}

/// Whether `ext` reads `xmp` in any mix of cases.
pub open spec fn is_xmp(ext: Seq<char>) -> bool {
    ext.len() == 3 && is_letter(ext[0], 'x', 'X') && is_letter(ext[1], 'm', 'M') && is_letter(
        ext[2],
        'p',
        'P',
    )
}

/// Whether `ext` reads `nef` in any mix of cases.
pub open spec fn is_nef(ext: Seq<char>) -> bool {
    ext.len() == 3 && is_letter(ext[0], 'n', 'N') && is_letter(ext[1], 'e', 'E') && is_letter(
        ext[2],
        'f',
        'F',
    )
}

/// Whether `ext` reads `raf` in any mix of cases.
pub open spec fn is_raf(ext: Seq<char>) -> bool {
    ext.len() == 3 && is_letter(ext[0], 'r', 'R') && is_letter(ext[1], 'a', 'A') && is_letter(
        ext[2],
        'f',
        'F',
    )
}

/// Whether `ext` reads `jpg` in any mix of cases.
pub open spec fn is_jpg(ext: Seq<char>) -> bool {
    ext.len() == 3 && is_letter(ext[0], 'j', 'J') && is_letter(ext[1], 'p', 'P') && is_letter(
        ext[2],
        'g',
        'G',
    )
}

/// The role that a file name's extension gives it, if any.
pub open spec fn role_of(name: Seq<char>) -> Option<ImgRole> {
    if !has_extension(name) {
        None
    } else if is_nef(extension(name)) || is_raf(extension(name)) {
        Some(ImgRole::Raw)
    } else if is_jpg(extension(name)) {
        Some(ImgRole::CameraJPG)
    } else {
        None
    }
}

/// Whether a directory entry is left out of a scan: its name is empty or
/// starts with a dot, it is a directory or of unknown kind, or it is a sidecar.
pub open spec fn is_skipped_entry(name: Seq<char>, is_dir: Option<bool>) -> bool {
    ||| name.len() == 0
    ||| name[0] == '.'
    ||| is_dir != Some(false)
    ||| (has_extension(name) && is_xmp(extension(name)))
}

/// The name of the sidecar that belongs to the file `name`.
pub open spec fn sidecar_name_of(name: Seq<char>) -> Seq<char> {
    name + seq!['.', 'x', 'm', 'p']
}

/// Where the components that a rename keeps begin in `name`, taken as
/// components parted by dots: at the last component, or at the one before
/// it where the last reads `xmp` in any mix of cases. A name of fewer
/// components keeps them all.
pub open spec fn suffix_start(name: Seq<char>) -> int {
    let d = last_dot(name);
    if d < 0 {
        0
    } else if is_xmp(name.subrange(d + 1, name.len() as int)) {
        last_dot(name.subrange(0, d)) + 1
    } else {
        d + 1
    }
}

/// The suffix of `name` that a rename keeps: a dot and the last component
/// of `name`, or its last two components for a sidecar. A picture keeps
/// its extension so, a sidecar the picture's extension and its own.
pub open spec fn kept_suffix(name: Seq<char>) -> Seq<char> {
    seq!['.'] + name.subrange(suffix_start(name), name.len() as int)
}

/// Whether `name` is the name of a picture with a role or of such a
/// picture's sidecar.
pub open spec fn is_media_name(name: Seq<char>) -> bool {
    role_of(name).is_some() || exists|picture: Seq<char>|
        role_of(picture).is_some() && name == #[trigger] sidecar_name_of(picture)
}

/// A string without a dot after its first character, which is a dot, has
/// its last dot there, also behind any text put before it.
proof fn lemma_last_dot_of_tail(front: Seq<char>, tail: Seq<char>)
    requires
        tail.len() > 0,
        tail[0] == '.',
        forall|i: int| 0 < i < tail.len() ==> tail[i] != '.',
    ensures
        last_dot(front + tail) == front.len(),
    decreases tail.len(),
{
    let whole = front + tail;
    if tail.len() == 1 {
        assert(whole.last() == '.');
    } else {
        assert(whole.last() == tail[tail.len() - 1]);
        assert(whole.drop_last() =~= front + tail.drop_last());
        lemma_last_dot_of_tail(front, tail.drop_last());
    }
}

/// A name made of a front that is not empty, a dot and an extension
/// without a dot has its last dot behind the front: the front is its stem.
pub proof fn lemma_name_with_extension(front: Seq<char>, ext: Seq<char>)
    requires
        front.len() > 0,
        forall|i: int| 0 <= i < ext.len() ==> ext[i] != '.',
    ensures
        last_dot(front + seq!['.'] + ext) == front.len(),
        extension(front + seq!['.'] + ext) == ext,
        stem(front + seq!['.'] + ext) == front,
{
    let tail = seq!['.'] + ext;
    let name = front + seq!['.'] + ext;
    assert forall|i: int| 0 < i < tail.len() implies tail[i] != '.' by {
        assert(tail[i] == ext[i - 1]);
    }
    lemma_last_dot_of_tail(front, tail);
    assert(name =~= front + tail);
    assert(extension(name) =~= ext);
    assert(stem(name) =~= front);
}

/// The extension of a name holds no dot.
pub proof fn lemma_extension_has_no_dot(name: Seq<char>)
    ensures
        forall|i: int| 0 <= i < extension(name).len() ==> extension(name)[i] != '.',
{
    lemma_last_dot(name);
    assert forall|i: int| 0 <= i < extension(name).len() implies extension(name)[i] != '.' by {
        assert(extension(name)[i] == name[last_dot(name) + 1 + i]);
    }
}

/// The suffix kept of a picture's name is its extension with the dot
/// before it, and is kept again behind any other text.
pub proof fn lemma_picture_suffix_is_kept(front: Seq<char>, name: Seq<char>)
    requires
        role_of(name).is_some(),
    ensures
        kept_suffix(name) == seq!['.'] + extension(name),
        kept_suffix(front + kept_suffix(name)) == kept_suffix(name),
{
    lemma_last_dot(name);
    let d = last_dot(name);
    let ext = extension(name);
    let tail = name.subrange(d, name.len() as int);
    assert(!is_xmp(ext));
    assert(tail =~= seq!['.'] + ext);
    assert(kept_suffix(name) =~= tail);
    assert forall|i: int| 0 < i < tail.len() implies tail[i] != '.' by {
        assert(tail[i] == name[d + i]);
    }
    lemma_last_dot_of_tail(front, tail);
    let whole = front + tail;
    assert(whole.subrange(front.len() + 1 as int, whole.len() as int) =~= ext);
    assert(kept_suffix(whole) =~= tail);
}

/// The suffix kept of a sidecar's name is the picture's kept suffix with
/// the sidecar extension, and is kept again behind any other text.
pub proof fn lemma_sidecar_suffix_is_kept(front: Seq<char>, picture: Seq<char>)
    requires
        role_of(picture).is_some(),
    ensures
        kept_suffix(sidecar_name_of(picture)) == kept_suffix(picture) + seq!['.', 'x', 'm', 'p'],
        kept_suffix(front + kept_suffix(sidecar_name_of(picture))) == kept_suffix(sidecar_name_of(picture)),
{
    lemma_picture_suffix_is_kept(front, picture);
    lemma_last_dot(picture);
    let xmp = seq!['.', 'x', 'm', 'p'];
    let name = sidecar_name_of(picture);
    let inner = kept_suffix(picture);
    assert forall|i: int| 0 < i < xmp.len() implies xmp[i] != '.' by {}
    lemma_last_dot_of_tail(picture, xmp);
    assert(name.subrange(picture.len() + 1 as int, name.len() as int) =~= seq!['x', 'm', 'p']);
    assert(name.subrange(0, picture.len() as int) =~= picture);
    assert(suffix_start(name) == last_dot(picture) + 1);
    assert(inner =~= picture.subrange(last_dot(picture), picture.len() as int));
    assert(kept_suffix(name) =~= inner + xmp);
    let whole = front + (inner + xmp);
    assert(whole =~= (front + inner) + xmp);
    lemma_last_dot_of_tail(front + inner, xmp);
    assert(whole.subrange(front.len() + inner.len() + 1 as int, whole.len() as int) =~= seq!['x', 'm', 'p']);
    assert(whole.subrange(0, front.len() + inner.len() as int) =~= front + inner);
    assert forall|i: int| 0 < i < inner.len() implies inner[i] != '.' by {
        assert(inner[i] == picture[last_dot(picture) + i]);
    }
    lemma_last_dot_of_tail(front, inner);
    assert(suffix_start(whole) == front.len() + 1);
    assert(kept_suffix(whole) =~= inner + xmp);
}

/// Finds the last dot among the first `end` characters of `chars`.
fn find_last_dot(chars: &Vec<char>, end: usize) -> (r: Option<usize>)
    requires
        end <= chars.len(),
    ensures
        match r {
            Some(d) => d < end && d as int == last_dot(chars@.subrange(0, end as int)),
            None => last_dot(chars@.subrange(0, end as int)) == -1,
        },
{
    let mut i: usize = end;
    while i > 0
        invariant
            i <= end,
            end <= chars.len(),
            last_dot(chars@.subrange(0, end as int)) == last_dot(chars@.subrange(0, i as int)),
        decreases i,
    {
        let ghost cur = chars@.subrange(0, i as int);
        assert(cur.last() == chars@[i - 1]);
        if chars[i - 1] == '.' {
            return Some(i - 1);
        }
        assert(cur.drop_last() =~= chars@.subrange(0, i - 1));
        i -= 1;
    }
    None
}

/// Whether the three characters of `chars` from `from` on, which end it, are
/// the given letters in either case.
fn tail_is_word(chars: &Vec<char>, from: usize, l0: char, u0: char, l1: char, u1: char, l2: char, u2: char) -> (r: bool)
    requires
        from <= chars.len(),
    ensures
        r == ({
            let ext = chars@.subrange(from as int, chars.len() as int);
            ext.len() == 3 && is_letter(ext[0], l0, u0) && is_letter(ext[1], l1, u1) && is_letter(ext[2], l2, u2)
        }),
{
    if chars.len() - from != 3 {
        return false;
    }
    let c0 = chars[from];
    let c1 = chars[from + 1];
    let c2 = chars[from + 2];
    (c0 == l0 || c0 == u0) && (c1 == l1 || c1 == u1) && (c2 == l2 || c2 == u2)
}

/// The role of the file called `name`, by its extension without regard to
/// case: `nef` and `raf` are raw captures, `jpg` is a preview. Any other
/// name has no role.
pub fn role(name: &str) -> (r: Option<ImgRole>)
    ensures
        r == role_of(name@),
{
    let chars = chars_of(name);
    assert(chars@.subrange(0, chars.len() as int) =~= chars@);
    match find_last_dot(&chars, chars.len()) {
        Some(d) => {
            if d == 0 {
                None
            } else if tail_is_word(&chars, d + 1, 'n', 'N', 'e', 'E', 'f', 'F') || tail_is_word(&chars, d + 1, 'r', 'R', 'a', 'A', 'f', 'F') {
                Some(ImgRole::Raw)
            } else if tail_is_word(&chars, d + 1, 'j', 'J', 'p', 'P', 'g', 'G') {
                Some(ImgRole::CameraJPG)
            } else {
                None
            }
        },
        None => None,
    }
}

/// The stem of the file called `name`.
pub fn file_stem(name: &str) -> (r: String)
    ensures
        r@ == stem(name@),
{
    let chars = chars_of(name);
    assert(chars@.subrange(0, chars.len() as int) =~= chars@);
    match find_last_dot(&chars, chars.len()) {
        Some(d) => {
            if d == 0 {
                String::from_str(name)
            } else {
                String::from_str(name.substring_char(0, d))
            }
        },
        None => String::from_str(name),
    }
}

/// Whether a scan leaves the entry out. `is_dir` is `None` where the kind of
/// the entry could not be read.
pub fn is_skipped(name: &str, is_dir: Option<bool>) -> (r: bool)
    ensures
        r == is_skipped_entry(name@, is_dir),
{
    let chars = chars_of(name);
    if chars.len() == 0 {
        return true;
    }
    if chars[0] == '.' {
        return true;
    }
    match is_dir {
        Some(false) => {},
        _ => {
            return true;
        },
    }
    assert(chars@.subrange(0, chars.len() as int) =~= chars@);
    match find_last_dot(&chars, chars.len()) {
        Some(d) => {
            d > 0 && tail_is_word(&chars, d + 1, 'x', 'X', 'm', 'M', 'p', 'P')
        },
        None => false,
    }
}

/// The name under which the sidecar of the file `name` is looked for.
pub fn sidecar_name(name: &str) -> (r: String)
    ensures
        r@ == sidecar_name_of(name@),
{
    proof {
        reveal_strlit(".xmp");
    }
    let mut r = String::from_str(name);
    r.append(".xmp");
    assert(r@ =~= sidecar_name_of(name@));
    r
}

/// The suffix of `name` that a rename keeps.
pub fn file_suffix(name: &str) -> (r: String)
    ensures
        r@ == kept_suffix(name@),
{
    let chars = chars_of(name);
    let n: usize = chars.len();
    assert(chars@.subrange(0, n as int) =~= chars@);
    let start: usize = match find_last_dot(&chars, n) {
        None => 0,
        Some(d) => {
            if tail_is_word(&chars, d + 1, 'x', 'X', 'm', 'M', 'p', 'P') {
                match find_last_dot(&chars, d) {
                    Some(e) => e + 1,
                    None => 0,
                }
            } else {
                d + 1
            }
        },
    };
    proof {
        reveal_strlit(".");
    }
    let mut r = String::from_str(".");
    r.append(name.substring_char(start, n));
    assert(r@ =~= kept_suffix(name@));
    r
}

} // verus!
