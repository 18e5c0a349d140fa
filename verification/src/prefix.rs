//! The prefix that new file names carry where none is configured, taken
//! from the name of the directory.

use vstd::prelude::*;
use vstd::string::*;

verus! {

/// The pattern that splits a directory name into leading digits, spaces
/// and dashes and the prefix after them.
pub open spec fn prefix_pattern() -> Seq<char> {
    "^[0-9 \\-]*(?P<prefix>.*)$"@
}

/// The name of the pattern's group that holds the prefix.
pub open spec fn prefix_group() -> Seq<char> {
    "prefix"@
}

/// What the group `group` of the regular expression `pattern` holds after
/// `regex::Regex::captures` on `text`: `None` where the pattern does not
/// compile, where it does not match, or where the group took no part.
pub uninterp spec fn captured(pattern: Seq<char>, group: Seq<char>, text: Seq<char>) -> Option<Seq<char>>;

/// Compiles `pattern` with `regex::Regex::new`, calls `captures` on `text`
/// and hands out the text of the group `group`. Nothing is claimed of the
/// result but that it is the one that `captured` names.
#[verifier::external_body]
fn capture(pattern: &str, group: &str, text: &str) -> (r: Option<String>)
    ensures
        match r {
            Some(s) => captured(pattern@, group@, text@) == Some(s@),
            None => captured(pattern@, group@, text@).is_none(),
        },
{
    let re = regex::Regex::new(pattern).ok()?;
    let caps = re.captures(text)?;
    let found = caps.name(group)?;
    Some(found.as_str().to_owned())
}

/// The default prefix, given what the pattern captured in the directory's
/// name: empty for a directory without a name, the captured text for one
/// with a name, and none where the name does not fit the pattern.
pub fn prefix_from_capture(dir_name: Option<&str>, capture: Option<String>) -> (r: Option<String>)
    ensures
        dir_name.is_none() ==> r.is_some() && r.unwrap()@ == Seq::<char>::empty(),
        dir_name.is_some() ==> r == capture,
{
    match dir_name {
        None => Some(String::new()),
        Some(_) => capture,
    }
}

/// The prefix for the files of the directory called `dir_name`: the name
/// without the digits, spaces and dashes that lead it. A directory
/// without a name of its own, such as the root, gives the empty prefix.
pub fn get_default_prefix(dir_name: Option<&str>) -> (r: Option<String>)
    ensures
        match dir_name {
            None => r.is_some() && r.unwrap()@ == Seq::<char>::empty(),
            Some(name) => match captured(prefix_pattern(), prefix_group(), name@) {
                Some(p) => r.is_some() && r.unwrap()@ == p,
                None => r.is_none(),
            },
        },
{
    let capture = match dir_name {
        Some(name) => capture("^[0-9 \\-]*(?P<prefix>.*)$", "prefix", name),
        None => None,
    };
    prefix_from_capture(dir_name, capture)
}

} // verus!
