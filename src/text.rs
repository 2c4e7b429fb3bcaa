//! Exact string operations on which the rest of the library builds.
use vstd::prelude::*;

verus! {

/// Relies on `str::strip_prefix`: `Some(rest)` exactly when `s` begins with
/// `prefix`, `rest` being what follows it.
#[verifier::external_body]
fn std_strip_prefix<'a>(s: &'a str, prefix: &str) -> (r: Option<&'a str>)
    ensures
        match r {
            Some(rest) => s@ == prefix@ + rest@,
            None => !(prefix@.is_prefix_of(s@)),
        },
{
    s.strip_prefix(prefix)
}

/// Relies on `str::strip_suffix`: `Some(rest)` exactly when `s` ends with
/// `suffix`, `rest` being what precedes it.
#[verifier::external_body]
fn std_strip_suffix<'a>(s: &'a str, suffix: &str) -> (r: Option<&'a str>)
    ensures
        match r {
            Some(rest) => s@ == rest@ + suffix@,
            None => !is_suffix_of(suffix@, s@),
        },
{
    s.strip_suffix(suffix)
}

/// Whether `suffix` ends `s`.
pub open spec fn is_suffix_of(suffix: Seq<char>, s: Seq<char>) -> bool {
    suffix.len() <= s.len() && s.subrange(s.len() - suffix.len(), s.len() as int) == suffix
}

/// What follows `prefix` in `s`, if `s` begins with it.
pub fn strip_prefix<'a>(s: &'a str, prefix: &str) -> (r: Option<&'a str>)
    ensures
        prefix@.is_prefix_of(s@) <==> r is Some,
        r matches Some(rest) ==> rest@ == s@.subrange(prefix@.len() as int, s@.len() as int),
{
    let r = std_strip_prefix(s, prefix);
    if let Some(rest) = r {
        assert(prefix@.is_prefix_of(s@)) by {
            assert(s@.subrange(0, prefix@.len() as int) =~= prefix@);
        }
        assert(rest@ =~= s@.subrange(prefix@.len() as int, s@.len() as int));
    }
    r
}

/// What precedes `suffix` in `s`, if `s` ends with it.
pub fn strip_suffix<'a>(s: &'a str, suffix: &str) -> (r: Option<&'a str>)
    ensures
        is_suffix_of(suffix@, s@) <==> r is Some,
        r matches Some(rest) ==> rest@ == s@.subrange(0, s@.len() - suffix@.len()),
{
    let r = std_strip_suffix(s, suffix);
    if let Some(rest) = r {
        assert(s@.subrange(s@.len() - suffix@.len(), s@.len() as int) =~= suffix@);
        assert(rest@ =~= s@.subrange(0, s@.len() - suffix@.len()));
    }
    r
}

/// Whether `s` begins with `prefix`.
pub fn has_prefix(s: &str, prefix: &str) -> (r: bool)
    ensures
        r == prefix@.is_prefix_of(s@),
{
    strip_prefix(s, prefix).is_some()
}

/// Whether two strings hold the same characters.
pub fn text_equals(s: &str, t: &str) -> (r: bool)
    ensures
        r == (s@ == t@),
{
    match strip_prefix(s, t) {
        Some(rest) => {
            let n = rest.unicode_len();
            if n == 0 {
                assert(s@ =~= t@);
                true
            } else {
                false
            }
        },
        None => false,
    }
}

} // verus!
