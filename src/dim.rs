//! Turning a (driver, instance) pair into a public disk name, from the
//! device paths that the instance's candidate minors resolve to.
use vstd::prelude::*;
use crate::text::{is_suffix_of, strip_prefix, strip_suffix};

verus! {

/// The candidate minor names, tried in order: the whole disk first, then
/// the legacy first slice.
pub open spec fn disk_minor(i: nat) -> Option<Seq<char>> {
    if i == 0 {
        Some("wd"@)
    } else if i == 1 {
        Some("a"@)
    } else {
        None
    }
}

/// The public disk name within a device path: what follows `/dev/dsk/`,
/// where the path came from the legacy first-slice minor with its trailing
/// whole-disk slice suffix `s0` taken off; absent where the path lies
/// elsewhere.
pub open spec fn disk_name_of(path: Seq<char>, legacy: bool) -> Option<Seq<char>> {
    let prefix = "/dev/dsk/"@;
    let suffix = "s0"@;
    if prefix.is_prefix_of(path) {
        let nam = path.subrange(prefix.len() as int, path.len() as int);
        if legacy && is_suffix_of(suffix, nam) {
            Some(nam.subrange(0, nam.len() - suffix.len()))
        } else {
            Some(nam)
        }
    } else {
        None
    }
}

/// The public disk name within the path of a legacy first-slice minor:
/// `disk_name_of(path, true)`.
pub fn disk_name_from_path(path: &str) -> (r: Option<String>)
    ensures
        r is Some <==> disk_name_of(path@, true) is Some,
        r matches Some(n) ==> n@ == disk_name_of(path@, true)->Some_0,
{
    match strip_prefix(path, "/dev/dsk/") {
        None => None,
        Some(nam) => match strip_suffix(nam, "s0") {
            Some(dev) => Some(dev.to_string()),
            None => Some(nam.to_string()),
        },
    }
}

/// The public disk name within the path of a whole-disk minor:
/// `disk_name_of(path, false)`, the path with `/dev/dsk/` taken off.
pub fn whole_disk_name_from_path(path: &str) -> (r: Option<String>)
    ensures
        r is Some <==> disk_name_of(path@, false) is Some,
        r matches Some(n) ==> n@ == disk_name_of(path@, false)->Some_0,
{
    match strip_prefix(path, "/dev/dsk/") {
        None => None,
        Some(nam) => Some(nam.to_string()),
    }
}

/// A search through the candidate minors of one instance for its disk
/// name. The caller looks up the path of each minor that `minor` names and
/// hands the result to `offer`, until a name comes back or no candidate is
/// left.
pub struct DiskNameSearch {
    attempt: usize,
}

impl DiskNameSearch {
    /// The index of the candidate to be tried next.
    pub closed spec fn attempt(&self) -> nat {
        self.attempt as nat
    }

    pub fn new() -> (r: DiskNameSearch)
        ensures
            r.attempt() == 0,
    {
        DiskNameSearch { attempt: 0 }
    }

    /// The minor to look up next; absent once every candidate was tried.
    pub fn minor(&self) -> (r: Option<String>)
        ensures
            r is Some <==> disk_minor(self.attempt()) is Some,
            r matches Some(m) ==> m@ == disk_minor(self.attempt())->Some_0,
    {
        if self.attempt == 0 {
            Some("wd".to_string())
        } else if self.attempt == 1 {
            Some("a".to_string())
        } else {
            None
        }
    }

    /// Takes the path that the current candidate resolved to, if any. Where
    /// it holds a disk name (with the slice suffix taken off only for the
    /// legacy minor), that name is the answer; otherwise the search
    /// moves on to the next candidate.
    pub fn offer(&mut self, resolved: Option<String>) -> (r: Option<String>)
        requires
            disk_minor(old(self).attempt()) is Some,
        ensures
            ({
                let found = match resolved {
                    Some(p) => disk_name_of(p@, old(self).attempt() == 1),
                    None => None,
                };
                &&& r is Some <==> found is Some
                &&& r matches Some(n) ==> n@ == found->Some_0
                &&& final(self).attempt() == old(self).attempt() + (if found is Some { 0int } else { 1 })
            }),
    {
        match resolved {
            Some(p) => {
                let r = if self.attempt == 1 {
                    disk_name_from_path(p.as_str())
                } else {
                    whole_disk_name_from_path(p.as_str())
                };
                if r.is_none() {
                    self.attempt = self.attempt + 1;
                }
                r
            },
            None => {
                self.attempt = self.attempt + 1;
                None
            },
        }
    }
}

} // verus!
