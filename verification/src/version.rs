//! The tool's version counter: three numbers kept in a small file.

use vstd::prelude::*;

use crate::text::all_digits;
use crate::text::dec_str;
use crate::text::dec_val;
use crate::text::parse_u64;
use crate::text::trim_spec;
use crate::text::trim_str;
use crate::text::u64_to_string;

verus! {

/// A three-part version number.
#[derive(Clone, Copy, Debug, PartialEq, Eq, Structural)]
pub struct Version {
    pub major: u64,
    pub minor: u64,
    pub patch: u64,
}

/// The text a version is written as.
pub open spec fn version_text(v: Version) -> Seq<char> {
    dec_str(v.major as nat) + seq!['.'] + dec_str(v.minor as nat) + seq!['.'] + dec_str(
        v.patch as nat,
    )
}

/// First dot at or after `from`, or the end.
pub open spec fn find_dot(t: Seq<char>, from: int) -> int
    decreases t.len() - from when 0 <= from <= t.len()
{
    if from >= t.len() {
        t.len() as int
    } else if t[from] == '.' {
        from
    } else {
        find_dot(t, from + 1)
    }
}

/// The version a text holds: exactly three dot-separated decimal numbers,
/// surrounding whitespace ignored.
pub open spec fn version_of_text(t: Seq<char>) -> Option<Version> {
    let s = trim_spec(t);
    let k1 = find_dot(s, 0);
    let k2 = find_dot(s, k1 + 1);
    if k1 == s.len() || k2 == s.len() || find_dot(s, k2 + 1) != s.len() {
        Option::None
    } else {
        let a = s.subrange(0, k1);
        let b = s.subrange(k1 + 1, k2);
        let c = s.subrange(k2 + 1, s.len() as int);
        if a.len() > 0 && all_digits(a) && dec_val(a) <= u64::MAX && b.len() > 0 && all_digits(b)
            && dec_val(b) <= u64::MAX && c.len() > 0 && all_digits(c) && dec_val(c)
            <= u64::MAX {
            Option::Some(
                Version {
                    major: dec_val(a) as u64,
                    minor: dec_val(b) as u64,
                    patch: dec_val(c) as u64,
                },
            )
        } else {
            Option::None
        }
    }
}

proof fn lemma_find_dot(t: Seq<char>, from: int)
    requires
        0 <= from <= t.len(),
    ensures
        from <= find_dot(t, from) <= t.len(),
        find_dot(t, from) < t.len() ==> t[find_dot(t, from)] == '.',
        forall|i: int| from <= i < find_dot(t, from) ==> t[i] != '.',
    decreases t.len() - from,
{
    if from < t.len() && t[from] != '.' {
        lemma_find_dot(t, from + 1);
    }
}

proof fn lemma_find_dot_is(t: Seq<char>, from: int, k: int)
    requires
        0 <= from <= k <= t.len(),
        forall|j: int| from <= j < k ==> (#[trigger] t[j]) != '.',
        k < t.len() ==> t[k] == '.',
    ensures
        find_dot(t, from) == k,
    decreases k - from,
{
    if from < k {
        lemma_find_dot_is(t, from + 1, k);
    }
}

impl Version {
    /// A version from its three parts.
    pub fn new(major: u64, minor: u64, patch: u64) -> (r: Self)
        ensures
            r == (Version { major, minor, patch }),
    {
        Version { major, minor, patch }
    }

    /// The version written as `major.minor.patch`.
    pub fn as_string(self) -> (r: String)
        ensures
            r@ == version_text(self),
    {
        let mut s = u64_to_string(self.major);
        s.append(".");
        let minor = u64_to_string(self.minor);
        s.append(minor.as_str());
        s.append(".");
        let patch = u64_to_string(self.patch);
        s.append(patch.as_str());
        proof {
            reveal_strlit(".");
            assert("."@ =~= seq!['.']);
        }
        s
    }

    /// Reads a version out of its text form.
    pub fn parse(raw: &str) -> (r: Option<Version>)
        ensures
            r == version_of_text(raw@),
    {
        let s = trim_str(raw);
        let n = s.as_str().unicode_len();
        let k1 = scan_dot(s.as_str(), 0);
        if k1 == n {
            return None;
        }
        let k2 = scan_dot(s.as_str(), k1 + 1);
        if k2 == n {
            return None;
        }
        let k3 = scan_dot(s.as_str(), k2 + 1);
        if k3 != n {
            return None;
        }
        let a = parse_u64(s.as_str().substring_char(0, k1));
        let b = parse_u64(s.as_str().substring_char(k1 + 1, k2));
        let c = parse_u64(s.as_str().substring_char(k2 + 1, n));
        match (a, b, c) {
            (Some(major), Some(minor), Some(patch)) => Some(Version { major, minor, patch }),
            _ => None,
        }
    }

    /// The next patch release.
    pub fn bump_patch(self) -> (r: Self)
        requires
            self.patch < u64::MAX,
        ensures
            r == (Version { major: self.major, minor: self.minor, patch: (self.patch + 1) as u64 }),
    {
        Version { major: self.major, minor: self.minor, patch: self.patch + 1 }
    }
}

/// Position of the first dot at or after `from`.
fn scan_dot(s: &str, from: usize) -> (r: usize)
    requires
        from <= s@.len(),
    ensures
        r == find_dot(s@, from as int),
        from <= r <= s@.len(),
{
    let n = s.unicode_len();
    let mut i = from;
    while i < n && s.get_char(i) != '.'
        invariant
            from <= i <= n,
            n == s@.len(),
            forall|j: int| from <= j < i ==> (#[trigger] s@[j]) != '.',
        decreases n - i,
    {
        i = i + 1;
    }
    proof {
        lemma_find_dot_is(s@, from as int, i as int);
    }
    i
}

} // verus!
