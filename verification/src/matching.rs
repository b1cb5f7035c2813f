//! The match predicates applied to a file's base name: a fixed `.env` prefix
//! test and a caller-supplied substring test.

use vstd::prelude::*;
use vstd::string::StrSliceExecFns;

verus! {

/// The literal prefix that environment-configuration files carry.
pub open spec fn env_prefix() -> Seq<char> {
    ".env"@
}

/// `pre` is an initial segment of `s`.
pub open spec fn is_prefix_of(pre: Seq<char>, s: Seq<char>) -> bool {
    pre.len() <= s.len() && s.subrange(0, pre.len() as int) == pre
}

/// `pat` occurs in `s` as a contiguous run starting at index `i`.
pub open spec fn occurs_at(s: Seq<char>, pat: Seq<char>, i: int) -> bool {
    0 <= i && i + pat.len() <= s.len() && s.subrange(i, i + pat.len()) == pat
}

/// `pat` occurs somewhere in `s` as a contiguous run. The empty sequence
/// occurs in every sequence.
pub open spec fn contains_seq(s: Seq<char>, pat: Seq<char>) -> bool {
    exists|i: int| occurs_at(s, pat, i)
}

/// The mathematical form of a match predicate.
pub enum MatchSpec {
    /// Base name begins with the given literal.
    Prefix(Seq<char>),
    /// Base name contains the given literal as a contiguous substring.
    Substring(Seq<char>),
}

/// What it means for a base name to satisfy a match predicate.
pub open spec fn name_matches(m: MatchSpec, name: Seq<char>) -> bool {
    match m {
        MatchSpec::Prefix(pre) => is_prefix_of(pre, name),
        MatchSpec::Substring(pat) => contains_seq(name, pat),
    }
}

/// An executable match predicate, selected per scan call.
pub enum Matcher {
    /// Base name begins with `.env`.
    EnvPrefix,
    /// Base name contains the given pattern; an empty pattern matches
    /// every name.
    Substring(String),
}

impl View for Matcher {
    type V = MatchSpec;

    open spec fn view(&self) -> MatchSpec {
        match self {
            Matcher::EnvPrefix => MatchSpec::Prefix(env_prefix()),
            Matcher::Substring(pat) => MatchSpec::Substring(pat@),
        }
    }
}

/// The characters of `pat` appear in `s` starting at index `i`.
fn chars_match_at(s: &str, pat: &str, i: usize) -> (b: bool)
    requires
        i + pat@.len() <= s@.len(),
    ensures
        b == (s@.subrange(i as int, i + pat@.len()) == pat@),
{
    let n = s.unicode_len();
    let m = pat.unicode_len();
    let mut j: usize = 0;
    while j < m
        invariant
            n == s@.len(),
            m == pat@.len(),
            i + m <= n,
            j <= m,
            forall|l: int| 0 <= l < j ==> s@[i + l] == pat@[l],
        decreases m - j,
    {
        if s.get_char(i + j) != pat.get_char(j) {
            proof {
                assert(s@.subrange(i as int, i + pat@.len())[j as int] == s@[i + j]);
            }
            return false;
        }
        j += 1;
    }
    proof {
        assert(s@.subrange(i as int, i + pat@.len()) =~= pat@);
    }
    true
}

/// Substring test: `pat` occurs contiguously in `s`.
pub fn str_contains(s: &str, pat: &str) -> (b: bool)
    ensures
        b == contains_seq(s@, pat@),
{
    let n = s.unicode_len();
    let m = pat.unicode_len();
    if m == 0 {
        proof {
            assert(s@.subrange(0, 0) =~= pat@);
            assert(occurs_at(s@, pat@, 0));
        }
        return true;
    }
    if m > n {
        proof {
            assert forall|i: int| !occurs_at(s@, pat@, i) by {
                if 0 <= i && i + pat@.len() <= s@.len() {
                    assert(pat@.len() <= s@.len());
                }
            }
        }
        return false;
    }
    let mut i: usize = 0;
    while i <= n - m
        invariant
            n == s@.len(),
            m == pat@.len(),
            1 <= m <= n,
            i <= n,
            forall|k: int| 0 <= k < i ==> !occurs_at(s@, pat@, k),
        decreases n + 1 - i,
    {
        if chars_match_at(s, pat, i) {
            proof {
                assert(occurs_at(s@, pat@, i as int));
            }
            return true;
        }
        i += 1;
    }
    proof {
        assert forall|k: int| !occurs_at(s@, pat@, k) by {
            if 0 <= k && k + pat@.len() <= s@.len() {
                assert(k < i);
            }
        }
    }
    false
}

/// Prefix test: `s` begins with `pre`.
pub fn str_starts_with(s: &str, pre: &str) -> (b: bool)
    ensures
        b == is_prefix_of(pre@, s@),
{
    let n = s.unicode_len();
    let m = pre.unicode_len();
    if m > n {
        return false;
    }
    chars_match_at(s, pre, 0)
}

impl Matcher {
    /// Whether a file's base name satisfies this predicate.
    pub fn matches(&self, name: &str) -> (b: bool)
        ensures
            b == name_matches(self@, name@),
    {
        match self {
            Matcher::EnvPrefix => str_starts_with(name, ".env"),
            Matcher::Substring(pat) => str_contains(name, pat.as_str()),
        }
    }
}

} // verus!
