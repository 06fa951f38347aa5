use vstd::prelude::*;

verus! {

/// The Levenshtein distance between two strings, counted in chars.
pub uninterp spec fn edit_distance(a: Seq<char>, b: Seq<char>) -> nat;

/// Relies on `strsim::levenshtein`: the minimum number of char insertions, deletions and
/// substitutions turning `a` into `b`; hence 0 for equal strings, and never more than
/// the longer of the two lengths (substitute along the shorter, insert the rest).
#[verifier::external_body]
fn levenshtein(a: &str, b: &str) -> (r: usize)
    ensures
        r as nat == edit_distance(a@, b@),
        a@ == b@ ==> r == 0,
        r <= a@.len() || r <= b@.len(),
{
    strsim::levenshtein(a, b)
}

/// Relies on `str::chars` and `Iterator::count`: the number of chars of `s`.
#[verifier::external_body]
fn char_count(s: &str) -> (r: usize)
    ensures
        r == s@.len(),
{
    s.chars().count()
}

/// A similarity in [0, 1], held exactly as the fraction `matching / length`.
#[derive(Clone, Copy, Debug, PartialEq, Eq, Structural)]
pub struct Score {
    pub matching: usize,
    pub length: usize,
}

/// The larger of two lengths.
pub open spec fn max_len(a: nat, b: nat) -> nat {
    if a >= b {
        a
    } else {
        b
    }
}

/// Normalised Levenshtein similarity `1 - distance / max_len`, with 1 for two empty strings.
pub open spec fn score_from(distance: nat, a_len: nat, b_len: nat) -> Score {
    if max_len(a_len, b_len) == 0 {
        Score { matching: 1, length: 1 }
    } else {
        Score {
            matching: (max_len(a_len, b_len) - distance) as usize,
            length: max_len(a_len, b_len) as usize,
        }
    }
}

/// The similarity of `query` and `label`.
pub open spec fn score_spec(query: Seq<char>, label: Seq<char>) -> Score {
    score_from(edit_distance(query, label), query.len(), label.len())
}

/// `a` is at least as similar as `b`.
pub open spec fn score_ge(a: Score, b: Score) -> bool {
    a.matching * b.length >= b.matching * a.length
}

impl Score {
    /// The score lies in [0, 1].
    pub open spec fn in_unit_range(self) -> bool {
        self.length > 0 && self.matching <= self.length
    }

    /// Compares two scores by value: `self >= other`.
    pub fn at_least(&self, other: &Score) -> (r: bool)
        ensures
            r == score_ge(*self, *other),
    {
        let a = self.matching as u128;
        let b = other.length as u128;
        let c = other.matching as u128;
        let d = self.length as u128;
        assert(a * b <= 0xffff_ffff_ffff_ffff * 0xffff_ffff_ffff_ffff) by (nonlinear_arith)
            requires
                a <= 0xffff_ffff_ffff_ffff,
                b <= 0xffff_ffff_ffff_ffff,
        ;
        assert(c * d <= 0xffff_ffff_ffff_ffff * 0xffff_ffff_ffff_ffff) by (nonlinear_arith)
            requires
                c <= 0xffff_ffff_ffff_ffff,
                d <= 0xffff_ffff_ffff_ffff,
        ;
        a * b >= c * d
    }
}

/// The score for a known edit distance between strings of `a_len` and `b_len` chars.
pub fn score_from_distance(distance: usize, a_len: usize, b_len: usize) -> (r: Score)
    requires
        distance <= a_len || distance <= b_len,
    ensures
        r == score_from(distance as nat, a_len as nat, b_len as nat),
        r.in_unit_range(),
{
    let longest = if a_len >= b_len {
        a_len
    } else {
        b_len
    };
    if longest == 0 {
        Score { matching: 1, length: 1 }
    } else {
        Score { matching: longest - distance, length: longest }
    }
}

/// Normalised Levenshtein similarity of `query` and `label`: case-sensitive, over chars.
/// A string scores exactly 1 against itself, and every score lies in [0, 1].
pub fn score(query: &str, label: &str) -> (r: Score)
    ensures
        r == score_spec(query@, label@),
        r.in_unit_range(),
        query@ == label@ ==> r.matching == r.length,
{
    let distance = levenshtein(query, label);
    let a_len = char_count(query);
    let b_len = char_count(label);
    score_from_distance(distance, a_len, b_len)
}

} // verus!
