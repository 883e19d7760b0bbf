use vstd::prelude::*;
use crate::text::{ascii_lower, chars_of, eq_ascii_ci, is_ascii_digit, to_ascii_lower};

verus! {

/// The two patterns that the line scanner looks for.
///
/// `Quantity` is a number followed by a unit: one or more digits (the letter
/// `o` in either case stands for a misread `0`), optionally a `.` and more
/// such digits, then `g`, `mg` or `9` (a misread `g`), ignoring ASCII case.
///
/// `Servings` is one or more ASCII digits, an optional `.`, more digits, then
/// ` servings per container`, ignoring ASCII case.
#[derive(Clone, Copy, PartialEq, Eq, Structural, Debug)]
pub enum Pattern {
    Quantity,
    Servings,
}

pub open spec fn value_char(pat: Pattern, c: char) -> bool {
    match pat {
        Pattern::Quantity => is_ascii_digit(c) || c == 'o' || c == 'O',
        Pattern::Servings => is_ascii_digit(c),
    }
}

/// `s[p..m]` is the numeric part of `pat`: it starts with a value character,
/// holds only value characters and at most one `.`, and for `Quantity` also
/// ends with a value character.
pub open spec fn is_number_text(pat: Pattern, s: Seq<char>, p: int, m: int) -> bool {
    &&& 0 <= p < m <= s.len()
    &&& value_char(pat, s[p])
    &&& (pat == Pattern::Quantity ==> value_char(pat, s[m - 1]))
    &&& forall|k: int| p <= k < m ==> value_char(pat, #[trigger] s[k]) || s[k] == '.'
    &&& forall|k1: int, k2: int|
        p <= k1 < k2 < m && #[trigger] s[k1] == '.' ==> #[trigger] s[k2] != '.'
}

pub open spec fn is_g(c: char) -> bool {
    c == 'g' || c == 'G'
}

/// The length of the unit that starts at `m`: `g`, `9` or `mg`; 0 where none does.
pub open spec fn unit_len(s: Seq<char>, m: int) -> int {
    if 0 <= m < s.len() && (is_g(s[m]) || s[m] == '9') {
        1
    } else if 0 <= m && m + 1 < s.len() && (s[m] == 'm' || s[m] == 'M') && is_g(s[m + 1]) {
        2
    } else {
        0
    }
}

pub open spec fn servings_tail() -> Seq<char> {
    " servings per container"@
}

/// The length of the text that must follow the number of `pat` at `m`; 0 where it does not.
pub open spec fn tail_len(pat: Pattern, s: Seq<char>, m: int) -> int {
    match pat {
        Pattern::Quantity => unit_len(s, m),
        Pattern::Servings => if 0 <= m && m + servings_tail().len() <= s.len() && eq_ascii_ci(
            s.subrange(m, m + servings_tail().len()),
            servings_tail(),
        ) {
            servings_tail().len() as int
        } else {
            0
        },
    }
}

/// `pat` matches at `p` with its number ending at `m`.
pub open spec fn match_at(pat: Pattern, s: Seq<char>, p: int, m: int) -> bool {
    is_number_text(pat, s, p, m) && tail_len(pat, s, m) > 0
}

/// The match that a leftmost-first regular expression engine reports: the
/// leftmost start, and at that start the longest number.
pub open spec fn is_first_match(pat: Pattern, s: Seq<char>, p: int, m: int) -> bool {
    &&& match_at(pat, s, p, m)
    &&& forall|p2: int, m2: int| p2 < p ==> !#[trigger] match_at(pat, s, p2, m2)
    &&& forall|m2: int| m < m2 ==> !#[trigger] match_at(pat, s, p, m2)
}

pub open spec fn first_match(pat: Pattern, s: Seq<char>) -> Option<(int, int)> {
    if exists|pm: (int, int)| is_first_match(pat, s, pm.0, pm.1) {
        Some(choose|pm: (int, int)| is_first_match(pat, s, pm.0, pm.1))
    } else {
        None
    }
}

pub open spec fn pair_view(r: Option<(usize, usize)>) -> Option<(int, int)> {
    match r {
        Some((p, m)) => Some((p as int, m as int)),
        None => None,
    }
}

proof fn lemma_first_match_unique(pat: Pattern, s: Seq<char>, p: int, m: int)
    requires
        is_first_match(pat, s, p, m),
    ensures
        first_match(pat, s) == Some((p, m)),
{
    assert(is_first_match(pat, s, (p, m).0, (p, m).1));
    let pm = choose|pm: (int, int)| is_first_match(pat, s, pm.0, pm.1);
    assert(is_first_match(pat, s, pm.0, pm.1));
    if pm.0 < p {
        assert(!match_at(pat, s, pm.0, pm.1));
    } else if p < pm.0 {
        assert(!match_at(pat, s, p, m));
    } else if pm.1 < m {
        assert(!match_at(pat, s, p, m));
    } else if m < pm.1 {
        assert(!match_at(pat, s, pm.0, pm.1));
    }
}

fn is_value_char(pat: Pattern, c: char) -> (r: bool)
    ensures
        r == value_char(pat, c),
{
    match pat {
        Pattern::Quantity => ('0' <= c && c <= '9') || c == 'o' || c == 'O',
        Pattern::Servings => '0' <= c && c <= '9',
    }
}

fn number_text_ok(pat: Pattern, s: &Vec<char>, p: usize, m: usize) -> (r: bool)
    requires
        p < m <= s@.len(),
    ensures
        r == is_number_text(pat, s@, p as int, m as int),
{
    if !is_value_char(pat, s[p]) {
        return false;
    }
    if matches!(pat, Pattern::Quantity) && !is_value_char(pat, s[m - 1]) {
        return false;
    }
    let mut dot: usize = m;
    let mut k: usize = p;
    while k < m
        invariant
            p <= k <= m <= s@.len(),
            value_char(pat, s@[p as int]),
            pat == Pattern::Quantity ==> value_char(pat, s@[m - 1]),
            forall|j: int| p <= j < k ==> value_char(pat, #[trigger] s@[j]) || s@[j] == '.',
            forall|j1: int, j2: int|
                p <= j1 < j2 < k && #[trigger] s@[j1] == '.' ==> #[trigger] s@[j2] != '.',
            dot == m ==> forall|j: int| p <= j < k ==> #[trigger] s@[j] != '.',
            dot != m ==> p <= dot < k && s@[dot as int] == '.',
        decreases m - k,
    {
        let c = s[k];
        if c == '.' {
            if dot != m {
                assert(s@[dot as int] == '.' && s@[k as int] == '.');
                return false;
            }
            dot = k;
        } else if !is_value_char(pat, c) {
            return false;
        }
        k = k + 1;
    }
    true
}

/// Whether `t` stands in `s` at `m`, ignoring ASCII case.
fn ci_text_at(s: &Vec<char>, m: usize, t: &Vec<char>) -> (r: bool)
    ensures
        r == (m + t@.len() <= s@.len() && eq_ascii_ci(
            s@.subrange(m as int, m + t@.len()),
            t@,
        )),
{
    if m > s.len() || t.len() > s.len() - m {
        return false;
    }
    let ghost w = s@.subrange(m as int, m + t@.len());
    let mut i: usize = 0;
    while i < t.len()
        invariant
            m + t@.len() <= s@.len(),
            s@.len() <= usize::MAX,
            w == s@.subrange(m as int, m + t@.len()),
            i <= t@.len(),
            forall|k: int| 0 <= k < i ==> ascii_lower(#[trigger] w[k]) == ascii_lower(t@[k]),
        decreases t@.len() - i,
    {
        if to_ascii_lower(s[m + i]) != to_ascii_lower(t[i]) {
            assert(w[i as int] == s@[m + i]);
            return false;
        }
        i = i + 1;
    }
    true
}

/// The length of the unit that starts at `m`.
pub fn unit_length(s: &Vec<char>, m: usize) -> (r: usize)
    ensures
        r as int == unit_len(s@, m as int),
{
    if m < s.len() && (s[m] == 'g' || s[m] == 'G' || s[m] == '9') {
        1
    } else if m < s.len() && s.len() - m > 1 && (s[m] == 'm' || s[m] == 'M') && (s[m + 1] == 'g'
        || s[m + 1] == 'G') {
        2
    } else {
        0
    }
}

fn tail_len_at(pat: Pattern, s: &Vec<char>, m: usize, tail: &Vec<char>) -> (r: usize)
    requires
        tail@ == servings_tail(),
    ensures
        r as int == tail_len(pat, s@, m as int),
{
    match pat {
        Pattern::Quantity => unit_length(s, m),
        Pattern::Servings => {
            if ci_text_at(s, m, tail) {
                tail.len()
            } else {
                0
            }
        },
    }
}

/// The leftmost match of `pat` in `s`, as the start of its number and the
/// end of its number (where the unit or the servings text begins).
pub fn find_match(pat: Pattern, s: &Vec<char>) -> (r: Option<(usize, usize)>)
    ensures
        pair_view(r) == first_match(pat, s@),
{
    let tail = chars_of(" servings per container");
    let n = s.len();
    let mut p: usize = 0;
    while p < n
        invariant
            n == s@.len(),
            p <= n,
            tail@ == servings_tail(),
            forall|p2: int, m2: int| p2 < p ==> !#[trigger] match_at(pat, s@, p2, m2),
        decreases n - p,
    {
        let mut m: usize = n;
        while m > p
            invariant
                n == s@.len(),
                p < n,
                p <= m <= n,
                tail@ == servings_tail(),
                forall|p2: int, m2: int| p2 < p ==> !#[trigger] match_at(pat, s@, p2, m2),
                forall|m2: int| m < m2 ==> !#[trigger] match_at(pat, s@, p as int, m2),
            decreases m,
        {
            if number_text_ok(pat, s, p, m) && tail_len_at(pat, s, m, &tail) > 0 {
                proof {
                    lemma_first_match_unique(pat, s@, p as int, m as int);
                }
                return Some((p, m));
            }
            m = m - 1;
        }
        p = p + 1;
    }
    proof {
        if exists|pm: (int, int)| is_first_match(pat, s@, pm.0, pm.1) {
            let pm = choose|pm: (int, int)| is_first_match(pat, s@, pm.0, pm.1);
            assert(match_at(pat, s@, pm.0, pm.1));
        }
    }
    None
}

} // verus!
