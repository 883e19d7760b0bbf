use vstd::prelude::*;
use vstd::string::StringExecFns;
use crate::text::{join_words, split_words, string_views, words};

verus! {

/// The closed set of words that OCR tokens may be corrected towards.
pub open spec fn vocabulary() -> Seq<Seq<char>> {
    seq![
        "servings"@, "per"@, "container"@, "serving"@, "size"@, "calories"@,
        "total"@, "fat"@, "cholesterol"@, "sodium"@, "carbohydrate"@, "carbohydrates"@,
        "dietary"@, "fiber"@, "sugars"@, "sugar"@, "added"@, "protein"@,
    ]
}

/// The character sequences of a list of string slices.
pub open spec fn str_views(xs: Seq<&str>) -> Seq<Seq<char>> {
    xs.map_values(|x: &str| x@)
}

pub open spec fn min_nat(a: nat, b: nat) -> nat {
    if a <= b { a } else { b }
}

/// Levenshtein distance: the least number of single-character insertions,
/// deletions and substitutions that turn `a` into `b`.
pub open spec fn edit_distance(a: Seq<char>, b: Seq<char>) -> nat
    decreases a.len() + b.len(),
{
    if a.len() == 0 {
        b.len()
    } else if b.len() == 0 {
        a.len()
    } else {
        let replace = edit_distance(a.drop_last(), b.drop_last()) + if a.last() == b.last() {
            0nat
        } else {
            1nat
        };
        let delete = edit_distance(a.drop_last(), b) + 1;
        let insert = edit_distance(a, b.drop_last()) + 1;
        min_nat(replace, min_nat(delete, insert))
    }
}

/// Some word of `vocab` with as many characters as `word` lies within distance 2 of it.
pub open spec fn has_close_candidate(word: Seq<char>, vocab: Seq<Seq<char>>) -> bool {
    exists|i: int|
        0 <= i < vocab.len() && (#[trigger] vocab[i]).len() == word.len() && edit_distance(
            word,
            vocab[i],
        ) <= 2
}

/// `r` is a word of `vocab` of the same length as `word`, within distance 2,
/// and no same-length word of `vocab` is closer to `word`.
pub open spec fn is_correction_of(word: Seq<char>, vocab: Seq<Seq<char>>, r: Seq<char>) -> bool {
    &&& vocab.contains(r)
    &&& r.len() == word.len()
    &&& edit_distance(word, r) <= 2
    &&& forall|i: int|
        0 <= i < vocab.len() && (#[trigger] vocab[i]).len() == word.len() ==> edit_distance(
            word,
            r,
        ) <= edit_distance(word, vocab[i])
}

/// What `correction` makes of `word` given the vocabulary `vocab`.
pub open spec fn corrects_to(word: Seq<char>, vocab: Seq<Seq<char>>, r: Seq<char>) -> bool {
    if has_close_candidate(word, vocab) {
        is_correction_of(word, vocab, r)
    } else {
        r == word
    }
}

/// Relies on strsim::levenshtein: the Levenshtein distance between the
/// characters of the two strings.
#[verifier::external_body]
fn levenshtein_distance(a: &str, b: &str) -> (r: usize)
    ensures
        r as nat == edit_distance(a@, b@),
{
    strsim::levenshtein(a, b)
}

/// The fixed dictionary of allowed words.
pub fn dictionary() -> (r: Vec<&'static str>)
    ensures
        str_views(r@) == vocabulary(),
{
    let r: Vec<&'static str> = vec![
        "servings",
        "per",
        "container",
        "serving",
        "size",
        "calories",
        "total",
        "fat",
        "cholesterol",
        "sodium",
        "carbohydrate",
        "carbohydrates",
        "dietary",
        "fiber",
        "sugars",
        "sugar",
        "added",
        "protein",
    ];
    assert(str_views(r@) =~= vocabulary());
    r
}

/// Corrects a single OCR token towards the dictionary.
///
/// Among the dictionary words with as many characters as `word`, the first
/// one at the least edit distance is chosen; it is returned when that
/// distance is at most 2, and `word` itself otherwise.  OCR errors on this
/// vocabulary are almost always substitutions, so only words of the same
/// length are considered.
pub fn correction<'a>(word: &'a str, dict: &Vec<&'a str>) -> (r: &'a str)
    ensures
        corrects_to(word@, str_views(dict@), r@),
{
    let ghost vocab = str_views(dict@);
    let n = word.unicode_len();
    let mut best_index: usize = 0;
    let mut best_distance: usize = 0;
    let mut found = false;
    let mut j: usize = 0;
    while j < dict.len()
        invariant
            j <= dict@.len(),
            n == word@.len(),
            vocab == str_views(dict@),
            found ==> best_index < j,
            found ==> vocab[best_index as int].len() == word@.len(),
            found ==> best_distance == edit_distance(word@, vocab[best_index as int]),
            found ==> forall|i: int|
                0 <= i < j && (#[trigger] vocab[i]).len() == word@.len() ==> best_distance
                    <= edit_distance(word@, vocab[i]),
            !found ==> forall|i: int| 0 <= i < j ==> (#[trigger] vocab[i]).len() != word@.len(),
        decreases dict@.len() - j,
    {
        let candidate: &'a str = dict[j];
        if candidate.unicode_len() == n {
            let d = levenshtein_distance(word, candidate);
            if !found || d < best_distance {
                best_index = j;
                best_distance = d;
                found = true;
            }
        }
        j = j + 1;
    }
    if found && best_distance <= 2 {
        let r: &'a str = dict[best_index];
        assert(vocab[best_index as int] == r@);
        r
    } else {
        assert(!has_close_candidate(word@, vocab));
        word
    }
}

/// `cs` holds a correction of each word of `ws`.
pub open spec fn corrected_words(ws: Seq<Seq<char>>, vocab: Seq<Seq<char>>, cs: Seq<Seq<char>>) -> bool {
    cs.len() == ws.len() && forall|k: int| 0 <= k < ws.len() ==> corrects_to(ws[k], vocab, #[trigger] cs[k])
}

/// `r` is `line` with each of its words corrected, joined by single spaces.
pub open spec fn corrected_line(line: Seq<char>, vocab: Seq<Seq<char>>, r: Seq<char>) -> bool {
    exists|cs: Seq<Seq<char>>| #[trigger] corrected_words(words(line), vocab, cs) && r == join_words(cs)
}

/// Corrects each word of an OCR line and joins the words with single spaces.
pub fn correct_line(line: &str, dict: &Vec<&str>) -> (r: String)
    ensures
        corrected_line(line@, str_views(dict@), r@),
{
    let ghost vocab = str_views(dict@);
    let ws = split_words(line);
    let mut out = String::new();
    let ghost mut cs: Seq<Seq<char>> = seq![];
    let mut k: usize = 0;
    while k < ws.len()
        invariant
            vocab == str_views(dict@),
            string_views(ws@) == words(line@),
            k <= ws@.len(),
            cs.len() == k,
            forall|j: int| 0 <= j < k ==> corrects_to(words(line@)[j], vocab, #[trigger] cs[j]),
            out@ == join_words(cs),
        decreases ws@.len() - k,
    {
        let c = correction(ws[k].as_str(), dict);
        assert(string_views(ws@)[k as int] == ws@[k as int]@);
        if k > 0 {
            out.append(" ");
        }
        out.append(c);
        proof {
            let old_cs = cs;
            cs = cs.push(c@);
            assert(cs.drop_last() =~= old_cs);
            if k == 0 {
                assert(old_cs.len() == 0);
            }
        }
        k = k + 1;
    }
    assert(corrected_words(words(line@), vocab, cs));
    out
}

/// A token that the corrector changes becomes a vocabulary word of the same
/// length, at edit distance at most 2, and no same-length vocabulary word is
/// closer to the token.
pub proof fn correction_changes_only_to_nearest_word(word: Seq<char>, r: Seq<char>)
    requires
        corrects_to(word, vocabulary(), r),
        r != word,
    ensures
        vocabulary().contains(r),
        r.len() == word.len(),
        edit_distance(word, r) <= 2,
        forall|i: int|
            0 <= i < vocabulary().len() && (#[trigger] vocabulary()[i]).len() == word.len()
                ==> edit_distance(word, r) <= edit_distance(word, vocabulary()[i]),
{
}

} // verus!
