use vstd::prelude::*;
use crate::extract::{extract, extracted, views, LabelledValue, LabelledValueView};
use crate::spellcheck::{correct_line, corrected_line, dictionary, str_views, vocabulary};
use crate::text::string_views;
use crate::text::{chars_of, is_ascii_digit};

verus! {

/// A test on a label: it starts with, ends with, or contains a text.
#[derive(Clone, Copy, Debug)]
pub enum LabelPredicate {
    Prefix(&'static str),
    Suffix(&'static str),
    Contains(&'static str),
}

pub open spec fn text_at(s: Seq<char>, i: int, t: Seq<char>) -> bool {
    0 <= i && i + t.len() <= s.len() && s.subrange(i, i + t.len()) == t
}

pub open spec fn satisfies(pred: LabelPredicate, label: Seq<char>) -> bool {
    match pred {
        LabelPredicate::Prefix(t) => text_at(label, 0, t@),
        LabelPredicate::Suffix(t) => text_at(label, label.len() - t@.len(), t@),
        LabelPredicate::Contains(t) => exists|i: int| #[trigger] text_at(label, i, t@),
    }
}

/// `i` is the first position of `xs` whose label satisfies `pred`.
pub open spec fn is_first_satisfying(
    xs: Seq<LabelledValueView>,
    pred: LabelPredicate,
    i: int,
) -> bool {
    &&& 0 <= i < xs.len()
    &&& satisfies(pred, xs[i].label)
    &&& forall|j: int| 0 <= j < i ==> !satisfies(pred, #[trigger] xs[j].label)
}

pub open spec fn first_satisfying(xs: Seq<LabelledValueView>, pred: LabelPredicate) -> Option<int> {
    if exists|i: int| is_first_satisfying(xs, pred, i) {
        Some(choose|i: int| is_first_satisfying(xs, pred, i))
    } else {
        None
    }
}

/// The value text of the first labelled value whose label satisfies `pred`.
pub open spec fn field_text(xs: Seq<LabelledValueView>, pred: LabelPredicate) -> Option<Seq<char>> {
    match first_satisfying(xs, pred) {
        Some(i) => Some(xs[i].value),
        None => None,
    }
}

pub open spec fn all_digits(s: Seq<char>) -> bool {
    forall|k: int| 0 <= k < s.len() ==> is_ascii_digit(#[trigger] s[k])
}

/// The number that a text of decimal digits stands for.
pub open spec fn digits_value(s: Seq<char>) -> int
    decreases s.len(),
{
    if s.len() == 0 {
        0
    } else {
        digits_value(s.drop_last()) * 10 + (s.last() as int - '0' as int)
    }
}

/// The integer that `str::parse` reads from a text: an optional sign, then
/// one or more ASCII digits.
pub open spec fn int_text_value(s: Seq<char>) -> Option<int> {
    if s.len() > 0 && all_digits(s) {
        Some(digits_value(s))
    } else if s.len() > 1 && s[0] == '+' && all_digits(s.drop_first()) {
        Some(digits_value(s.drop_first()))
    } else if s.len() > 1 && s[0] == '-' && all_digits(s.drop_first()) {
        Some(-digits_value(s.drop_first()))
    } else {
        None
    }
}

/// The `i32` that a text stands for; none where it is no integer or out of range.
pub open spec fn parsed_i32(s: Seq<char>) -> Option<i32> {
    match int_text_value(s) {
        Some(v) => if i32::MIN <= v <= i32::MAX {
            Some(v as i32)
        } else {
            None
        },
        None => None,
    }
}

proof fn lemma_digits_value_step(s: Seq<char>, a: int, k: int)
    requires
        0 <= a <= k < s.len(),
    ensures
        digits_value(s.subrange(a, k + 1)) == digits_value(s.subrange(a, k)) * 10 + (s[k] as int
            - '0' as int),
{
    assert(s.subrange(a, k + 1).drop_last() =~= s.subrange(a, k));
}

proof fn lemma_digits_value_grows(s: Seq<char>, a: int, k: int)
    requires
        0 <= a <= k <= s.len(),
        all_digits(s.subrange(a, s.len() as int)),
    ensures
        0 <= digits_value(s.subrange(a, k)) <= digits_value(s.subrange(a, s.len() as int)),
    decreases s.len() - k,
{
    if k == a {
        assert(s.subrange(a, k).len() == 0);
        lemma_digits_value_nonneg(s.subrange(a, s.len() as int));
    } else {
        lemma_digits_value_nonneg(s.subrange(a, k));
    }
    if k < s.len() {
        lemma_digits_value_grows(s, a, k + 1);
        lemma_digits_value_step(s, a, k);
        assert(is_ascii_digit(s.subrange(a, s.len() as int)[k - a]));
    } else {
        assert(s.subrange(a, k) =~= s.subrange(a, s.len() as int));
    }
}

proof fn lemma_digits_value_nonneg(s: Seq<char>)
    requires
        all_digits(s),
    ensures
        digits_value(s) >= 0,
    decreases s.len(),
{
    if s.len() > 0 {
        assert(all_digits(s.drop_last()));
        lemma_digits_value_nonneg(s.drop_last());
        assert(is_ascii_digit(s[s.len() - 1]));
    }
}

/// Reads an `i32` as `str::parse` does.
pub fn parse_i32(s: &str) -> (r: Option<i32>)
    ensures
        r == parsed_i32(s@),
{
    let v = chars_of(s);
    let n = v.len();
    if n == 0 {
        return None;
    }
    let negative = v[0] == '-';
    let start: usize = if v[0] == '-' || v[0] == '+' {
        1
    } else {
        0
    };
    if start == n {
        return None;
    }
    let ghost body = v@.subrange(start as int, n as int);
    proof {
        if start == 1 {
            assert(body =~= v@.drop_first());
        } else {
            assert(body =~= v@);
        }
    }
    let mut acc: i64 = 0;
    let mut k: usize = start;
    assert(v@.subrange(start as int, start as int) =~= seq![]);
    while k < n
        invariant
            v@ == s@,
            n == v@.len(),
            start <= k <= n,
            body == v@.subrange(start as int, n as int),
            start < n,
            start <= 1,
            start == 1 ==> body == v@.drop_first() && (v@[0] == '-' || v@[0] == '+'),
            start == 0 ==> body == v@ && v@[0] != '-' && v@[0] != '+',
            negative == (v@[0] == '-'),
            forall|j: int| start <= j < k ==> is_ascii_digit(#[trigger] v@[j]),
            0 <= acc <= 2147483648,
            acc == digits_value(v@.subrange(start as int, k as int)),
        decreases n - k,
    {
        let c = v[k];
        if !('0' <= c && c <= '9') {
            assert(!is_ascii_digit(body[k - start]));
            assert(!is_ascii_digit(v@[0]) || start == 0);
            return None;
        }
        proof {
            lemma_digits_value_step(v@, start as int, k as int);
        }
        acc = acc * 10 + ((c as u32) - ('0' as u32)) as i64;
        if acc > 2147483648 {
            proof {
                if all_digits(body) {
                    assert(v@.subrange(start as int, n as int).subrange(0, (k + 1 - start) as int)
                        =~= v@.subrange(start as int, k + 1));
                    lemma_digits_value_grows(body, 0, (k + 1 - start) as int);
                    assert(body.subrange(0, body.len() as int) =~= body);
                }
                assert(!is_ascii_digit(v@[0]) || start == 0);
            }
            return None;
        }
        k = k + 1;
    }
    assert(all_digits(body));
    if negative {
        Some((-acc) as i32)
    } else if acc <= 2147483647 {
        Some(acc as i32)
    } else {
        None
    }
}

/// Whether `t` stands in `s` at `i`.
fn text_at_exec(s: &Vec<char>, i: usize, t: &Vec<char>) -> (r: bool)
    requires
        i <= s@.len(),
    ensures
        r == text_at(s@, i as int, t@),
{
    let n = s.len();
    if t.len() > n - i {
        return false;
    }
    let mut k: usize = 0;
    while k < t.len()
        invariant
            n == s@.len(),
            i + t@.len() <= s@.len(),
            k <= t@.len(),
            forall|j: int| 0 <= j < k ==> s@[i + j] == t@[j],
        decreases t@.len() - k,
    {
        if s[i + k] != t[k] {
            assert(s@.subrange(i as int, i + t@.len())[k as int] != t@[k as int]);
            return false;
        }
        k = k + 1;
    }
    assert(s@.subrange(i as int, i + t@.len()) =~= t@);
    true
}

/// Whether `t` stands anywhere in `s`.
fn contains_text(s: &Vec<char>, t: &Vec<char>) -> (r: bool)
    ensures
        r == exists|i: int| #[trigger] text_at(s@, i, t@),
{
    if t.len() > s.len() {
        return false;
    }
    let last = s.len() - t.len();
    let mut i: usize = 0;
    while i < last
        invariant
            last + t@.len() == s@.len(),
            i <= last,
            forall|j: int| 0 <= j < i ==> !#[trigger] text_at(s@, j, t@),
        decreases last - i,
    {
        if text_at_exec(s, i, t) {
            return true;
        }
        i = i + 1;
    }
    if text_at_exec(s, last, t) {
        return true;
    }
    assert forall|j: int| !#[trigger] text_at(s@, j, t@) by {
        if 0 <= j && j + t@.len() <= s@.len() && j != last {
            assert(j < i);
        }
    }
    false
}

/// Whether a label satisfies a predicate.
pub fn label_satisfies(pred: LabelPredicate, label: &str) -> (r: bool)
    ensures
        r == satisfies(pred, label@),
{
    let s = chars_of(label);
    match pred {
        LabelPredicate::Prefix(t) => {
            let tv = chars_of(t);
            text_at_exec(&s, 0, &tv)
        },
        LabelPredicate::Suffix(t) => {
            let tv = chars_of(t);
            if tv.len() > s.len() {
                false
            } else {
                text_at_exec(&s, s.len() - tv.len(), &tv)
            }
        },
        LabelPredicate::Contains(t) => {
            let tv = chars_of(t);
            contains_text(&s, &tv)
        },
    }
}

/// The position of the first labelled value whose label satisfies `pred`.
pub fn find_labelled_value(xs: &Vec<LabelledValue>, pred: LabelPredicate) -> (r: Option<usize>)
    ensures
        match r {
            Some(i) => first_satisfying(views(xs@), pred) == Some(i as int),
            None => first_satisfying(views(xs@), pred) is None,
        },
{
    let ghost vs = views(xs@);
    let mut k: usize = 0;
    while k < xs.len()
        invariant
            vs == views(xs@),
            k <= xs@.len(),
            forall|j: int| 0 <= j < k ==> !satisfies(pred, #[trigger] vs[j].label),
        decreases xs@.len() - k,
    {
        if label_satisfies(pred, xs[k].label.as_str()) {
            proof {
                assert(is_first_satisfying(vs, pred, k as int));
                let c = choose|i: int| is_first_satisfying(vs, pred, i);
                if c < k {
                    assert(!satisfies(pred, vs[c].label));
                } else if k < c {
                    assert(!satisfies(pred, vs[k as int].label));
                }
            }
            return Some(k);
        }
        k = k + 1;
    }
    proof {
        if exists|i: int| is_first_satisfying(vs, pred, i) {
            let c = choose|i: int| is_first_satisfying(vs, pred, i);
            assert(!satisfies(pred, vs[c].label));
        }
    }
    None
}


/// The eleven nutrition fields, each absent when no labelled value was found
/// for it.  `calories` is read as an integer; each other field holds the
/// numeric text of its labelled value, which a caller reads as a decimal
/// number (the field is absent as well when that reading fails).
#[derive(Debug)]
pub struct ResolvedFacts {
    pub servings_per_container: Option<String>,
    pub serving_size_grams: Option<String>,
    pub calories: Option<i32>,
    pub total_fat_grams: Option<String>,
    pub cholesterol_mg: Option<String>,
    pub sodium_mg: Option<String>,
    pub total_carbohydrates_g: Option<String>,
    pub dietary_fiber_g: Option<String>,
    pub total_sugars_g: Option<String>,
    pub added_sugars_g: Option<String>,
    pub protein_g: Option<String>,
}

pub struct ResolvedFactsView {
    pub servings_per_container: Option<Seq<char>>,
    pub serving_size_grams: Option<Seq<char>>,
    pub calories: Option<i32>,
    pub total_fat_grams: Option<Seq<char>>,
    pub cholesterol_mg: Option<Seq<char>>,
    pub sodium_mg: Option<Seq<char>>,
    pub total_carbohydrates_g: Option<Seq<char>>,
    pub dietary_fiber_g: Option<Seq<char>>,
    pub total_sugars_g: Option<Seq<char>>,
    pub added_sugars_g: Option<Seq<char>>,
    pub protein_g: Option<Seq<char>>,
}

pub open spec fn text_view(t: Option<String>) -> Option<Seq<char>> {
    match t {
        Some(s) => Some(s@),
        None => None,
    }
}

impl View for ResolvedFacts {
    type V = ResolvedFactsView;

    open spec fn view(&self) -> ResolvedFactsView {
        ResolvedFactsView {
            servings_per_container: text_view(self.servings_per_container),
            serving_size_grams: text_view(self.serving_size_grams),
            calories: self.calories,
            total_fat_grams: text_view(self.total_fat_grams),
            cholesterol_mg: text_view(self.cholesterol_mg),
            sodium_mg: text_view(self.sodium_mg),
            total_carbohydrates_g: text_view(self.total_carbohydrates_g),
            dietary_fiber_g: text_view(self.dietary_fiber_g),
            total_sugars_g: text_view(self.total_sugars_g),
            added_sugars_g: text_view(self.added_sugars_g),
            protein_g: text_view(self.protein_g),
        }
    }
}

/// Each field from the first labelled value whose label passes the field's test.
pub open spec fn resolved(xs: Seq<LabelledValueView>) -> ResolvedFactsView {
    ResolvedFactsView {
        servings_per_container: field_text(xs, LabelPredicate::Suffix("servings per container")),
        serving_size_grams: field_text(xs, LabelPredicate::Prefix("serving size")),
        calories: match field_text(xs, LabelPredicate::Prefix("calories")) {
            Some(t) => parsed_i32(t),
            None => None,
        },
        total_fat_grams: field_text(xs, LabelPredicate::Prefix("total fat")),
        cholesterol_mg: field_text(xs, LabelPredicate::Prefix("cholesterol")),
        sodium_mg: field_text(xs, LabelPredicate::Prefix("sodium")),
        total_carbohydrates_g: field_text(xs, LabelPredicate::Prefix("total carbohydrate")),
        dietary_fiber_g: field_text(xs, LabelPredicate::Prefix("dietary fiber")),
        total_sugars_g: field_text(xs, LabelPredicate::Prefix("total sugars")),
        added_sugars_g: field_text(xs, LabelPredicate::Contains("added sugars")),
        protein_g: field_text(xs, LabelPredicate::Prefix("protein")),
    }
}

/// The value text of the first labelled value whose label satisfies `pred`.
pub fn field_value(xs: &Vec<LabelledValue>, pred: LabelPredicate) -> (r: Option<String>)
    ensures
        text_view(r) == field_text(views(xs@), pred),
{
    match find_labelled_value(xs, pred) {
        Some(i) => {
            assert(views(xs@)[i as int] == xs@[i as int]@);
            Some(xs[i].value.clone())
        },
        None => None,
    }
}

/// Maps labelled values onto the nutrition fields.
pub fn resolve(values: &Vec<LabelledValue>) -> (r: ResolvedFacts)
    ensures
        r@ == resolved(views(values@)),
{
    let calories = match field_value(values, LabelPredicate::Prefix("calories")) {
        Some(t) => parse_i32(t.as_str()),
        None => None,
    };
    ResolvedFacts {
        servings_per_container: field_value(
            values,
            LabelPredicate::Suffix("servings per container"),
        ),
        serving_size_grams: field_value(values, LabelPredicate::Prefix("serving size")),
        calories,
        total_fat_grams: field_value(values, LabelPredicate::Prefix("total fat")),
        cholesterol_mg: field_value(values, LabelPredicate::Prefix("cholesterol")),
        sodium_mg: field_value(values, LabelPredicate::Prefix("sodium")),
        total_carbohydrates_g: field_value(values, LabelPredicate::Prefix("total carbohydrate")),
        dietary_fiber_g: field_value(values, LabelPredicate::Prefix("dietary fiber")),
        total_sugars_g: field_value(values, LabelPredicate::Prefix("total sugars")),
        added_sugars_g: field_value(values, LabelPredicate::Contains("added sugars")),
        protein_g: field_value(values, LabelPredicate::Prefix("protein")),
    }
}

/// Reads the nutrition fields from OCR lines.
pub fn parse_facts(content: Vec<&str>) -> (r: ResolvedFacts)
    ensures
        r@ == resolved(extracted(str_views(content@))),
{
    let values = extract(&content);
    resolve(&values)
}

/// Each of `fixed` is a correction of the line of `lines` at its position.
pub open spec fn corrected_lines(lines: Seq<Seq<char>>, fixed: Seq<Seq<char>>) -> bool {
    fixed.len() == lines.len() && forall|k: int|
        0 <= k < lines.len() ==> corrected_line(lines[k], vocabulary(), #[trigger] fixed[k])
}

/// Corrects each word of each OCR line towards the dictionary, then reads
/// the nutrition fields from the corrected lines.
pub fn parse_facts_from_lines(lines: &Vec<String>) -> (r: ResolvedFacts)
    ensures
        exists|fixed: Seq<Seq<char>>|
            #[trigger] corrected_lines(string_views(lines@), fixed) && r@ == resolved(
                extracted(fixed),
            ),
{
    let dict = dictionary();
    let mut fixed: Vec<String> = Vec::new();
    let mut k: usize = 0;
    while k < lines.len()
        invariant
            str_views(dict@) == vocabulary(),
            k <= lines@.len(),
            fixed@.len() == k,
            forall|j: int|
                0 <= j < k ==> corrected_line(lines@[j]@, vocabulary(), #[trigger] fixed@[j]@),
        decreases lines@.len() - k,
    {
        fixed.push(correct_line(lines[k].as_str(), &dict));
        k = k + 1;
    }
    let mut refs: Vec<&str> = Vec::new();
    let mut k: usize = 0;
    while k < fixed.len()
        invariant
            k <= fixed@.len(),
            refs@.len() == k,
            forall|j: int| 0 <= j < k ==> (#[trigger] refs@[j])@ == fixed@[j]@,
        decreases fixed@.len() - k,
    {
        refs.push(fixed[k].as_str());
        k = k + 1;
    }
    let ghost fixed_views = str_views(refs@);
    assert(fixed_views =~= string_views(fixed@));
    assert(corrected_lines(string_views(lines@), fixed_views));
    parse_facts(refs)
}

/// The fields read from lines depend on the lines alone: two readings of
/// the same lines give the same fields.
pub proof fn parse_facts_is_deterministic(a: Seq<Seq<char>>, b: Seq<Seq<char>>)
    requires
        a == b,
    ensures
        resolved(extracted(a)) == resolved(extracted(b)),
{
}

/// No lines give no labelled values, and so every field is absent.
pub proof fn no_lines_give_no_facts()
    ensures
        extracted(seq![]) == Seq::<LabelledValueView>::empty(),
        resolved(extracted(seq![])) == (ResolvedFactsView {
            servings_per_container: None,
            serving_size_grams: None,
            calories: None,
            total_fat_grams: None,
            cholesterol_mg: None,
            sodium_mg: None,
            total_carbohydrates_g: None,
            dietary_fiber_g: None,
            total_sugars_g: None,
            added_sugars_g: None,
            protein_g: None,
        }),
{
    let e = extracted(seq![]);
    assert(e =~= Seq::<LabelledValueView>::empty());
    assert forall|pred: LabelPredicate| first_satisfying(e, pred) is None by {
        assert(!exists|i: int| is_first_satisfying(e, pred, i));
    }
}

} // verus!
