use vstd::prelude::*;
use vstd::string::StringExecFns;
use crate::patterns::{find_match, first_match, unit_len, unit_length, Pattern};
use crate::spellcheck::str_views;
use crate::text::{
    chars_of, eq_ascii_ci, eq_ignore_ascii_case, is_numeric, lower_of, numeric_char, to_lowercase,
    trim, trimmed,
};

verus! {

/// A label read from the OCR lines with the numeric text found for it.
///
/// `label` is lowercased text that names the fact, `value` the number as
/// text (not yet parsed), `unit` the unit text when one was read: `g`, `mg`,
/// or `9`, a misread `g` that is kept as it was read.
#[derive(Debug)]
pub struct LabelledValue {
    pub label: String,
    pub value: String,
    pub unit: Option<String>,
}

pub struct LabelledValueView {
    pub label: Seq<char>,
    pub value: Seq<char>,
    pub unit: Option<Seq<char>>,
}

impl View for LabelledValue {
    type V = LabelledValueView;

    open spec fn view(&self) -> LabelledValueView {
        LabelledValueView {
            label: self.label@,
            value: self.value@,
            unit: match self.unit {
                Some(u) => Some(u@),
                None => None,
            },
        }
    }
}

pub open spec fn views(xs: Seq<LabelledValue>) -> Seq<LabelledValueView> {
    xs.map_values(|x: LabelledValue| x@)
}

/// The text with every `o` and `O` read as the digit `0`.
pub open spec fn zero_for_o(s: Seq<char>) -> Seq<char> {
    s.map_values(|c: char| if c == 'o' || c == 'O' { '0' } else { c })
}

/// The text with every `.` removed.
pub open spec fn without_dots(s: Seq<char>) -> Seq<char>
    decreases s.len(),
{
    if s.len() == 0 {
        s
    } else if s.last() == '.' {
        without_dots(s.drop_last())
    } else {
        without_dots(s.drop_last()).push(s.last())
    }
}

/// Replaces the last labelled value, if there is one, by the same value with
/// `prefix` put before its label and `suffix` after it.
pub open spec fn relabel_last(
    acc: Seq<LabelledValueView>,
    prefix: Seq<char>,
    suffix: Seq<char>,
) -> Seq<LabelledValueView> {
    if acc.len() == 0 {
        acc
    } else {
        acc.drop_last().push(
            LabelledValueView {
                label: prefix + acc.last().label + suffix,
                value: acc.last().value,
                unit: acc.last().unit,
            },
        )
    }
}

/// The first pass on one line, given what earlier lines produced.
pub open spec fn scan_step(acc: Seq<LabelledValueView>, line: Seq<char>) -> Seq<
    LabelledValueView,
> {
    if let Some((p, m)) = first_match(Pattern::Quantity, line) {
        acc.push(
            LabelledValueView {
                label: trimmed(lower_of(line)),
                value: zero_for_o(line.subrange(p, m)),
                unit: Some(line.subrange(m, m + unit_len(line, m))),
            },
        )
    } else if eq_ascii_ci(line, "added sugars"@) {
        relabel_last(acc, seq![], " added sugars"@)
    } else if eq_ascii_ci(line, "serving size"@) {
        relabel_last(acc, "serving size "@, seq![])
    } else if let Some((p, e)) = first_match(Pattern::Servings, line) {
        acc.push(
            LabelledValueView {
                label: without_dots(lower_of(line)),
                value: line.subrange(p, e),
                unit: None,
            },
        )
    } else {
        acc
    }
}

/// The first pass over the first `k` lines.
pub open spec fn scan_lines(lines: Seq<Seq<char>>, k: int) -> Seq<LabelledValueView>
    decreases k,
{
    if k <= 0 {
        seq![]
    } else {
        scan_step(scan_lines(lines, k - 1), lines[k - 1])
    }
}

pub open spec fn all_numeric(s: Seq<char>) -> bool {
    forall|k: int| 0 <= k < s.len() ==> numeric_char(#[trigger] s[k])
}

pub open spec fn calories_value(word: Seq<char>, value: Seq<char>) -> LabelledValueView {
    LabelledValueView { label: lower_of(word + " "@ + value), value: value, unit: None }
}

/// The second pass at line `i` (which has a successor): a line that reads
/// `calories` takes its value from the next line when that one is all
/// numeric (`next_numeric`), and else from the line before, when there is one.
pub open spec fn calories_choice(lines: Seq<Seq<char>>, i: int, next_numeric: bool) -> Option<
    LabelledValueView,
> {
    if eq_ascii_ci(lines[i], "calories"@) {
        if next_numeric {
            Some(calories_value(lines[i], lines[i + 1]))
        } else if i > 0 {
            Some(calories_value(lines[i], lines[i - 1]))
        } else {
            None
        }
    } else {
        None
    }
}

pub open spec fn calories_at(lines: Seq<Seq<char>>, i: int) -> Option<LabelledValueView> {
    calories_choice(lines, i, all_numeric(lines[i + 1]))
}

/// The second pass over the first `k` lines.
pub open spec fn calories_lines(lines: Seq<Seq<char>>, k: int) -> Seq<LabelledValueView>
    decreases k,
{
    if k <= 0 {
        seq![]
    } else {
        let prev = calories_lines(lines, k - 1);
        match calories_at(lines, k - 1) {
            Some(v) => prev.push(v),
            None => prev,
        }
    }
}

/// Both passes run over every line but the last.
pub open spec fn scanned_count(lines: Seq<Seq<char>>) -> int {
    if lines.len() > 0 {
        lines.len() - 1
    } else {
        0
    }
}

/// The labelled values read from a sequence of OCR lines.
pub open spec fn extracted(lines: Seq<Seq<char>>) -> Seq<LabelledValueView> {
    scan_lines(lines, scanned_count(lines)) + calories_lines(lines, scanned_count(lines))
}

fn zeroed(line: &str, p: usize, m: usize) -> (r: String)
    requires
        p <= m <= line@.len(),
    ensures
        r@ == zero_for_o(line@.subrange(p as int, m as int)),
{
    let ghost w = line@.subrange(p as int, m as int);
    let mut r = String::new();
    let mut k: usize = p;
    while k < m
        invariant
            p <= k <= m <= line@.len(),
            w == line@.subrange(p as int, m as int),
            r@ == zero_for_o(w.subrange(0, k - p)),
        decreases m - k,
    {
        let c = line.get_char(k);
        if c == 'o' || c == 'O' {
            proof {
                reveal_strlit("0");
            }
            r.append("0");
        } else {
            r.append(line.substring_char(k, k + 1));
        }
        assert(r@ =~= zero_for_o(w.subrange(0, k + 1 - p)));
        k = k + 1;
    }
    assert(w.subrange(0, m - p) =~= w);
    r
}

fn remove_dots(s: &str) -> (r: String)
    ensures
        r@ == without_dots(s@),
{
    let n = s.unicode_len();
    let mut r = String::new();
    let mut k: usize = 0;
    while k < n
        invariant
            n == s@.len(),
            k <= n,
            r@ == without_dots(s@.subrange(0, k as int)),
        decreases n - k,
    {
        assert(s@.subrange(0, k + 1).drop_last() =~= s@.subrange(0, k as int));
        if s.get_char(k) != '.' {
            r.append(s.substring_char(k, k + 1));
        }
        k = k + 1;
    }
    assert(s@.subrange(0, n as int) =~= s@);
    r
}

fn relabel(results: &mut Vec<LabelledValue>, prefix: &str, suffix: &str)
    ensures
        views(final(results)@) == relabel_last(views(old(results)@), prefix@, suffix@),
{
    if let Some(prev) = results.pop() {
        let label = String::from_str(prefix).concat(prev.label.as_str()).concat(suffix);
        results.push(LabelledValue { label, value: prev.value, unit: prev.unit });
        assert(views(final(results)@) =~= relabel_last(views(old(results)@), prefix@, suffix@));
    } else {
        assert(views(final(results)@) =~= relabel_last(views(old(results)@), prefix@, suffix@));
    }
}

/// The first pass on one line.
fn scan_line(results: &mut Vec<LabelledValue>, line: &str)
    ensures
        views(final(results)@) == scan_step(views(old(results)@), line@),
{
    let s = chars_of(line);
    if let Some((p, m)) = find_match(Pattern::Quantity, &s) {
        let lower = to_lowercase(line);
        let label = String::from_str(trim(lower.as_str()));
        let value = zeroed(line, p, m);
        let u = unit_length(&s, m);
        let n = s.len();
        assert(m + u <= n);
        let unit = String::from_str(line.substring_char(m, m + u));
        results.push(LabelledValue { label, value, unit: Some(unit) });
        assert(views(final(results)@) =~= scan_step(views(old(results)@), line@));
    } else if eq_ignore_ascii_case(line, "added sugars") {
        relabel(results, "", " added sugars");
        proof {
            reveal_strlit("");
        }
        assert(""@ =~= seq![]);
    } else if eq_ignore_ascii_case(line, "serving size") {
        relabel(results, "serving size ", "");
        proof {
            reveal_strlit("");
        }
        assert(""@ =~= seq![]);
    } else if let Some((p, e)) = find_match(Pattern::Servings, &s) {
        let lower = to_lowercase(line);
        let label = remove_dots(lower.as_str());
        let value = String::from_str(line.substring_char(p, e));
        results.push(LabelledValue { label, value, unit: None });
        assert(views(final(results)@) =~= scan_step(views(old(results)@), line@));
    }
}

/// Whether every character of the string is numeric.
pub fn is_all_numeric(s: &str) -> (r: bool)
    ensures
        r == all_numeric(s@),
{
    let v = chars_of(s);
    let mut k: usize = 0;
    while k < v.len()
        invariant
            v@ == s@,
            k <= v@.len(),
            forall|j: int| 0 <= j < k ==> numeric_char(#[trigger] v@[j]),
        decreases v@.len() - k,
    {
        if !is_numeric(v[k]) {
            return false;
        }
        k = k + 1;
    }
    true
}

fn calories_pair(word: &str, value: &str) -> (r: LabelledValue)
    ensures
        r@ == calories_value(word@, value@),
{
    let joined = String::from_str(word).concat(" ").concat(value);
    let label = to_lowercase(joined.as_str());
    LabelledValue { label, value: String::from_str(value), unit: None }
}

/// The second pass at line `i`, given whether the next line is all numeric.
pub fn calories_entry(content: &Vec<&str>, i: usize, next_numeric: bool) -> (r: Option<
    LabelledValue,
>)
    requires
        i + 1 < content@.len(),
    ensures
        match r {
            Some(v) => calories_choice(str_views(content@), i as int, next_numeric) == Some(v@),
            None => calories_choice(str_views(content@), i as int, next_numeric) is None,
        },
{
    let ghost lines = str_views(content@);
    let n = content.len();
    assert(lines[i as int] == content@[i as int]@);
    assert(lines[i + 1] == content@[i + 1]@);
    if eq_ignore_ascii_case(content[i], "calories") {
        if next_numeric {
            Some(calories_pair(content[i], content[i + 1]))
        } else if i > 0 {
            assert(lines[i - 1] == content@[i - 1]@);
            Some(calories_pair(content[i], content[i - 1]))
        } else {
            None
        }
    } else {
        None
    }
}

/// Reads labelled values from OCR lines, in order.
///
/// The first pass looks at each line but the last for a quantity with a
/// unit, for a line `added sugars` or `serving size` that completes the
/// label of the value before it, and for a servings-per-container count.
/// The second pass looks at each line but the last for `calories` and takes
/// the number beside it.
pub fn extract(content: &Vec<&str>) -> (r: Vec<LabelledValue>)
    ensures
        views(r@) == extracted(str_views(content@)),
{
    let ghost lines = str_views(content@);
    let n = content.len();
    let last: usize = if n > 0 {
        n - 1
    } else {
        0
    };
    assert(last as int == scanned_count(lines));
    let mut results: Vec<LabelledValue> = Vec::new();
    let mut i: usize = 0;
    assert(views(results@) =~= scan_lines(lines, 0));
    while i < last
        invariant
            lines == str_views(content@),
            last as int == scanned_count(lines),
            last <= content@.len(),
            i <= last,
            views(results@) == scan_lines(lines, i as int),
        decreases last - i,
    {
        assert(lines[i as int] == content@[i as int]@);
        scan_line(&mut results, content[i]);
        i = i + 1;
    }
    let ghost first = scan_lines(lines, last as int);
    let mut i: usize = 0;
    assert(views(results@) =~= first + calories_lines(lines, 0));
    while i < last
        invariant
            lines == str_views(content@),
            last as int == scanned_count(lines),
            last < content@.len() || last == 0,
            i <= last,
            first == scan_lines(lines, last as int),
            views(results@) == first + calories_lines(lines, i as int),
        decreases last - i,
    {
        let next_numeric = is_all_numeric(content[i + 1]);
        assert(str_views(content@)[i + 1] == content@[i + 1]@);
        let entry = calories_entry(content, i, next_numeric);
        let ghost before = views(results@);
        if let Some(v) = entry {
            results.push(v);
            assert(views(results@) =~= before.push(v@));
        }
        assert(views(results@) =~= first + calories_lines(lines, i + 1));
        i = i + 1;
    }
    results
}

} // verus!
