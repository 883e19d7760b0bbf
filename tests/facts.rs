use nutrition_facts::extract::{calories_entry, extract, is_all_numeric};
use nutrition_facts::patterns::{find_match, unit_length, Pattern};
use nutrition_facts::resolve::{
    label_satisfies, parse_facts, parse_facts_from_lines, parse_i32, resolve, LabelPredicate,
    ResolvedFacts,
};
use nutrition_facts::spellcheck::{correct_line, correction, dictionary};
use nutrition_facts::text::{eq_ignore_ascii_case, split_words, trim};

fn number(t: &Option<String>) -> Option<f64> {
    t.as_ref().and_then(|s| s.parse::<f64>().ok())
}

fn all_absent(f: &ResolvedFacts) -> bool {
    f.servings_per_container.is_none()
        && f.serving_size_grams.is_none()
        && f.calories.is_none()
        && f.total_fat_grams.is_none()
        && f.cholesterol_mg.is_none()
        && f.sodium_mg.is_none()
        && f.total_carbohydrates_g.is_none()
        && f.dietary_fiber_g.is_none()
        && f.total_sugars_g.is_none()
        && f.added_sugars_g.is_none()
        && f.protein_g.is_none()
}

#[test]
fn corrected_word_is_a_close_dictionary_word() {
    let dict = dictionary();
    for w in ["calorees", "protien", "f1ber", "s0dium", "t0tal", "lotal", "sugarz", "xyz"] {
        let r = correction(w, &dict);
        if r != w {
            assert!(dict.contains(&r));
            assert_eq!(r.chars().count(), w.chars().count());
            assert!(strsim::levenshtein(w, r) <= 2);
            for d in &dict {
                if d.chars().count() == w.chars().count() {
                    assert!(strsim::levenshtein(w, r) <= strsim::levenshtein(w, d));
                }
            }
        }
    }
}

#[test]
fn far_or_unmatched_lengths_stay_unchanged() {
    let dict = dictionary();
    assert_eq!(correction("xyzw", &dict), "xyzw");
    assert_eq!(correction("", &dict), "");
    assert_eq!(correction("fat", &dict), "fat");
}

#[test]
fn quantity_line_gives_label_value_and_unit() {
    let lines = vec!["Total Fat 2.5g", "Sodium 160mg"];
    let values = extract(&lines);
    assert_eq!(values.len(), 1);
    assert_eq!(values[0].label, "total fat 2.5g");
    assert_eq!(values[0].value, "2.5");
    assert_eq!(values[0].unit.as_deref(), Some("g"));
    let facts = resolve(&values);
    assert_eq!(number(&facts.total_fat_grams), Some(2.5));
}

#[test]
fn last_line_is_not_scanned() {
    let values = extract(&vec!["Total Fat 2.5g"]);
    assert_eq!(values.len(), 0);
}

#[test]
fn calories_after_the_word() {
    let facts = parse_facts(vec!["Calories", "150"]);
    assert_eq!(facts.calories, Some(150));
}

#[test]
fn calories_before_the_word() {
    let facts = parse_facts(vec!["150", "Calories", "Total Fat 2g"]);
    assert_eq!(facts.calories, Some(150));
}

#[test]
fn calories_first_without_number_gives_nothing() {
    let facts = parse_facts(vec!["Calories", "Total Fat 2g"]);
    assert_eq!(facts.calories, None);
    let values = extract(&vec!["Calories", "abc"]);
    assert_eq!(values.len(), 0);
}

#[test]
fn servings_per_container_line() {
    let facts = parse_facts(vec!["10 servings per container.", "Serving size 1 cup"]);
    assert_eq!(number(&facts.servings_per_container), Some(10.0));
    let values = extract(&vec!["10 Servings Per Container.", ""]);
    assert_eq!(values[0].label, "10 servings per container");
    assert_eq!(values[0].value, "10");
    assert_eq!(values[0].unit, None);
}

#[test]
fn added_sugars_completes_the_value_before() {
    let facts = parse_facts(vec!["Includes 5g", "Added Sugars", "Protein 3g"]);
    assert_eq!(number(&facts.added_sugars_g), Some(5.0));
    let values = extract(&vec!["Includes 5g", "Added Sugars", "Protein 3g"]);
    assert_eq!(values[0].label, "includes 5g added sugars");
}

#[test]
fn serving_size_completes_the_value_before() {
    let values = extract(&vec!["30g", "Serving Size", "x"]);
    assert_eq!(values.len(), 1);
    assert_eq!(values[0].label, "serving size 30g");
    let facts = resolve(&values);
    assert_eq!(number(&facts.serving_size_grams), Some(30.0));
}

#[test]
fn relabel_without_value_is_dropped() {
    let values = extract(&vec!["Added Sugars", "Serving Size", "x"]);
    assert_eq!(values.len(), 0);
}

#[test]
fn letter_o_reads_as_zero_and_nine_as_unit() {
    let values = extract(&vec!["Sodium 1o0mg", "Protein 39", "x"]);
    assert_eq!(values[0].value, "100");
    assert_eq!(values[0].unit.as_deref(), Some("mg"));
    assert_eq!(values[1].value, "3");
    assert_eq!(values[1].unit.as_deref(), Some("9"));
    let facts = resolve(&values);
    assert_eq!(number(&facts.sodium_mg), Some(100.0));
    assert_eq!(number(&facts.protein_g), Some(3.0));
}

#[test]
fn first_matching_value_wins() {
    let facts = parse_facts(vec!["Total Fat 2g", "Total Fat 7g", "x"]);
    assert_eq!(facts.total_fat_grams.as_deref(), Some("2"));
}

#[test]
fn full_label_resolves_each_field() {
    let facts = parse_facts(vec![
        "8 servings per container",
        "Serving size 55g",
        "Calories",
        "230",
        "Total Fat 8g",
        "Cholesterol 0mg",
        "Sodium 160mg",
        "Total Carbohydrate 37g",
        "Dietary Fiber 4g",
        "Total Sugars 12g",
        "Includes 10g Added Sugars",
        "Protein 3g",
        "Vitamin D",
    ]);
    assert_eq!(number(&facts.servings_per_container), Some(8.0));
    assert_eq!(number(&facts.serving_size_grams), Some(55.0));
    assert_eq!(facts.calories, Some(230));
    assert_eq!(number(&facts.total_fat_grams), Some(8.0));
    assert_eq!(number(&facts.cholesterol_mg), Some(0.0));
    assert_eq!(number(&facts.sodium_mg), Some(160.0));
    assert_eq!(number(&facts.total_carbohydrates_g), Some(37.0));
    assert_eq!(number(&facts.dietary_fiber_g), Some(4.0));
    assert_eq!(number(&facts.total_sugars_g), Some(12.0));
    assert_eq!(number(&facts.added_sugars_g), Some(10.0));
    assert_eq!(number(&facts.protein_g), Some(3.0));
}

#[test]
fn same_lines_give_same_facts() {
    let lines = vec!["Calories", "150", "Total Fat 2.5g", "Includes 5g", "Added Sugars", "x"];
    let a = parse_facts(lines.clone());
    let b = parse_facts(lines);
    assert_eq!(format!("{:?}", a), format!("{:?}", b));
}

#[test]
fn empty_input_gives_no_facts() {
    assert!(all_absent(&parse_facts(vec![])));
    assert!(extract(&vec![]).is_empty());
    assert!(all_absent(&parse_facts(vec!["Total Fat 2g"])));
}

#[test]
fn parse_i32_reads_as_str_parse_does() {
    for s in ["150", "-5", "+7", "0", "2147483647", "-2147483648", "2147483648", "", "-", "+", "1.5", "12a", "-2147483649"] {
        assert_eq!(parse_i32(s), s.parse::<i32>().ok(), "{}", s);
    }
}

#[test]
fn label_predicates() {
    assert!(label_satisfies(LabelPredicate::Prefix("total fat"), "total fat 2g"));
    assert!(!label_satisfies(LabelPredicate::Prefix("total fat"), "fat total"));
    assert!(label_satisfies(LabelPredicate::Suffix("per container"), "10 servings per container"));
    assert!(!label_satisfies(LabelPredicate::Suffix("per container"), "per container 10"));
    assert!(label_satisfies(LabelPredicate::Contains("added sugars"), "includes 5g added sugars"));
    assert!(!label_satisfies(LabelPredicate::Contains("added sugars"), "added sugar"));
    assert!(label_satisfies(LabelPredicate::Contains(""), ""));
}

#[test]
fn patterns_pick_leftmost_longest() {
    let s: Vec<char> = "oz 12.5mg and 3g".chars().collect();
    assert_eq!(find_match(Pattern::Quantity, &s), Some((3, 7)));
    assert_eq!(unit_length(&s, 7), 2);
    let s: Vec<char> = "129".chars().collect();
    assert_eq!(find_match(Pattern::Quantity, &s), Some((0, 2)));
    let s: Vec<char> = "no number here".chars().collect();
    assert_eq!(find_match(Pattern::Quantity, &s), None);
    let s: Vec<char> = "about 2.5 SERVINGS PER CONTAINER".chars().collect();
    assert_eq!(find_match(Pattern::Servings, &s), Some((6, 9)));
}

#[test]
fn numeric_test_uses_unicode_numbers() {
    assert!(is_all_numeric("150"));
    assert!(is_all_numeric("½"));
    assert!(!is_all_numeric("15a"));
    assert!(is_all_numeric(""));
}

#[test]
fn text_helpers() {
    assert!(eq_ignore_ascii_case("Added SUGARS", "added sugars"));
    assert!(!eq_ignore_ascii_case("added sugar", "added sugars"));
    assert_eq!(trim("\u{a0} total fat \t"), "total fat");
    assert_eq!(trim("   "), "");
    assert_eq!(split_words("  T0tal\u{3000}Fat\t2g "), vec!["T0tal", "Fat", "2g"]);
}

#[test]
fn lines_are_corrected_word_by_word() {
    let dict = dictionary();
    assert_eq!(correct_line("  T0tal  Fat 2g ", &dict), "total fat 2g");
    assert_eq!(correct_line("", &dict), "");
    let lines = vec!["Calorees".to_string(), "150".to_string(), "t0tal fat 2.5g".to_string(), "x".to_string()];
    let facts = parse_facts_from_lines(&lines);
    assert_eq!(facts.calories, Some(150));
    assert_eq!(number(&facts.total_fat_grams), Some(2.5));
}

#[test]
fn calories_entry_follows_the_numeric_test() {
    let lines = vec!["Calories", "x"];
    let after = calories_entry(&lines, 0, true).unwrap();
    assert_eq!(after.label, "calories x");
    assert_eq!(after.value, "x");
    assert!(calories_entry(&lines, 0, false).is_none());
    let lines = vec!["150", "CALORIES", "x"];
    let before = calories_entry(&lines, 1, false).unwrap();
    assert_eq!(before.label, "calories 150");
    assert_eq!(before.value, "150");
    assert!(calories_entry(&lines, 0, true).is_none());
}
