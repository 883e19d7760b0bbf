use nutrition_facts::patterns::{find_match, Pattern};
use nutrition_facts::spellcheck::{correction, dictionary};

fn captured(pattern: Pattern, text: &str) -> Option<String> {
    let chars: Vec<char> = text.chars().collect();
    find_match(pattern, &chars).map(|(p, m)| chars[p..m].iter().collect())
}

#[test]
fn test_labelled_value() {
    let needle = "10 servings per container.";
    let caps = captured(Pattern::Servings, needle);
    if let Some(caps) = caps {
        assert_eq!(&caps, "10");
    } else {
        assert_eq!(false, true);
    }
}

#[test]
fn test_correction() {
    let dict = dictionary();

    let tests = [
        ("calorees", "calories"),
        ("protien", "protein"),
        ("f1ber", "fiber"),
        ("s0dium", "sodium"),
        ("t0tal", "total"),
        ("lotal", "total"),
        ("notinthedict", "notinthedict"),
    ];

    for t in &tests {
        assert_eq!(t.1, correction(t.0, &dict));
    }
}

#[test]
fn test_parsing_labelled_floats() {
    let target = "Total Fat 2.5g";
    if let Some(caps) = captured(Pattern::Quantity, target) {
        assert_eq!(&caps, "2.5");
    }
    if let Some(caps) = captured(Pattern::Quantity, "total fat 5g") {
        assert_eq!(&caps, "5");
    }
}
