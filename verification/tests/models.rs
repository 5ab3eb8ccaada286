use pictagger::models::{
    default_frequency_weight_pairs, default_image_tags, default_tag_definitions,
    normalize_image_tags, primary_tag, secondary_tag, tags_label, FrequencyWeightPair, ImageRecord,
    MAX_TAGS,
};

fn strings(items: &[&str]) -> Vec<String> {
    items.iter().map(|s| s.to_string()).collect()
}

#[test]
fn default_image_tags_are_empty() {
    assert!(default_image_tags().is_empty());
}

#[test]
fn normalize_trims_drops_empty_and_repeats() {
    let tags = strings(&["  red ", "", "red", "\tblue\n", "green"]);
    assert_eq!(normalize_image_tags(tags), strings(&["red", "blue"]));
}

#[test]
fn normalize_keeps_at_most_two() {
    let tags = strings(&["a", "b", "c"]);
    assert_eq!(normalize_image_tags(tags), strings(&["a", "b"]));
}

#[test]
fn normalize_of_blank_tags_is_empty() {
    let tags = strings(&["   ", "\u{3000}", ""]);
    assert!(normalize_image_tags(tags).is_empty());
}

#[test]
fn normalize_trims_unicode_white_space() {
    let tags = strings(&["\u{00A0}x\u{2003}", "x"]);
    assert_eq!(normalize_image_tags(tags), strings(&["x"]));
}

#[test]
fn normalize_is_idempotent_on_example() {
    let once = normalize_image_tags(strings(&[" b ", "a", "b", "c"]));
    let twice = normalize_image_tags(once.clone());
    assert_eq!(once, twice);
    assert_eq!(once, strings(&["b", "a"]));
}

#[test]
fn primary_and_secondary_tags() {
    let tags = strings(&["one", "two"]);
    assert_eq!(primary_tag(&tags), "one");
    assert_eq!(secondary_tag(&tags), "two");
    let single = strings(&["only"]);
    assert_eq!(primary_tag(&single), "only");
    assert_eq!(secondary_tag(&single), "");
    let none: Vec<String> = Vec::new();
    assert_eq!(primary_tag(&none), "");
    assert_eq!(secondary_tag(&none), "");
}

#[test]
fn tags_label_texts() {
    let none: Vec<String> = Vec::new();
    assert_eq!(tags_label(&none), "No tag");
    assert_eq!(tags_label(&strings(&["a"])), "a");
    assert_eq!(tags_label(&strings(&["a", "b"])), "a + b");
    assert_eq!(tags_label(&strings(&["a", "b", "c"])), "a + b + c");
}

#[test]
fn default_pairs_are_three_blanks() {
    let pairs = default_frequency_weight_pairs();
    assert_eq!(pairs.len(), 3);
    for p in pairs {
        assert_eq!(p, FrequencyWeightPair::blank());
        assert_eq!(p.frequency_bits, None);
        assert_eq!(p.weight_bits, None);
    }
}

#[test]
fn default_tags_are_ten_with_spaced_hues() {
    let tags = default_tag_definitions();
    assert_eq!(tags.len(), 10);
    for (i, t) in tags.iter().enumerate() {
        assert_eq!(t.name, format!("tag{}", i + 1));
        assert_eq!(f64::from_bits(t.hue_bits), 15.0 + 35.0 * i as f64);
    }
    assert!(tags.len() <= MAX_TAGS);
}

#[test]
fn new_record_fields() {
    let r = ImageRecord::new("data:image/png;base64,AA==".to_string(), "photo_3.png".to_string(), 1234);
    assert_eq!(r.image_data, "data:image/png;base64,AA==");
    assert_eq!(r.image_path, "photo_3.png");
    assert_eq!(r.source, "photo_3.png");
    assert_eq!(r.source_tag, "");
    assert!(r.tags.is_empty());
    assert_eq!(r.index, 0);
    assert_eq!(r.ib_bits, 0.0f64.to_bits());
    assert_eq!(r.frequency_bits, 0);
    assert_eq!(r.weight_bits, 0);
    assert_eq!(r.freq_weight_pairs, default_frequency_weight_pairs());
    assert_eq!(r.created_at, 1234);
    assert_eq!(r.updated_at, 1234);
    assert_eq!((r.id >> 76) & 0xf, 4);
    assert_eq!((r.id >> 62) & 0x3, 2);
    let other = ImageRecord::new(String::new(), String::new(), 0);
    assert_ne!(r.id, other.id);
}
