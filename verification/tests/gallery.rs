use pictagger::gallery::{
    active_pair_count, add_tag_definition, all_tags_filter, color_tag, find_record_index,
    linear_axis, lookup_color, plot_point_sources, remove_record, remove_tag_definition,
    set_tag_hue, tag_disk_style, tag_filter_matches, tags_or_defaults, update_record_field,
};
use pictagger::models::{FrequencyWeightPair, ImageRecord, TagDefinition, MAX_TAGS};

fn strings(items: &[&str]) -> Vec<String> {
    items.iter().map(|s| s.to_string()).collect()
}

fn record(id: u128, tags: &[&str], pairs: Vec<FrequencyWeightPair>) -> ImageRecord {
    let mut r = ImageRecord::new(String::new(), format!("img{id}"), 0);
    r.id = id;
    r.tags = strings(tags);
    r.freq_weight_pairs = pairs;
    r
}

fn pair(f: Option<u64>) -> FrequencyWeightPair {
    FrequencyWeightPair { frequency_bits: f, weight_bits: None }
}

#[test]
fn adding_tags() {
    let mut tags: Vec<TagDefinition> = Vec::new();
    assert!(add_tag_definition(&mut tags, "  red ", 1));
    assert_eq!(tags[0].name, "red");
    assert!(!add_tag_definition(&mut tags, "red", 2));
    assert!(!add_tag_definition(&mut tags, "   ", 2));
    assert_eq!(tags.len(), 1);
    for i in 1..MAX_TAGS {
        assert!(add_tag_definition(&mut tags, &format!("t{i}"), 0));
    }
    assert_eq!(tags.len(), MAX_TAGS);
    assert!(!add_tag_definition(&mut tags, "extra", 0));
    assert_eq!(tags.len(), MAX_TAGS);
}

#[test]
fn editing_and_removing_tags() {
    let mut tags = vec![
        TagDefinition { name: "a".to_string(), hue_bits: 1 },
        TagDefinition { name: "b".to_string(), hue_bits: 2 },
        TagDefinition { name: "a".to_string(), hue_bits: 3 },
    ];
    set_tag_hue(&mut tags, "a", 9);
    assert_eq!(tags.iter().map(|t| t.hue_bits).collect::<Vec<_>>(), vec![9, 2, 3]);
    set_tag_hue(&mut tags, "zzz", 5);
    assert_eq!(tags.iter().map(|t| t.hue_bits).collect::<Vec<_>>(), vec![9, 2, 3]);
    remove_tag_definition(&mut tags, "a");
    assert_eq!(tags.len(), 1);
    assert_eq!(tags[0].name, "b");
}

#[test]
fn import_tags_or_defaults() {
    assert_eq!(tags_or_defaults(Vec::new()).len(), 10);
    let one = vec![TagDefinition { name: "q".to_string(), hue_bits: 0 }];
    assert_eq!(tags_or_defaults(one.clone()), one);
}

#[test]
fn removing_and_finding_records() {
    let mut list = vec![record(1, &[], vec![]), record(2, &[], vec![]), record(1, &[], vec![])];
    assert_eq!(find_record_index(&list, 2), Some(1));
    assert_eq!(find_record_index(&list, 7), None);
    remove_record(&mut list, 1);
    assert_eq!(list.len(), 1);
    assert_eq!(list[0].id, 2);
}

#[test]
fn counting_active_pairs() {
    let pairs = vec![pair(Some(1)), pair(None), pair(Some(2))];
    assert_eq!(active_pair_count(&pairs), 2);
    assert_eq!(active_pair_count(&[]), 0);
}

#[test]
fn tag_filters() {
    assert_eq!(all_tags_filter(), "__all__");
    assert_eq!(linear_axis(), "linear");
    let tags = strings(&["a", "b"]);
    let none: Vec<String> = Vec::new();
    assert!(tag_filter_matches(&tags, "__all__"));
    assert!(tag_filter_matches(&none, "__untagged__"));
    assert!(!tag_filter_matches(&tags, "__untagged__"));
    assert!(tag_filter_matches(&tags, "b"));
    assert!(!tag_filter_matches(&tags, "c"));
    assert_eq!(color_tag(&tags, "__all__"), "a");
    assert_eq!(color_tag(&none, "__untagged__"), "");
    assert_eq!(color_tag(&tags, "b"), "b");
}

#[test]
fn plot_points_follow_filter_and_frequencies() {
    let images = vec![
        record(1, &["a"], vec![pair(Some(1)), pair(None), pair(Some(3))]),
        record(2, &["b"], vec![pair(Some(1))]),
        record(3, &[], vec![pair(Some(5))]),
    ];
    assert_eq!(plot_point_sources(&images, "__all__"), vec![(0, 0), (0, 2), (1, 0), (2, 0)]);
    assert_eq!(plot_point_sources(&images, "__untagged__"), vec![(2, 0)]);
    assert_eq!(plot_point_sources(&images, "b"), vec![(1, 0)]);
    assert!(plot_point_sources(&images, "zzz").is_empty());
}

#[test]
fn disk_styles() {
    let colors = vec![
        ("a".to_string(), "#111".to_string()),
        ("b".to_string(), "#222".to_string()),
        ("a".to_string(), "#333".to_string()),
    ];
    assert_eq!(lookup_color(&colors, "a"), Some("#333".to_string()));
    assert_eq!(lookup_color(&colors, "z"), None);
    assert_eq!(tag_disk_style(&[], &colors), "background: transparent;");
    assert_eq!(tag_disk_style(&strings(&["b"]), &colors), "background:#222;");
    assert_eq!(tag_disk_style(&strings(&["z"]), &colors), "background:transparent;");
    assert_eq!(
        tag_disk_style(&strings(&["a", "b"]), &colors),
        "background: linear-gradient(90deg, #333 0 50%, #222 50% 100%);"
    );
}

#[test]
fn field_updates() {
    let mut r = record(1, &[], vec![]);
    assert!(update_record_field(&mut r, "add_pair", String::new(), 5));
    assert_eq!(r.freq_weight_pairs.len(), 1);
    assert_eq!(r.updated_at, 5);
    assert!(update_record_field(&mut r, "source", "new".to_string(), 6));
    assert_eq!(r.source, "new");
    assert!(!update_record_field(&mut r, "source", "new".to_string(), 7));
    assert_eq!(r.updated_at, 6);
    assert!(update_record_field(&mut r, "index", "12".to_string(), 8));
    assert_eq!(r.index, 12);
    assert!(!update_record_field(&mut r, "index", "x".to_string(), 9));
    assert!(!update_record_field(&mut r, "index", "12".to_string(), 9));
    assert!(update_record_field(&mut r, "clear_pairs", String::new(), 10));
    assert_eq!(r.freq_weight_pairs.len(), 3);
    assert!(update_record_field(&mut r, "source_tag", "st".to_string(), 11));
    assert!(!update_record_field(&mut r, "unknown", "v".to_string(), 12));
    assert_eq!(r.updated_at, 11);
}

#[test]
fn tag_selectors_set_normalised_pair() {
    let mut r = record(1, &["a", "t"], vec![]);
    assert!(update_record_field(&mut r, "tag_primary", String::new(), 5));
    assert_eq!(r.tags, strings(&["t"]));
    assert_eq!(r.updated_at, 5);

    let mut r = record(2, &["a"], vec![]);
    assert!(update_record_field(&mut r, "tag_primary", "b".to_string(), 6));
    assert_eq!(r.tags, strings(&["b"]));
    assert_eq!(r.updated_at, 6);

    let mut r = record(3, &["a"], vec![]);
    assert!(update_record_field(&mut r, "tag_secondary", "b".to_string(), 7));
    assert_eq!(r.tags, strings(&["a", "b"]));
    assert!(update_record_field(&mut r, "tag_secondary", String::new(), 8));
    assert_eq!(r.tags, strings(&["a"]));
    assert_eq!(r.updated_at, 8);
}

#[test]
fn tag_selectors_without_change() {
    let mut r = record(4, &["a"], vec![]);
    let before = r.updated_at;
    assert!(!update_record_field(&mut r, "tag_secondary", "a".to_string(), 9));
    assert!(!update_record_field(&mut r, "tag_primary", "a".to_string(), 9));
    assert_eq!(r.tags, strings(&["a"]));
    assert_eq!(r.updated_at, before);

    let mut r = record(5, &[], vec![]);
    assert!(!update_record_field(&mut r, "tag_primary", "  ".to_string(), 9));
    assert!(r.tags.is_empty());
    assert!(update_record_field(&mut r, "tag_secondary", " x ".to_string(), 10));
    assert_eq!(r.tags, strings(&["x"]));
}
