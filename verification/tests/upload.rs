use pictagger::upload::{extract_first_number, infer_unique_indexes, new_upload_record, parse_i32};

fn strings(items: &[&str]) -> Vec<String> {
    items.iter().map(|s| s.to_string()).collect()
}

#[test]
fn first_number_in_names() {
    assert_eq!(extract_first_number("IMG_0042_v3.png"), Some(42));
    assert_eq!(extract_first_number("scan.png"), None);
    assert_eq!(extract_first_number("7"), Some(7));
    assert_eq!(extract_first_number("a12b34"), Some(12));
    assert_eq!(extract_first_number("x2147483647"), Some(2147483647));
    assert_eq!(extract_first_number("x2147483648"), None);
    assert_eq!(extract_first_number("n99999999999999999999"), None);
    assert_eq!(extract_first_number("-5"), Some(5));
}

#[test]
fn unique_indexes_only() {
    let names = strings(&["a1.png", "b2.png", "c2.png", "none.png", "d3.png"]);
    assert_eq!(infer_unique_indexes(&names), vec![Some(1), None, None, None, Some(3)]);
}

#[test]
fn unique_indexes_empty_batch() {
    let names: Vec<String> = Vec::new();
    assert!(infer_unique_indexes(&names).is_empty());
}

#[test]
fn parse_i32_like_std() {
    for text in ["0", "42", "-42", "+7", "", "-", "+", "1a", " 1", "2147483647", "2147483648",
        "-2147483648", "-2147483649", "0007", "--1", "99999999999999999999"] {
        assert_eq!(parse_i32(text), text.parse::<i32>().ok(), "{text}");
    }
}

#[test]
fn upload_record_takes_batch_settings() {
    let r = new_upload_record(
        "data:,x".to_string(),
        "f.png".to_string(),
        "batch".to_string(),
        Some(2.5f64.to_bits()),
        Some(9),
        77,
    );
    assert_eq!(r.source, "f.png");
    assert_eq!(r.image_path, "f.png");
    assert_eq!(r.source_tag, "batch");
    assert_eq!(f64::from_bits(r.ib_bits), 2.5);
    assert_eq!(r.index, 9);
    assert_eq!(r.created_at, 77);
    let plain = new_upload_record("d".to_string(), "g.png".to_string(), String::new(), None, None, 1);
    assert_eq!(plain.ib_bits, 0);
    assert_eq!(plain.index, 0);
}

#[test]
fn upload_ids_are_version_four() {
    for _ in 0..8 {
        let r = new_upload_record("d".to_string(), "f.png".to_string(), String::new(), None, None, 1);
        assert_eq!((r.id >> 76) & 0xf, 4);
        assert_eq!((r.id >> 62) & 0x3, 2);
        assert_ne!(r.id, 0);
    }
}
