use pictagger::models::{default_frequency_weight_pairs, FrequencyWeightPair, ImageRecord, TagDefinition};
use pictagger::storage::{
    current_or_legacy_tags, decode_data_url, encode_data_url, extension_from_mime, mime_from_path,
    plan_cache_export, read_cache_listing, restore_cache_archive, restore_records, restore_tags,
    sanitize_path_part, stored_record_into_image, write_cache_archive, ArchiveEntry, CacheExport,
    CacheImageRecord, StoredImageRecord,
};
use std::io::Read;

fn strings(items: &[&str]) -> Vec<String> {
    items.iter().map(|s| s.to_string()).collect()
}

fn record(id: u128, data: &str, source: &str, source_tag: &str, tags: &[&str]) -> ImageRecord {
    ImageRecord {
        id,
        image_data: data.to_string(),
        image_path: source.to_string(),
        ib_bits: 1.5f64.to_bits(),
        source: source.to_string(),
        source_tag: source_tag.to_string(),
        tags: strings(tags),
        index: 4,
        freq_weight_pairs: vec![FrequencyWeightPair { frequency_bits: Some(3.0f64.to_bits()), weight_bits: None }],
        frequency_bits: 8.0f64.to_bits(),
        weight_bits: 9.0f64.to_bits(),
        created_at: 10,
        updated_at: 20,
    }
}

#[test]
fn sanitize_examples() {
    assert_eq!(sanitize_path_part("My Photos/2024", "x"), "My_Photos_2024");
    assert_eq!(sanitize_path_part("__a-b.c__", "x"), "a-b.c");
    assert_eq!(sanitize_path_part("///", "untagged"), "untagged");
    assert_eq!(sanitize_path_part("", "image"), "image");
    assert_eq!(sanitize_path_part("é", "image"), "image");
}

#[test]
fn extensions_and_types() {
    assert_eq!(extension_from_mime("image/jpeg"), "jpg");
    assert_eq!(extension_from_mime("image/svg+xml"), "svg");
    assert_eq!(extension_from_mime("text/plain"), "img");
    assert_eq!(mime_from_path("a/b.JPEG"), "image/jpeg");
    assert_eq!(mime_from_path("x.tar.png"), "image/png");
    assert_eq!(mime_from_path("noext"), "application/octet-stream");
    assert_eq!(mime_from_path("a.img"), "application/octet-stream");
    for mime in ["image/jpeg", "image/png", "image/gif", "image/webp", "image/bmp", "image/svg+xml"] {
        let path = format!("dir/0001_stem.{}", extension_from_mime(mime));
        assert_eq!(mime_from_path(&path), mime);
    }
}

#[test]
fn data_urls() {
    assert_eq!(encode_data_url("image/png", b"hello"), "data:image/png;base64,aGVsbG8=");
    assert_eq!(
        decode_data_url("data:image/png;base64,aGVsbG8="),
        Some(("image/png".to_string(), b"hello".to_vec()))
    );
    assert_eq!(
        decode_data_url("data:text/plain,hi there"),
        Some(("application/octet-stream".to_string(), b"hi there".to_vec()))
    );
    assert_eq!(
        decode_data_url("data:text/plain;charset=utf8,hi"),
        Some(("text/plain".to_string(), b"hi".to_vec()))
    );
    assert_eq!(decode_data_url("no comma here"), None);
    assert_eq!(decode_data_url("data:image/png;base64,!!!"), None);
    assert_eq!(
        decode_data_url("junk;base64,AAE="),
        Some(("application/octet-stream".to_string(), vec![0u8, 1u8]))
    );
    let bytes: Vec<u8> = (0..=255u8).collect();
    let url = encode_data_url("image/gif", &bytes);
    assert_eq!(decode_data_url(&url), Some(("image/gif".to_string(), bytes)));
}

#[test]
fn legacy_tag_fallback() {
    assert_eq!(current_or_legacy_tags(strings(&[" a "]), "old".to_string()), strings(&["a"]));
    assert_eq!(current_or_legacy_tags(strings(&["  "]), " old ".to_string()), strings(&["old"]));
    assert!(current_or_legacy_tags(Vec::new(), String::new()).is_empty());
}

fn stored(tags: &[&str], tag: &str, pairs: Vec<FrequencyWeightPair>) -> StoredImageRecord {
    StoredImageRecord {
        id: 5,
        image_data: "data".to_string(),
        image_path: "p.png".to_string(),
        ib_bits: 2,
        source: "s".to_string(),
        source_tag: "st".to_string(),
        tags: strings(tags),
        tag: tag.to_string(),
        index: 3,
        freq_weight_pairs: pairs,
        frequency_bits: 6,
        weight_bits: 7,
        created_at: 1,
        updated_at: 2,
    }
}

#[test]
fn stored_records_read_back() {
    let r = stored_record_into_image(stored(&[], "legacy", Vec::new()));
    assert_eq!(r.tags, strings(&["legacy"]));
    assert_eq!(r.freq_weight_pairs, default_frequency_weight_pairs());
    assert_eq!((r.id, r.ib_bits, r.index, r.frequency_bits, r.weight_bits), (5, 2, 3, 6, 7));
    assert_eq!(r.image_data, "data");
    let pair = FrequencyWeightPair { frequency_bits: Some(1), weight_bits: Some(2) };
    let all = restore_records(vec![stored(&["x", "y", "z"], "legacy", vec![pair])]);
    assert_eq!(all.len(), 1);
    assert_eq!(all[0].tags, strings(&["x", "y"]));
    assert_eq!(all[0].freq_weight_pairs, vec![pair]);
}

#[test]
fn stored_tags_or_defaults() {
    let mine = vec![TagDefinition { name: "n".to_string(), hue_bits: 3 }];
    assert_eq!(restore_tags(Some(mine.clone())), mine);
    let defaults = restore_tags(None);
    assert_eq!(defaults.len(), 10);
    assert_eq!(defaults[0].name, "tag1");
}

#[test]
fn listing_into_state() {
    let cache = CacheExport {
        version: 1,
        tags: vec![TagDefinition { name: "t".to_string(), hue_bits: 1 }],
        images: vec![CacheImageRecord {
            id: 9,
            image_path: "dir/a.png".to_string(),
            ib_bits: 4,
            source: "a".to_string(),
            source_tag: "dir".to_string(),
            tags: Vec::new(),
            tag: "t".to_string(),
            index: 2,
            freq_weight_pairs: Vec::new(),
            created_at: 5,
            updated_at: 6,
        }],
    };
    let (images, tags) = cache.into_state();
    assert_eq!(tags.len(), 1);
    assert_eq!(images.len(), 1);
    assert_eq!(images[0].image_data, "dir/a.png");
    assert_eq!(images[0].image_path, "dir/a.png");
    assert_eq!(images[0].tags, strings(&["t"]));
    assert_eq!(images[0].freq_weight_pairs, default_frequency_weight_pairs());
    assert_eq!((images[0].frequency_bits, images[0].weight_bits), (0, 0));
}

#[test]
fn export_plan_paths() {
    let id: u128 = 0x67e55044_10b1_426f_9247_bb680e5fe0c8;
    let images = vec![
        record(id, "data:image/png;base64,aGVsbG8=", "My Shot.png", "Set A", &["x"]),
        record(2, "not a data url", "b.png", "", &[]),
    ];
    let tags = vec![TagDefinition { name: "x".to_string(), hue_bits: 7 }];
    let (cache, entries) = plan_cache_export(&images, &tags);
    assert_eq!(cache.version, 1);
    assert_eq!(cache.tags, tags);
    assert_eq!(cache.images.len(), 2);
    assert_eq!(entries.len(), 1);
    let expected = "Set_A/0000_My_Shot.png_67e55044-10b1-426f-9247-bb680e5fe0c8.png";
    assert_eq!(entries[0].path, expected);
    assert_eq!(entries[0].content, b"hello".to_vec());
    assert_eq!(cache.images[0].image_path, expected);
    assert_eq!(cache.images[1].image_path, "b.png");
    assert_eq!(cache.images[0].tag, "");
}

#[test]
fn archive_round_trip() {
    let images = vec![
        record(11, "data:image/jpeg;base64,/9j/AA==", "one.jpg", "", &["a", " b "]),
        record(12, "data:application/x-thing;base64,AQID", "two", "t", &[]),
        record(13, "plain text", "three.png", "t", &[]),
    ];
    let tags = vec![TagDefinition { name: "a".to_string(), hue_bits: 2 }];
    let (cache, entries) = plan_cache_export(&images, &tags);
    let listing = "version: 1\n";
    let bytes = write_cache_archive(&entries, listing).expect("archive");
    let mut archive = zip::ZipArchive::new(std::io::Cursor::new(bytes.clone())).expect("zip");
    for e in &entries {
        let mut content = Vec::new();
        archive.by_name(&e.path).expect("entry").read_to_end(&mut content).expect("read");
        assert_eq!(content, e.content);
    }
    assert_eq!(read_cache_listing(&bytes), Ok(listing.to_string()));
    let (back, back_tags) = restore_cache_archive(&bytes, cache).expect("restore");
    assert_eq!(back_tags, tags);
    assert_eq!(back.len(), 3);
    assert_eq!(back[0].image_data, "data:image/jpeg;base64,/9j/AA==");
    assert_eq!(back[0].tags, strings(&["a", "b"]));
    assert_eq!(back[0].frequency_bits, 0);
    assert_eq!(back[1].image_data, "data:application/octet-stream;base64,AQID");
    assert!(back[1].image_path.ends_with(".img"));
    assert_eq!(back[2].image_data, "three.png");
    assert_eq!(back[2].image_path, "three.png");
}

#[test]
fn listing_errors() {
    assert!(read_cache_listing(b"not a zip").is_err());
    let entries = vec![ArchiveEntry { path: "a.png".to_string(), content: vec![1] }];
    let bytes = write_cache_archive(&entries, "x").expect("archive");
    let cache = CacheExport { version: 1, tags: Vec::new(), images: Vec::new() };
    assert!(restore_cache_archive(b"garbage", cache).is_err());
    let dup = vec![
        ArchiveEntry { path: "a".to_string(), content: vec![] },
        ArchiveEntry { path: "a".to_string(), content: vec![] },
    ];
    assert!(write_cache_archive(&dup, "x").is_err());
    assert_eq!(read_cache_listing(&bytes), Ok("x".to_string()));
}

#[test]
fn exported_paths_are_distinct() {
    let mut images = Vec::new();
    for i in 0..30u128 {
        images.push(record(i % 3, "data:image/png;base64,AA==", "same", "same", &[]));
    }
    let (_, entries) = plan_cache_export(&images, &[]);
    assert_eq!(entries.len(), 30);
    for (a, x) in entries.iter().enumerate() {
        assert_ne!(x.path, "cache.yaml");
        for y in entries.iter().skip(a + 1) {
            assert_ne!(x.path, y.path);
        }
    }
    assert!(write_cache_archive(&entries, "").is_ok());
}

#[test]
fn restore_twice_changes_nothing() {
    let first = stored_record_into_image(stored(&[" z ", "z", "y", "x"], "legacy", Vec::new()));
    let again = StoredImageRecord {
        id: first.id,
        image_data: first.image_data.clone(),
        image_path: first.image_path.clone(),
        ib_bits: first.ib_bits,
        source: first.source.clone(),
        source_tag: first.source_tag.clone(),
        tags: first.tags.clone(),
        tag: String::new(),
        index: first.index,
        freq_weight_pairs: first.freq_weight_pairs.clone(),
        frequency_bits: first.frequency_bits,
        weight_bits: first.weight_bits,
        created_at: first.created_at,
        updated_at: first.updated_at,
    };
    assert_eq!(stored_record_into_image(again), first);
    assert_eq!(first.tags, strings(&["z", "y"]));
}

#[test]
fn archive_refuses_listing_name_for_an_image() {
    let clash = vec![ArchiveEntry { path: "cache.yaml".to_string(), content: vec![1] }];
    assert!(write_cache_archive(&clash, "x").is_err());
    let empty: Vec<ArchiveEntry> = Vec::new();
    let bytes = write_cache_archive(&empty, "").expect("archive");
    assert_eq!(read_cache_listing(&bytes), Ok(String::new()));
}

#[test]
fn archive_holds_exactly_the_planned_files() {
    let images = vec![
        record(0, "data:image/png;base64,AAEC", "img 1.png", "exp a", &["t1"]),
        record(1, "not a data url", "b.png", "", &[]),
    ];
    let (cache, entries) = plan_cache_export(&images, &[]);
    assert_eq!(entries.len(), 1);
    assert_eq!(entries[0].path, "exp_a/0000_img_1.png_00000000-0000-0000-0000-000000000000.png");
    assert_eq!(entries[0].content, vec![0u8, 1, 2]);
    assert_eq!(cache.images[0].image_path, entries[0].path);
    assert_eq!(cache.images[1].image_path, "b.png");
    let bytes = write_cache_archive(&entries, "listing").expect("archive");
    let archive = zip::ZipArchive::new(std::io::Cursor::new(bytes)).expect("zip");
    let mut names: Vec<String> = archive.file_names().map(|n| n.to_string()).collect();
    names.sort();
    let mut expected = vec![entries[0].path.clone(), "cache.yaml".to_string()];
    expected.sort();
    assert_eq!(names, expected);
}

#[test]
fn missing_image_file_keeps_its_path() {
    let entries = vec![ArchiveEntry { path: "a.png".to_string(), content: vec![7] }];
    let bytes = write_cache_archive(&entries, "x").expect("archive");
    let listed = |path: &str| CacheImageRecord {
        id: 1,
        image_path: path.to_string(),
        ib_bits: 0,
        source: String::new(),
        source_tag: String::new(),
        tags: Vec::new(),
        tag: String::new(),
        index: 0,
        freq_weight_pairs: Vec::new(),
        created_at: 0,
        updated_at: 0,
    };
    let cache = CacheExport { version: 1, tags: Vec::new(), images: vec![listed("gone.png"), listed("a.png")] };
    let (back, _) = restore_cache_archive(&bytes, cache).expect("restore");
    assert_eq!(back[0].image_data, "gone.png");
    assert_eq!(back[1].image_data, "data:image/png;base64,Bw==");
}

#[test]
fn canonical_data_url_survives_export_and_import() {
    let data = "data:image/gif;base64,R0lGODlhAQABAAAAACw=";
    let images = vec![record(5, data, "g.gif", "s", &["a"])];
    let (cache, entries) = plan_cache_export(&images, &[]);
    let bytes = write_cache_archive(&entries, "").expect("archive");
    let (back, _) = restore_cache_archive(&bytes, cache).expect("restore");
    assert_eq!(back[0].image_data, data);
    assert!(decode_data_url("data:image/png;base64,AB==").is_none());
}

#[test]
fn sanitising_twice_and_upper_case_extensions() {
    for raw in ["__a b__", "", "///", "ok.name", "é-x"] {
        let once = sanitize_path_part(raw, "untagged");
        assert_eq!(sanitize_path_part(&once, "untagged"), once);
    }
    assert_eq!(mime_from_path("x/y.PNG"), "image/png");
    assert_eq!(mime_from_path("x/y.JpG"), "image/jpeg");
    assert_eq!(mime_from_path("x/y.SVG"), "image/svg+xml");
}

#[test]
fn saved_normal_record_reads_back_unchanged() {
    let original = record(9, "d", "s", "st", &["a", "b"]);
    let saved = StoredImageRecord {
        id: original.id,
        image_data: original.image_data.clone(),
        image_path: original.image_path.clone(),
        ib_bits: original.ib_bits,
        source: original.source.clone(),
        source_tag: original.source_tag.clone(),
        tags: original.tags.clone(),
        tag: String::new(),
        index: original.index,
        freq_weight_pairs: original.freq_weight_pairs.clone(),
        frequency_bits: original.frequency_bits,
        weight_bits: original.weight_bits,
        created_at: original.created_at,
        updated_at: original.updated_at,
    };
    assert_eq!(stored_record_into_image(saved), original);
}
