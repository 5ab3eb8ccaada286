//! Saving, exporting and importing the gallery: the records as they are
//! stored and archived, and the rules that turn them back into gallery
//! records.

use vstd::prelude::*;
use vstd::string::*;
use vstd::slice::slice_to_vec;
use vstd::utf8::{decode_utf8, encode_utf8, is_ascii_chars, valid_utf8};
use crate::models::{
    default_frequency_weight_pairs, default_pairs, default_tag_definitions, default_tags,
    clone_tag_definitions, clone_tags, copy_pairs, lemma_normalize_idempotent, normalize_image_tags,
    normalized_tags, is_normal_tag_list, lemma_normal_list_fixed, lemma_normalized_is_normal,
    record_views, tag_views, FrequencyWeightPair, ImageRecord, RecordView,
    TagDefinition,
};
use crate::bindings::{
    base64_decode, base64_decoded, base64_encode, base64_text, io_error_text, lemma_base64_alphabet,
    uuid_string, uuid_text, zip_entry, zip_error_text, zip_finish, zip_start_file, zip_write_all,
    zip_open, zip_read_file, zip_size_limit, zip_source, zip_stored_size, zip_unfailed,
    zip_writer_new, zip_written, written_names, zip_opens, zip_has_file,
};
use crate::upload::{digits_value, lemma_leading_digits_take, lemma_zero_padded_digits, leading_digits};
use crate::text::{
    after_last, ascii_alnum, ascii_lower, ascii_lowercase, chars_of, find_char, first_index, is_ascii_alnum,
    is_ascii_digit, strip_end, strip_start,
    lemma_first_index_at, lemma_first_index_bounds, push_char, push_zero_padded, same_text, string_from_range, strip_both,
    strip_char, to_ascii_lower, trim, trim_end, trim_start, utf8_string, zero_padded,
};

verus! {

/// The character that a path part keeps for `c`: ASCII letters, digits,
/// `.`, `-` and `_` stay, every other character becomes `_`.
pub open spec fn path_char(c: char) -> char {
    if is_ascii_alnum(c) || c == '.' || c == '-' || c == '_' {
        c
    } else {
        '_'
    }
}

/// `raw` made safe as a part of an archive path: each character mapped by
/// `path_char`, then `_` stripped from both ends; `fallback` when nothing
/// is left.
pub open spec fn sanitized_part(raw: Seq<char>, fallback: Seq<char>) -> Seq<char> {
    let cleaned = strip_both(raw.map_values(|c: char| path_char(c)), '_');
    if cleaned.len() == 0 {
        fallback
    } else {
        cleaned
    }
}

/// Makes `raw` safe as a part of an archive path; see `sanitized_part`.
pub fn sanitize_path_part(raw: &str, fallback: &str) -> (r: String)
    ensures
        r@ == sanitized_part(raw@, fallback@),
{
    let chars = chars_of(raw);
    let mut mapped: Vec<char> = Vec::new();
    let n = chars.len();
    let mut i: usize = 0;
    while i < n
        invariant
            i <= n == chars@.len(),
            chars@ == raw@,
            mapped@ == chars@.take(i as int).map_values(|c: char| path_char(c)),
        decreases n - i,
    {
        let ch = chars[i];
        let kept = if ascii_alnum(ch) || ch == '.' || ch == '-' || ch == '_' {
            ch
        } else {
            '_'
        };
        mapped.push(kept);
        i += 1;
        assert(mapped@ =~= chars@.take(i as int).map_values(|c: char| path_char(c)));
    }
    assert(chars@.take(n as int) =~= chars@);
    let cleaned = strip_char(&mapped, '_');
    if cleaned.as_str().is_empty() {
        String::from_str(fallback)
    } else {
        cleaned
    }
}

/// The file extension that an archive gives an image of type `mime`.
pub open spec fn extension_for_mime(mime: Seq<char>) -> Seq<char> {
    if mime == "image/jpeg"@ {
        "jpg"@
    } else if mime == "image/png"@ {
        "png"@
    } else if mime == "image/gif"@ {
        "gif"@
    } else if mime == "image/webp"@ {
        "webp"@
    } else if mime == "image/bmp"@ {
        "bmp"@
    } else if mime == "image/svg+xml"@ {
        "svg"@
    } else {
        "img"@
    }
}

/// The file extension for an image of type `mime`; `img` for a type it
/// does not know.
pub fn extension_from_mime(mime: &str) -> (r: &'static str)
    ensures
        r@ == extension_for_mime(mime@),
{
    if same_text(mime, "image/jpeg") {
        "jpg"
    } else if same_text(mime, "image/png") {
        "png"
    } else if same_text(mime, "image/gif") {
        "gif"
    } else if same_text(mime, "image/webp") {
        "webp"
    } else if same_text(mime, "image/bmp") {
        "bmp"
    } else if same_text(mime, "image/svg+xml") {
        "svg"
    } else {
        "img"
    }
}

/// The type of an image by the extension of its path: the part after the
/// last `.`, in ASCII lower case.
pub open spec fn mime_for_path(path: Seq<char>) -> Seq<char> {
    let ext = ascii_lowercase(after_last(path, '.'));
    if ext == "jpg"@ || ext == "jpeg"@ {
        "image/jpeg"@
    } else if ext == "png"@ {
        "image/png"@
    } else if ext == "gif"@ {
        "image/gif"@
    } else if ext == "webp"@ {
        "image/webp"@
    } else if ext == "bmp"@ {
        "image/bmp"@
    } else if ext == "svg"@ {
        "image/svg+xml"@
    } else {
        "application/octet-stream"@
    }
}

proof fn lemma_after_last_at(s: Seq<char>, c: char, k: int)
    requires
        -1 <= k < s.len(),
        k >= 0 ==> s[k] == c,
        forall|j: int| k < j < s.len() ==> s[j] != c,
    ensures
        after_last(s, c) == s.skip(k + 1),
    decreases s.len(),
{
    if s.len() == 0 {
    } else if s.last() == c {
        assert(k == s.len() - 1);
        assert(s.skip(k + 1) =~= Seq::<char>::empty());
    } else {
        lemma_after_last_at(s.drop_last(), c, k);
        assert(s.drop_last().skip(k + 1).push(s.last()) =~= s.skip(k + 1));
    }
}

/// The type of an image by the extension of its path; see `mime_for_path`.
pub fn mime_from_path(path: &str) -> (r: &'static str)
    ensures
        r@ == mime_for_path(path@),
{
    let chars = chars_of(path);
    let n = chars.len();
    let mut k: usize = n;
    while k > 0 && chars[k - 1] != '.'
        invariant
            k <= n == chars@.len(),
            forall|j: int| k <= j < n ==> chars@[j] != '.',
        decreases k,
    {
        k -= 1;
    }
    proof {
        lemma_after_last_at(chars@, '.', k - 1);
    }
    let mut ext = String::new();
    let mut i = k;
    while i < n
        invariant
            k <= i <= n == chars@.len(),
            ext@ == ascii_lowercase(chars@.subrange(k as int, i as int)),
        decreases n - i,
    {
        push_char(&mut ext, to_ascii_lower(chars[i]));
        i += 1;
        assert(ext@ =~= ascii_lowercase(chars@.subrange(k as int, i as int)));
    }
    assert(chars@.subrange(k as int, n as int) =~= chars@.skip(k as int));
    let e = ext.as_str();
    if same_text(e, "jpg") || same_text(e, "jpeg") {
        "image/jpeg"
    } else if same_text(e, "png") {
        "image/png"
    } else if same_text(e, "gif") {
        "image/gif"
    } else if same_text(e, "webp") {
        "image/webp"
    } else if same_text(e, "bmp") {
        "image/bmp"
    } else if same_text(e, "svg") {
        "image/svg+xml"
    } else {
        "application/octet-stream"
    }
}

} // verus!

verus! {

/// The image types that have an extension of their own.
pub open spec fn is_known_image_mime(mime: Seq<char>) -> bool {
    ||| mime == "image/jpeg"@
    ||| mime == "image/png"@
    ||| mime == "image/gif"@
    ||| mime == "image/webp"@
    ||| mime == "image/bmp"@
    ||| mime == "image/svg+xml"@
}

proof fn lemma_plain_extension(ext: Seq<char>)
    requires
        forall|i: int| 0 <= i < ext.len() ==> 0x61 <= (#[trigger] ext[i] as u32) <= 0x7A,
    ensures
        ascii_lowercase(ext) == ext,
        forall|i: int| 0 <= i < ext.len() ==> #[trigger] ext[i] != '.',
{
    assert(ascii_lowercase(ext) =~= ext);
}

/// An image of a known type keeps its type through the name an archive
/// gives it: whatever the stem, `stem.ext` with the extension of the type
/// reads back as that type. Any other type reads back as
/// `application/octet-stream`.
pub proof fn lemma_extension_round_trip(stem: Seq<char>, mime: Seq<char>)
    ensures
        mime_for_path(stem + seq!['.'] + extension_for_mime(mime)) == (if is_known_image_mime(
            mime,
        ) {
            mime
        } else {
            "application/octet-stream"@
        }),
{
    reveal_strlit("jpg");
    reveal_strlit("jpeg");
    reveal_strlit("png");
    reveal_strlit("gif");
    reveal_strlit("webp");
    reveal_strlit("bmp");
    reveal_strlit("svg");
    reveal_strlit("img");
    let ext = extension_for_mime(mime);
    lemma_plain_extension(ext);
    let p = stem + seq!['.'] + ext;
    lemma_after_last_at(p, '.', stem.len() as int);
    assert(p.skip(stem.len() + 1int) =~= ext);
    assert(after_last(p, '.') == ext);
    let l = ascii_lowercase(after_last(p, '.'));
    assert(l == ext);
    assert("jpg"@[0] == 'j' && "jpeg"@[0] == 'j' && "png"@[0] == 'p' && "gif"@[0] == 'g');
    assert("webp"@[0] == 'w' && "bmp"@[0] == 'b' && "svg"@[0] == 's' && "img"@[0] == 'i');
}

/// The extension is read without regard to ASCII case: `stem.EXT`, where
/// `EXT` lower-cases to the extension of the type (`PNG`, `Jpg`, ...),
/// reads back as the type just as `stem.ext` does.
pub proof fn lemma_extension_any_case(stem: Seq<char>, ext: Seq<char>, mime: Seq<char>)
    requires
        ascii_lowercase(ext) == extension_for_mime(mime),
    ensures
        mime_for_path(stem + seq!['.'] + ext) == (if is_known_image_mime(mime) {
            mime
        } else {
            "application/octet-stream"@
        }),
{
    reveal_strlit("jpg");
    reveal_strlit("png");
    reveal_strlit("gif");
    reveal_strlit("webp");
    reveal_strlit("bmp");
    reveal_strlit("svg");
    reveal_strlit("img");
    let lower = extension_for_mime(mime);
    lemma_plain_extension(lower);
    assert forall|i: int| 0 <= i < ext.len() implies #[trigger] ext[i] != '.' by {
        assert(ascii_lowercase(ext)[i] == ascii_lower(ext[i]));
        assert(lower[i] != '.');
    }
    let p = stem + seq!['.'] + ext;
    lemma_after_last_at(p, '.', stem.len() as int);
    assert(p.skip(stem.len() + 1int) =~= ext);
    let q = stem + seq!['.'] + lower;
    lemma_after_last_at(q, '.', stem.len() as int);
    assert(q.skip(stem.len() + 1int) =~= lower);
    assert(ascii_lowercase(after_last(p, '.')) == ascii_lowercase(after_last(q, '.')));
    lemma_extension_round_trip(stem, mime);
}

} // verus!

verus! {

/// An image record as the browser's local storage holds it. Records saved
/// by older versions carry a single tag in `tag`.
#[derive(Clone, Debug, PartialEq)]
pub struct StoredImageRecord {
    pub id: u128,
    pub image_data: String,
    pub image_path: String,
    pub ib_bits: u64,
    pub source: String,
    pub source_tag: String,
    pub tags: Vec<String>,
    pub tag: String,
    pub index: i32,
    pub freq_weight_pairs: Vec<FrequencyWeightPair>,
    pub frequency_bits: u64,
    pub weight_bits: u64,
    pub created_at: i64,
    pub updated_at: i64,
}

/// An image record as a cache archive lists it: no image data, only the
/// path of the image inside the archive.
#[derive(Clone, Debug, PartialEq)]
pub struct CacheImageRecord {
    pub id: u128,
    pub image_path: String,
    pub ib_bits: u64,
    pub source: String,
    pub source_tag: String,
    pub tags: Vec<String>,
    pub tag: String,
    pub index: i32,
    pub freq_weight_pairs: Vec<FrequencyWeightPair>,
    pub created_at: i64,
    pub updated_at: i64,
}

/// The listing of a cache archive: its format version, the tag
/// definitions and the image records.
#[derive(Clone, Debug, PartialEq)]
pub struct CacheExport {
    pub version: u32,
    pub tags: Vec<TagDefinition>,
    pub images: Vec<CacheImageRecord>,
}

/// The tags of a restored record: its own tags normalised, or, when none
/// remain, its legacy single tag normalised.
pub open spec fn current_or_legacy(tags: Seq<Seq<char>>, legacy: Seq<char>) -> Seq<Seq<char>> {
    if normalized_tags(tags).len() == 0 {
        normalized_tags(seq![legacy])
    } else {
        normalized_tags(tags)
    }
}

/// The pairs of a restored record: its own, or three blank ones when it
/// has none.
pub open spec fn pairs_or_default(pairs: Seq<FrequencyWeightPair>) -> Seq<FrequencyWeightPair> {
    if pairs.len() == 0 {
        default_pairs()
    } else {
        pairs
    }
}

/// A restored record's tags are its own tags normalised when any remain;
/// when none do, they are its legacy tag trimmed, or none when that is
/// blank too.
pub proof fn lemma_legacy_tag_fallback(tags: Seq<Seq<char>>, legacy: Seq<char>)
    ensures
        normalized_tags(tags).len() > 0 ==> current_or_legacy(tags, legacy) == normalized_tags(tags),
        normalized_tags(tags).len() == 0 && trim(legacy).len() > 0 ==> current_or_legacy(tags, legacy)
            == seq![trim(legacy)],
        normalized_tags(tags).len() == 0 && trim(legacy).len() == 0 ==> current_or_legacy(tags, legacy).len()
            == 0,
{
    let s = seq![legacy];
    assert(s.drop_last() =~= Seq::<Seq<char>>::empty());
    assert(s.last() == legacy);
    assert(normalized_tags(s.drop_last()) == Seq::<Seq<char>>::empty());
    assert(Seq::<Seq<char>>::empty().push(trim(legacy)) =~= seq![trim(legacy)]);
}

/// Normalises `tags`; when no tag remains, normalises the legacy tag
/// instead.
pub fn current_or_legacy_tags(tags: Vec<String>, legacy_tag: String) -> (r: Vec<String>)
    ensures
        r.deep_view() == current_or_legacy(tags.deep_view(), legacy_tag@),
{
    let normalized = normalize_image_tags(tags);
    if normalized.len() == 0 {
        let single = vec![legacy_tag];
        let r = normalize_image_tags(single);
        assert(single.deep_view() =~= seq![legacy_tag@]);
        r
    } else {
        normalized
    }
}

fn pairs_or_blank(pairs: Vec<FrequencyWeightPair>) -> (r: Vec<FrequencyWeightPair>)
    ensures
        r@ == pairs_or_default(pairs@),
{
    if pairs.len() == 0 {
        default_frequency_weight_pairs()
    } else {
        pairs
    }
}

/// The gallery record that a stored record is read back as.
pub open spec fn restored_record(s: StoredImageRecord) -> RecordView {
    RecordView {
        id: s.id,
        image_data: s.image_data@,
        image_path: s.image_path@,
        ib_bits: s.ib_bits,
        source: s.source@,
        source_tag: s.source_tag@,
        tags: current_or_legacy(s.tags.deep_view(), s.tag@),
        index: s.index,
        freq_weight_pairs: pairs_or_default(s.freq_weight_pairs@),
        frequency_bits: s.frequency_bits,
        weight_bits: s.weight_bits,
        created_at: s.created_at,
        updated_at: s.updated_at,
    }
}

/// Reads a stored record back: every field as stored, but the tags
/// normalised (falling back on the legacy tag) and blank pairs when there
/// were none.
pub fn stored_record_into_image(record: StoredImageRecord) -> (r: ImageRecord)
    ensures
        r@ == restored_record(record),
{
    let tags = current_or_legacy_tags(record.tags, record.tag);
    let pairs = pairs_or_blank(record.freq_weight_pairs);
    ImageRecord {
        id: record.id,
        image_data: record.image_data,
        image_path: record.image_path,
        ib_bits: record.ib_bits,
        source: record.source,
        source_tag: record.source_tag,
        tags,
        index: record.index,
        freq_weight_pairs: pairs,
        frequency_bits: record.frequency_bits,
        weight_bits: record.weight_bits,
        created_at: record.created_at,
        updated_at: record.updated_at,
    }
}

/// The gallery records that the browser's storage gives back for the
/// stored ones, in order.
pub fn restore_records(stored: Vec<StoredImageRecord>) -> (r: Vec<ImageRecord>)
    ensures
        r@.len() == stored@.len(),
        forall|i: int| 0 <= i < stored@.len() ==> #[trigger] r@[i]@ == restored_record(stored@[i]),
{
    let mut r: Vec<ImageRecord> = Vec::new();
    for record in it: stored.into_iter()
        invariant
            it.seq() == stored@,
            r@.len() == it.index(),
            forall|i: int| 0 <= i < r@.len() ==> #[trigger] r@[i]@ == restored_record(stored@[i]),
    {
        r.push(stored_record_into_image(record));
    }
    r
}

/// The tag definitions that the browser's storage gives back: those it
/// held, or the ten default ones when it held none that could be read.
pub fn restore_tags(stored: Option<Vec<TagDefinition>>) -> (r: Vec<TagDefinition>)
    ensures
        stored matches Some(t) ==> r@ == t@,
        stored is None ==> tag_views(r@) == default_tags(),
{
    match stored {
        Some(t) => t,
        None => default_tag_definitions(),
    }
}

/// The gallery record that a cache listing entry is read back as when no
/// image is taken from an archive: the image data is the path itself, the
/// frequency and weight are zero.
pub open spec fn listed_record(c: CacheImageRecord) -> RecordView {
    RecordView {
        id: c.id,
        image_data: c.image_path@,
        image_path: c.image_path@,
        ib_bits: c.ib_bits,
        source: c.source@,
        source_tag: c.source_tag@,
        tags: current_or_legacy(c.tags.deep_view(), c.tag@),
        index: c.index,
        freq_weight_pairs: pairs_or_default(c.freq_weight_pairs@),
        frequency_bits: 0,
        weight_bits: 0,
        created_at: c.created_at,
        updated_at: c.updated_at,
    }
}

/// A record read from a cache listing keeps the listed id, path, IB,
/// source, source tag, index and timestamps; its image data is its path,
/// its tags are in normal form (the listed ones when they already are and
/// there are some), it has pairs (the listed ones when there are some),
/// and its frequency and weight are 0.
pub proof fn lemma_listed_record_fields(c: CacheImageRecord)
    ensures
        ({
            let g = listed_record(c);
            &&& g.id == c.id
            &&& g.image_data == c.image_path@
            &&& g.image_path == c.image_path@
            &&& g.ib_bits == c.ib_bits
            &&& g.source == c.source@
            &&& g.source_tag == c.source_tag@
            &&& is_normal_tag_list(g.tags)
            &&& (is_normal_tag_list(c.tags.deep_view()) && c.tags@.len() > 0 ==> g.tags == c.tags.deep_view())
            &&& g.index == c.index
            &&& g.freq_weight_pairs.len() > 0
            &&& (c.freq_weight_pairs@.len() > 0 ==> g.freq_weight_pairs == c.freq_weight_pairs@)
            &&& g.frequency_bits == 0
            &&& g.weight_bits == 0
            &&& g.created_at == c.created_at
            &&& g.updated_at == c.updated_at
        }),
{
    lemma_record_tags_and_pairs(c.tags.deep_view(), c.tag@, c.freq_weight_pairs@);
}

proof fn lemma_record_tags_and_pairs(tags: Seq<Seq<char>>, legacy: Seq<char>, pairs: Seq<FrequencyWeightPair>)
    ensures
        is_normal_tag_list(current_or_legacy(tags, legacy)),
        is_normal_tag_list(tags) && tags.len() > 0 ==> current_or_legacy(tags, legacy) == tags,
        pairs_or_default(pairs).len() > 0,
        pairs.len() > 0 ==> pairs_or_default(pairs) == pairs,
{
    lemma_normalized_is_normal(tags);
    lemma_normalized_is_normal(seq![legacy]);
    if is_normal_tag_list(tags) {
        lemma_normal_list_fixed(tags);
    }
}

impl CacheExport {
    /// The gallery records and the tag definitions that a cache listing
    /// holds, each record read back as `listed_record` says.
    pub fn into_state(self) -> (r: (Vec<ImageRecord>, Vec<TagDefinition>))
        ensures
            r.0@.len() == self.images@.len(),
            forall|i: int| 0 <= i < self.images@.len() ==> #[trigger] r.0@[i]@ == listed_record(self.images@[i]),
            forall|i: int| 0 <= i < self.images@.len() ==> {
                let g = #[trigger] r.0@[i]@;
                &&& g.id == self.images@[i].id
                &&& g.image_path == self.images@[i].image_path@
                &&& g.ib_bits == self.images@[i].ib_bits
                &&& g.source == self.images@[i].source@
                &&& g.source_tag == self.images@[i].source_tag@
                &&& g.index == self.images@[i].index
                &&& g.created_at == self.images@[i].created_at
                &&& g.updated_at == self.images@[i].updated_at
            },
            r.1@ == self.tags@,
    {
        let ghost listed = self.images@;
        let mut images: Vec<ImageRecord> = Vec::new();
        for record in it: self.images.into_iter()
            invariant
                it.seq() == listed,
                images@.len() == it.index(),
                forall|i: int| 0 <= i < images@.len() ==> #[trigger] images@[i]@ == listed_record(listed[i]),
        {
            let image_data = record.image_path.clone();
            let tags = current_or_legacy_tags(record.tags, record.tag);
            let pairs = pairs_or_blank(record.freq_weight_pairs);
            images.push(ImageRecord {
                id: record.id,
                image_data,
                image_path: record.image_path,
                ib_bits: record.ib_bits,
                source: record.source,
                source_tag: record.source_tag,
                tags,
                index: record.index,
                freq_weight_pairs: pairs,
                frequency_bits: 0,
                weight_bits: 0,
                created_at: record.created_at,
                updated_at: record.updated_at,
            });
        }
        (images, self.tags)
    }
}

} // verus!

verus! {

/// The media type that the header of a data URL names: what follows
/// `data:` up to the first `;`, or `application/octet-stream` when the
/// header does not have that shape.
pub open spec fn data_url_mime(header: Seq<char>) -> Seq<char> {
    if header.len() >= 5 && header.take(5) == "data:"@ {
        let rest = header.skip(5);
        match first_index(rest, ';') {
            Some(k) => rest.take(k),
            None => "application/octet-stream"@,
        }
    } else {
        "application/octet-stream"@
    }
}

/// Whether the header of a data URL ends in `;base64`.
pub open spec fn is_base64_header(header: Seq<char>) -> bool {
    header.len() >= 7 && header.skip(header.len() - 7) == ";base64"@
}

/// What `decode_data_url` reads from `url`: split at the first `,` into
/// header and payload, the media type of the header, and the payload
/// decoded from base64 when the header ends in `;base64`, else the
/// payload's UTF-8 bytes. `None` without a `,` or when base64 decoding
/// fails.
pub open spec fn decoded_data_url(url: Seq<char>) -> Option<(Seq<char>, Seq<u8>)> {
    match first_index(url, ',') {
        None => None,
        Some(k) => {
            let header = url.take(k);
            let payload = url.skip(k + 1);
            if is_base64_header(header) {
                match base64_decoded(payload) {
                    Some(b) => Some((data_url_mime(header), b)),
                    None => None,
                }
            } else {
                Some((data_url_mime(header), encode_utf8(payload)))
            }
        }
    }
}

/// Reads the media type and the bytes of a data URL; see
/// `decoded_data_url`. A base64 payload that reads is the base64 text of
/// the bytes it gives.
pub fn decode_data_url(data_url: &str) -> (r: Option<(String, Vec<u8>)>)
    ensures
        match r {
            Some((m, b)) => decoded_data_url(data_url@) == Some((m@, b@)),
            None => decoded_data_url(data_url@) is None,
        },
        r matches Some((m, b)) ==> (first_index(data_url@, ',') matches Some(k) && (
        is_base64_header(data_url@.take(k)) ==> data_url@.skip(k + 1) == base64_text(b@))),
{
    let chars = chars_of(data_url);
    let comma = match find_char(&chars, ',') {
        Some(k) => k,
        None => return None,
    };
    let n = chars.len();
    let header = string_from_range(&chars, 0, comma);
    let payload = string_from_range(&chars, comma + 1, n);
    assert(header@ =~= data_url@.take(comma as int));
    assert(payload@ =~= data_url@.skip(comma + 1));
    let hv = chars_of(header.as_str());
    let hn = hv.len();
    let mut mime = String::from_str("application/octet-stream");
    let prefix = if hn >= 5 {
        string_from_range(&hv, 0, 5)
    } else {
        String::new()
    };
    if hn >= 5 && same_text(prefix.as_str(), "data:") {
        let rest = string_from_range(&hv, 5, hn);
        let rv = chars_of(rest.as_str());
        assert(rv@ =~= header@.skip(5));
        match find_char(&rv, ';') {
            Some(k) => {
                mime = string_from_range(&rv, 0, k);
            },
            None => {},
        }
    }
    assert(mime@ == data_url_mime(header@));
    let tail = if hn >= 7 {
        string_from_range(&hv, hn - 7, hn)
    } else {
        String::new()
    };
    let is_b64 = hn >= 7 && same_text(tail.as_str(), ";base64");
    assert(is_b64 == is_base64_header(header@));
    if is_b64 {
        match base64_decode(payload.as_str()) {
            Some(bytes) => Some((mime, bytes)),
            None => None,
        }
    } else {
        let bytes = payload.as_str().as_bytes_vec();
        Some((mime, bytes))
    }
}

/// The data URL for `bytes` of type `mime`, the bytes in base64.
pub open spec fn data_url_text(mime: Seq<char>, bytes: Seq<u8>) -> Seq<char> {
    "data:"@ + mime + ";base64,"@ + base64_text(bytes)
}

/// Writes `bytes` of type `mime` as a base64 data URL. Reading it back
/// with `decode_data_url` gives the type and the bytes again, for any type
/// that holds neither `,` nor `;`.
pub fn encode_data_url(mime: &str, bytes: &[u8]) -> (r: String)
    requires
        bytes@.len() <= usize::MAX / 2,
    ensures
        r@ == data_url_text(mime@, bytes@),
        !mime@.contains(',') && !mime@.contains(';') ==> decoded_data_url(r@) == Some(
            (mime@, bytes@),
        ),
{
    let mut r = String::from_str("data:");
    r.append(mime);
    r.append(";base64,");
    let text = base64_encode(bytes);
    r.append(text.as_str());
    proof {
        if !mime@.contains(',') && !mime@.contains(';') {
            lemma_data_url_round_trip(mime@, bytes@);
        }
    }
    r
}

} // verus!

verus! {

/// A base64 data URL reads back as its type and its bytes, for any type
/// without `,` or `;`, given that base64 decoding gives back the bytes that
/// were encoded (which `base64_encode` promises).
pub proof fn lemma_data_url_round_trip(mime: Seq<char>, bytes: Seq<u8>)
    requires
        !mime.contains(','),
        !mime.contains(';'),
        base64_decoded(base64_text(bytes)) == Some(bytes),
    ensures
        decoded_data_url("data:"@ + mime + ";base64,"@ + base64_text(bytes)) == Some((mime, bytes)),
{
    lemma_base64_alphabet(bytes);
    reveal_strlit("data:");
    reveal_strlit(";base64,");
    reveal_strlit(";base64");
    let t = base64_text(bytes);
    let url = data_url_text(mime, bytes);
    let k: int = 5 + mime.len() as int + 7;
    assert(url.len() == k + 1 + t.len());
    assert forall|j: int| 0 <= j < k implies url[j] != ',' by {
        if 5 <= j < 5 + mime.len() {
            assert(url[j] == mime[j - 5]);
        }
    }
    assert(url[k] == ',');
    lemma_first_index_at(url, ',', k);
    let header = url.take(k);
    assert(header =~= "data:"@ + mime + ";base64"@);
    assert(url.skip(k + 1) =~= t);
    assert(header.skip(header.len() - 7) =~= ";base64"@);
    assert(header.take(5) =~= "data:"@);
    let rest = header.skip(5);
    assert(rest =~= mime + ";base64"@);
    assert forall|j: int| 0 <= j < mime.len() implies rest[j] != ';' by {
        assert(rest[j] == mime[j]);
    }
    lemma_first_index_at(rest, ';', mime.len() as int);
    assert(rest.take(mime.len() as int) =~= mime);
}

} // verus!

verus! {

/// A file to be written into a cache archive: its path and its bytes.
#[derive(Clone, Debug, PartialEq)]
pub struct ArchiveEntry {
    pub path: String,
    pub content: Vec<u8>,
}

impl View for ArchiveEntry {
    type V = (Seq<char>, Seq<u8>);

    open spec fn view(&self) -> (Seq<char>, Seq<u8>) {
        (self.path@, self.content@)
    }
}

/// The views of a list of archive entries.
pub open spec fn entry_views(entries: Seq<ArchiveEntry>) -> Seq<(Seq<char>, Seq<u8>)> {
    entries.map_values(|e: ArchiveEntry| e@)
}

/// The path that an exported image of type `mime` gets in the archive: a
/// folder named after its source tag (`untagged` when there is none to
/// use), then its position in four digits or more, its source (`image`
/// when there is none to use), its UUID and the extension of its type:
/// `folder/0007_source_uuid.ext`.
pub open spec fn archive_image_path(position: nat, r: RecordView, mime: Seq<char>) -> Seq<char> {
    sanitized_part(r.source_tag, "untagged"@) + "/"@ + zero_padded(position, 4) + "_"@
        + sanitized_part(r.source, "image"@) + "_"@ + uuid_text(r.id) + "."@ + extension_for_mime(
        mime,
    )
}

/// The archive path of an image lies in the folder named after its
/// sanitised source tag, and its file name ends in `_`, the image's UUID,
/// `.` and the extension of its type; what lies between is its position
/// and its sanitised source.
pub proof fn lemma_archive_path_parts(position: nat, r: RecordView, mime: Seq<char>)
    ensures
        ({
            let p = archive_image_path(position, r, mime);
            let folder = sanitized_part(r.source_tag, "untagged"@) + "/"@;
            let tail = "_"@ + uuid_text(r.id) + "."@ + extension_for_mime(mime);
            &&& p.take(folder.len() as int) == folder
            &&& p.skip(p.len() - tail.len()) == tail
            &&& p.subrange(folder.len() as int, p.len() - tail.len()) == zero_padded(position, 4) + "_"@
                + sanitized_part(r.source, "image"@)
        }),
{
    let p = archive_image_path(position, r, mime);
    let folder = sanitized_part(r.source_tag, "untagged"@) + "/"@;
    let mid = zero_padded(position, 4) + "_"@ + sanitized_part(r.source, "image"@);
    let tail = "_"@ + uuid_text(r.id) + "."@ + extension_for_mime(mime);
    assert(p =~= folder + mid + tail);
    assert(p.take(folder.len() as int) =~= folder);
    assert(p.skip(p.len() - tail.len()) =~= tail);
    assert(p.subrange(folder.len() as int, p.len() - tail.len()) =~= mid);
}

/// The archive file for the image at `position`, when its image data is a
/// data URL that can be read: the path above and the bytes of the image.
pub open spec fn export_entry(position: nat, r: RecordView) -> Option<(Seq<char>, Seq<u8>)> {
    match decoded_data_url(r.image_data) {
        Some((mime, bytes)) => Some((archive_image_path(position, r, mime), bytes)),
        None => None,
    }
}

/// The archive files for the images, in order, one for each image whose
/// data can be read.
pub open spec fn export_entries(records: Seq<RecordView>) -> Seq<(Seq<char>, Seq<u8>)>
    decreases records.len(),
{
    if records.len() == 0 {
        seq![]
    } else {
        let earlier = export_entries(records.drop_last());
        match export_entry((records.len() - 1) as nat, records.last()) {
            Some(e) => earlier.push(e),
            None => earlier,
        }
    }
}

/// Whether `c` lists the image `r` exported at `position`: every field
/// kept, no legacy tag, and as path the archive path of its file, or its
/// own path when it has no file in the archive.
pub open spec fn lists_record(c: CacheImageRecord, position: nat, r: RecordView) -> bool {
    &&& c.id == r.id
    &&& c.image_path@ == (match export_entry(position, r) {
        Some(e) => e.0,
        None => r.image_path,
    })
    &&& c.ib_bits == r.ib_bits
    &&& c.source@ == r.source
    &&& c.source_tag@ == r.source_tag
    &&& c.tags.deep_view() == r.tags
    &&& c.tag@ == Seq::<char>::empty()
    &&& c.index == r.index
    &&& c.freq_weight_pairs@ == r.freq_weight_pairs
    &&& c.created_at == r.created_at
    &&& c.updated_at == r.updated_at
}

/// A listing record that lists an image carries the image's own id, IB,
/// source, source tag, tags, index, pairs and timestamps, and no legacy
/// tag; its path is the image's own or one that ends in the image's UUID
/// and the extension of its type.
pub proof fn lemma_listing_keeps_record(c: CacheImageRecord, position: nat, r: RecordView)
    requires
        lists_record(c, position, r),
    ensures
        c.id == r.id,
        c.ib_bits == r.ib_bits,
        c.source@ == r.source,
        c.source_tag@ == r.source_tag,
        c.tags.deep_view() == r.tags,
        c.tag@.len() == 0,
        c.index == r.index,
        c.freq_weight_pairs@ == r.freq_weight_pairs,
        c.created_at == r.created_at,
        c.updated_at == r.updated_at,
        c.image_path@ == r.image_path || exists|mime: Seq<char>| c.image_path@ == archive_image_path(position, r, mime),
{
}

fn archive_path(position: usize, record: &ImageRecord, mime: &str) -> (p: String)
    ensures
        p@ == archive_image_path(position as nat, record@, mime@),
{
    let mut p = sanitize_path_part(record.source_tag.as_str(), "untagged");
    p.append("/");
    push_zero_padded(&mut p, position, 4);
    p.append("_");
    let stem = sanitize_path_part(record.source.as_str(), "image");
    p.append(stem.as_str());
    p.append("_");
    let id = uuid_string(record.id);
    p.append(id.as_str());
    p.append(".");
    p.append(extension_from_mime(mime));
    p
}

/// Lays out the cache archive of the gallery: the listing (format version
/// 1, the tag definitions, one record per image) and the image files.
/// Each image whose data URL can be read gets a file of its bytes, under
/// the path `archive_image_path` gives, and is listed under that path; an
/// image whose data cannot be read gets no file and keeps its own path.
pub fn plan_cache_export(images: &[ImageRecord], tags: &[TagDefinition]) -> (r: (
    CacheExport,
    Vec<ArchiveEntry>,
))
    ensures
        r.0.version == 1,
        r.0.tags@ == tags@,
        r.0.images@.len() == images@.len(),
        forall|i: int|
            0 <= i < images@.len() ==> lists_record(#[trigger] r.0.images@[i], i as nat, images@[i]@),
        forall|i: int| 0 <= i < images@.len() ==> {
            let (c, g) = (#[trigger] r.0.images@[i], images@[i]);
            &&& c.id == g.id
            &&& c.ib_bits == g.ib_bits
            &&& c.source@ == g.source@
            &&& c.source_tag@ == g.source_tag@
            &&& c.tags.deep_view() == g.tags.deep_view()
            &&& c.tag@.len() == 0
            &&& c.index == g.index
            &&& c.freq_weight_pairs@ == g.freq_weight_pairs@
            &&& c.created_at == g.created_at
            &&& c.updated_at == g.updated_at
        },
        entry_views(r.1@) == export_entries(record_views(images@)),
{
    let ghost views = record_views(images@);
    let mut listed: Vec<CacheImageRecord> = Vec::new();
    let mut entries: Vec<ArchiveEntry> = Vec::new();
    let n = images.len();
    for position in 0..n
        invariant
            n == images@.len(),
            views == record_views(images@),
            listed@.len() == position,
            forall|i: int| 0 <= i < position ==> lists_record(#[trigger] listed@[i], i as nat, images@[i]@),
            entry_views(entries@) == export_entries(views.take(position as int)),
    {
        let record = &images[position];
        let mut cache_record = CacheImageRecord {
            id: record.id,
            image_path: record.image_path.clone(),
            ib_bits: record.ib_bits,
            source: record.source.clone(),
            source_tag: record.source_tag.clone(),
            tags: clone_tags(&record.tags),
            tag: String::new(),
            index: record.index,
            freq_weight_pairs: copy_pairs(&record.freq_weight_pairs),
            created_at: record.created_at,
            updated_at: record.updated_at,
        };
        proof {
            assert(views.take(position + 1).drop_last() =~= views.take(position as int));
            assert(views.take(position + 1).last() == record@);
        }
        match decode_data_url(record.image_data.as_str()) {
            Some((mime, bytes)) => {
                let path = archive_path(position, record, mime.as_str());
                cache_record.image_path = path.clone();
                entries.push(ArchiveEntry { path, content: bytes });
                assert(entry_views(entries@) =~= export_entries(views.take(position + 1)));
            },
            None => {
                assert(entry_views(entries@) =~= export_entries(views.take(position + 1)));
            },
        }
        listed.push(cache_record);
    }
    assert(views.take(n as int) =~= views);
    let cache = CacheExport { version: 1, tags: clone_tag_definitions(tags), images: listed };
    (cache, entries)
}

} // verus!

verus! {

/// The files of a cache archive: the image files of `entries`, in order,
/// then the listing `cache.yaml` as its UTF-8 bytes.
pub open spec fn archive_files(entries: Seq<ArchiveEntry>, listing: Seq<char>) -> Seq<
    (Seq<char>, Seq<u8>),
> {
    entry_views(entries).push(("cache.yaml"@, encode_utf8(listing)))
}

/// Whether no two of the files have the same name.
pub open spec fn names_distinct(files: Seq<(Seq<char>, Seq<u8>)>) -> bool {
    forall|a: int, b: int| 0 <= a < b < files.len() ==> files[a].0 != files[b].0
}

proof fn lemma_stored_size_prefix(files: Seq<(Seq<char>, Seq<u8>)>, k: int)
    requires
        0 <= k <= files.len(),
    ensures
        zip_stored_size(files.take(k)) <= zip_stored_size(files),
    decreases files.len() - k,
{
    if k < files.len() {
        lemma_stored_size_prefix(files, k + 1);
        assert(files.take(k + 1).drop_last() =~= files.take(k));
    } else {
        assert(files.take(k) =~= files);
    }
}

/// Writes a cache archive: the image files of `entries`, in order, then
/// the listing as `cache.yaml`, all uncompressed (the files of
/// `archive_files`). On success each of them reads back from the archive
/// with its content, the listing as its UTF-8 bytes, no other name reads
/// from the archive, and no two of them
/// had the same name: the zip writer refuses a repeated name, and the
/// error's text is returned. While the files stay under the size that
/// needs no ZIP64 fields, distinct names are all it takes to succeed. A
/// path of more than `u16::MAX` bytes makes the zip writer panic, so it is
/// left out.
pub fn write_cache_archive(entries: &[ArchiveEntry], listing: &str) -> (r: Result<Vec<u8>, String>)
    requires
        forall|i: int| 0 <= i < entries@.len() ==> encode_utf8(#[trigger] entries@[i].path@).len() <= 0xFFFF,
    ensures
        r matches Ok(b) ==> {
            &&& forall|i: int|
                0 <= i < entries@.len() ==> zip_entry(b@, #[trigger] entries@[i].path@) == Some(
                    entries@[i].content@,
                )
            &&& zip_entry(b@, "cache.yaml"@) == Some(encode_utf8(listing@))
            &&& forall|name: Seq<char>| #[trigger] zip_entry(b@, name) is Some
                ==> written_names(archive_files(entries@, listing@)).contains(name)
            &&& names_distinct(archive_files(entries@, listing@))
        },
        (names_distinct(archive_files(entries@, listing@)) && zip_stored_size(
            archive_files(entries@, listing@),
        ) < zip_size_limit()) ==> r is Ok,
{
    let ghost files = archive_files(entries@, listing@);
    let ghost owed = names_distinct(files) && zip_stored_size(files) < zip_size_limit();
    let mut w = zip_writer_new();
    let n = entries.len();
    assert(entry_views(entries@) =~= files.take(n as int));
    for i in 0..n
        invariant
            n == entries@.len(),
            files == archive_files(entries@, listing@),
            owed == (names_distinct(files) && zip_stored_size(files) < zip_size_limit()),
            entry_views(entries@) == files.take(n as int),
            forall|k: int| 0 <= k < entries@.len() ==> encode_utf8(#[trigger] entries@[k].path@).len() <= 0xFFFF,
            zip_written(w) == files.take(i as int),
            zip_unfailed(w),
            names_distinct(files.take(i as int)),
    {
        let ghost before = zip_written(w);
        proof {
            assert(files[i as int] == entries@[i as int]@);
            assert(files.take(i + 1) =~= before.push(files[i as int]));
            if owed {
                assert(!written_names(before).contains(files[i as int].0)) by {
                    if written_names(before).contains(files[i as int].0) {
                        let k = choose|k: int| 0 <= k < written_names(before).len() && written_names(before)[k] == files[i as int].0;
                        assert(before[k] == files[k]);
                    }
                }
                lemma_stored_size_prefix(files, i + 1);
                assert(files.take(i + 1).drop_last() == before);
                assert(files.take(i + 1).last() == files[i as int]);
                assert((before.push((files[i as int].0, Seq::<u8>::empty()))).drop_last() == before);
                assert(zip_stored_size(before.push((files[i as int].0, Seq::<u8>::empty())))
                    <= zip_stored_size(files.take(i + 1)));
            }
        }
        match zip_start_file(&mut w, entries[i].path.as_str()) {
            Ok(()) => {},
            Err(e) => {
                return Err(zip_error_text(&e));
            },
        }
        proof {
            assert(zip_written(w).last().1 + entries@[i as int].content@ =~= entries@[i as int].content@);
            let started = zip_written(w);
            assert(started.update(
                started.len() - 1,
                (started.last().0, started.last().1 + entries@[i as int].content@),
            ) =~= files.take(i + 1));
        }
        match zip_write_all(&mut w, entries[i].content.as_slice()) {
            Ok(()) => {},
            Err(e) => {
                return Err(io_error_text(&e));
            },
        }
        proof {
            assert(zip_written(w) =~= files.take(i + 1));
            let t = files.take(i + 1);
            assert forall|a: int, b: int| 0 <= a < b < t.len() implies #[trigger] t[a].0
                != #[trigger] t[b].0 by {
                if b == i {
                    assert(written_names(before)[a] == before[a].0);
                } else {
                    assert(before[a] == t[a]);
                    assert(before[b] == t[b]);
                }
            }
        }
    }
    let ghost before = zip_written(w);
    proof {
        reveal_strlit("cache.yaml");
        assert(is_ascii_chars("cache.yaml"@));
        vstd::utf8::is_ascii_chars_encode_utf8("cache.yaml"@);
        assert(files.last() == ("cache.yaml"@, encode_utf8(listing@)));
        assert(files =~= before.push(files.last()));
        if owed {
            assert(!written_names(before).contains("cache.yaml"@)) by {
                if written_names(before).contains("cache.yaml"@) {
                    let k = choose|k: int| 0 <= k < written_names(before).len() && written_names(before)[k] == "cache.yaml"@;
                    assert(before[k] == files[k]);
                }
            }
            assert((before.push(("cache.yaml"@, Seq::<u8>::empty()))).drop_last() == before);
            assert(files.drop_last() == before);
        }
    }
    match zip_start_file(&mut w, "cache.yaml") {
        Ok(()) => {},
        Err(e) => {
            return Err(zip_error_text(&e));
        },
    }
    proof {
        assert(zip_written(w).last().1 + encode_utf8(listing@) =~= encode_utf8(listing@));
        let started = zip_written(w);
        assert(started.update(
            started.len() - 1,
            (started.last().0, started.last().1 + encode_utf8(listing@)),
        ) =~= files);
    }
    match zip_write_all(&mut w, listing.as_bytes()) {
        Ok(()) => {},
        Err(e) => {
            return Err(io_error_text(&e));
        },
    }
    let ghost written = zip_written(w);
    assert(written =~= files);
    proof {
        assert forall|a: int, b: int| 0 <= a < b < files.len() implies #[trigger] files[a].0
            != #[trigger] files[b].0 by {
            if b == files.len() - 1 {
                assert(written_names(before)[a] == before[a].0);
            } else {
                assert(before[a] == files[a] && before[b] == files[b]);
            }
        }
    }
    match zip_finish(w) {
        Ok(b) => {
            assert forall|i: int| 0 <= i < entries@.len() implies zip_entry(
                b@,
                #[trigger] entries@[i].path@,
            ) == Some(entries@[i].content@) by {
                assert(written[i] == files[i]);
                assert(files[i] == entries@[i]@);
                assert(zip_entry(b@, written[i].0) == Some(written[i].1));
            }
            assert(zip_entry(b@, written[entries@.len() as int].0) == Some(
                written[entries@.len() as int].1,
            ));
            Ok(b)
        },
        Err(e) => Err(zip_error_text(&e)),
    }
}

} // verus!

verus! {

/// The text that reading a file that is not valid UTF-8 as a string
/// reports (that of `std::io::ErrorKind::InvalidData` from
/// `Read::read_to_string`).
pub open spec fn invalid_utf8_text() -> Seq<char> {
    "stream did not contain valid UTF-8"@
}

/// Reads the listing `cache.yaml` of a cache archive as text. The text
/// returned is the file's content decoded from UTF-8. It is returned
/// whenever the file reads and is valid UTF-8; otherwise the error's text
/// is returned.
pub fn read_cache_listing(bytes: &[u8]) -> (r: Result<String, String>)
    ensures
        r matches Ok(s) ==> zip_entry(bytes@, "cache.yaml"@) matches Some(c) && valid_utf8(c)
            && s@ == decode_utf8(c),
        (zip_entry(bytes@, "cache.yaml"@) matches Some(c) && valid_utf8(c)) ==> r is Ok,
{
    let owned = slice_to_vec(bytes);
    let mut archive = match zip_open(owned) {
        Ok(a) => a,
        Err(e) => {
            return Err(zip_error_text(&e));
        },
    };
    match zip_read_file(&mut archive, "cache.yaml") {
        Ok(Ok(content)) => match utf8_string(content) {
            Some(s) => Ok(s),
            None => Err(String::from_str("stream did not contain valid UTF-8")),
        },
        Ok(Err(e)) => Err(io_error_text(&e)),
        Err(e) => Err(zip_error_text(&e)),
    }
}

/// The listing `cache.yaml` that `write_cache_archive` writes reads back
/// with `read_cache_listing` as the same text.
pub proof fn lemma_listing_reads_back(archive: Seq<u8>, listing: Seq<char>)
    requires
        zip_entry(archive, "cache.yaml"@) == Some(encode_utf8(listing)),
    ensures
        zip_entry(archive, "cache.yaml"@) matches Some(c) && valid_utf8(c) && decode_utf8(c)
            == listing,
{
    broadcast use vstd::utf8::encode_utf8_valid_utf8, vstd::utf8::encode_utf8_decode_utf8;

}

/// The image data a listed image gets back from the archive `archive`:
/// none when it has no path, the data URL of the file at its path when
/// that file reads (its type from the path's extension), else the path
/// itself.
pub open spec fn imported_image_data(archive: Seq<u8>, path: Seq<char>) -> Seq<char> {
    if path.len() == 0 {
        Seq::empty()
    } else {
        match zip_entry(archive, path) {
            Some(content) => data_url_text(mime_for_path(path), content),
            None => path,
        }
    }
}

/// The gallery record that a listed image is imported as from the archive
/// `archive`: its image data taken from the archive, its tags normalised
/// (falling back on the legacy tag), blank pairs when it has none, the
/// frequency and the weight zero.
pub open spec fn imported_record(archive: Seq<u8>, c: CacheImageRecord) -> RecordView {
    RecordView {
        id: c.id,
        image_data: imported_image_data(archive, c.image_path@),
        image_path: c.image_path@,
        ib_bits: c.ib_bits,
        source: c.source@,
        source_tag: c.source_tag@,
        tags: current_or_legacy(c.tags.deep_view(), c.tag@),
        index: c.index,
        freq_weight_pairs: pairs_or_default(c.freq_weight_pairs@),
        frequency_bits: 0,
        weight_bits: 0,
        created_at: c.created_at,
        updated_at: c.updated_at,
    }
}

/// A record imported from an archive keeps the listed id, path, IB,
/// source, source tag, index and timestamps; its tags are in normal form
/// (the listed ones when they already are and there are some), it has
/// pairs (the listed ones when there are some), its frequency and weight
/// are 0, and its image data is the data URL of the file at its path when
/// that file reads, else its path.
pub proof fn lemma_imported_record_fields(archive: Seq<u8>, c: CacheImageRecord)
    ensures
        ({
            let g = imported_record(archive, c);
            &&& g.id == c.id
            &&& g.image_path == c.image_path@
            &&& g.ib_bits == c.ib_bits
            &&& g.source == c.source@
            &&& g.source_tag == c.source_tag@
            &&& is_normal_tag_list(g.tags)
            &&& (is_normal_tag_list(c.tags.deep_view()) && c.tags@.len() > 0 ==> g.tags == c.tags.deep_view())
            &&& g.index == c.index
            &&& g.freq_weight_pairs.len() > 0
            &&& (c.freq_weight_pairs@.len() > 0 ==> g.freq_weight_pairs == c.freq_weight_pairs@)
            &&& g.frequency_bits == 0
            &&& g.weight_bits == 0
            &&& g.created_at == c.created_at
            &&& g.updated_at == c.updated_at
            &&& (c.image_path@.len() > 0 && zip_entry(archive, c.image_path@) is Some) ==> g.image_data
                == "data:"@ + mime_for_path(c.image_path@) + ";base64,"@ + base64_text(
                zip_entry(archive, c.image_path@)->0,
            )
            &&& (c.image_path@.len() == 0 || zip_entry(archive, c.image_path@) is None) ==> g.image_data.len()
                == c.image_path@.len()
        }),
{
    lemma_record_tags_and_pairs(c.tags.deep_view(), c.tag@, c.freq_weight_pairs@);
}

/// Imports the images that a cache listing names from the archive they
/// came in, with the listing's tag definitions. Each image is read back as
/// `imported_record` says: an image whose file the archive lacks keeps its
/// path as its data. The import fails, with the error's text, exactly when
/// the archive does not open or when a listed file is found but does not
/// read.
pub fn restore_cache_archive(bytes: &[u8], cache: CacheExport) -> (r: Result<
    (Vec<ImageRecord>, Vec<TagDefinition>),
    String,
>)
    ensures
        r matches Ok((images, tags)) ==> {
            &&& images@.len() == cache.images@.len()
            &&& forall|i: int|
                0 <= i < cache.images@.len() ==> #[trigger] images@[i]@ == imported_record(
                    bytes@,
                    cache.images@[i],
                )
            &&& forall|i: int| 0 <= i < cache.images@.len() ==> {
                let g = #[trigger] images@[i]@;
                &&& g.id == cache.images@[i].id
                &&& g.image_path == cache.images@[i].image_path@
                &&& g.ib_bits == cache.images@[i].ib_bits
                &&& g.source == cache.images@[i].source@
                &&& g.source_tag == cache.images@[i].source_tag@
                &&& g.index == cache.images@[i].index
                &&& g.created_at == cache.images@[i].created_at
                &&& g.updated_at == cache.images@[i].updated_at
            }
            &&& tags@ == cache.tags@
        },
        r is Ok <==> (zip_opens(bytes@) && forall|i: int|
            0 <= i < cache.images@.len() && cache.images@[i].image_path@.len() > 0
                && zip_has_file(bytes@, #[trigger] cache.images@[i].image_path@) ==> zip_entry(
                bytes@,
                cache.images@[i].image_path@,
            ) is Some),
{
    let owned = slice_to_vec(bytes);
    let mut archive = match zip_open(owned) {
        Ok(a) => a,
        Err(e) => {
            return Err(zip_error_text(&e));
        },
    };
    let ghost source = bytes@;
    let ghost listed = cache.images@;
    let ghost all_read = forall|i: int|
        0 <= i < listed.len() && listed[i].image_path@.len() > 0
            && zip_has_file(source, #[trigger] listed[i].image_path@) ==> zip_entry(
            source,
            listed[i].image_path@,
        ) is Some;
    let mut images: Vec<ImageRecord> = Vec::new();
    for record in it: cache.images.into_iter()
        invariant
            it.seq() == listed,
            listed == cache.images@,
            source == bytes@,
            zip_source(archive) == source,
            all_read == (forall|i: int|
                0 <= i < listed.len() && listed[i].image_path@.len() > 0
                    && zip_has_file(source, #[trigger] listed[i].image_path@) ==> zip_entry(
                    source,
                    listed[i].image_path@,
                ) is Some),
            zip_opens(source),
            forall|i: int| 0 <= i < it.index() && listed[i].image_path@.len() > 0
                && zip_has_file(source, #[trigger] listed[i].image_path@) ==> zip_entry(
                source,
                listed[i].image_path@,
            ) is Some,
            images@.len() == it.index(),
            forall|i: int| 0 <= i < images@.len() ==> #[trigger] images@[i]@ == imported_record(source, listed[i]),
    {
        let ghost k = it.index();
        let ghost c = record;
        assert(c == listed[k]);
        let image_data = if record.image_path.as_str().is_empty() {
            String::new()
        } else {
            match zip_read_file(&mut archive, record.image_path.as_str()) {
                Ok(Ok(content)) => encode_data_url(
                    mime_from_path(record.image_path.as_str()),
                    content.as_slice(),
                ),
                Ok(Err(e)) => {
                    assert(zip_entry(source, listed[k as int].image_path@) is None);
                    assert(listed[k as int].image_path@.len() > 0);
                    assert(!all_read);
                    return Err(io_error_text(&e));
                },
                Err(_) => {
                    assert(zip_entry(source, c.image_path@) is None);
                    record.image_path.clone()
                },
            }
        };
        let tags = current_or_legacy_tags(record.tags, record.tag);
        let pairs = pairs_or_blank(record.freq_weight_pairs);
        images.push(
            ImageRecord {
                id: record.id,
                image_data,
                image_path: record.image_path,
                ib_bits: record.ib_bits,
                source: record.source,
                source_tag: record.source_tag,
                tags,
                index: record.index,
                freq_weight_pairs: pairs,
                frequency_bits: 0,
                weight_bits: 0,
                created_at: record.created_at,
                updated_at: record.updated_at,
            },
        );
    }
    assert(all_read);
    Ok((images, cache.tags))
}

} // verus!

verus! {

/// The type an exported image comes back with: its own when the archive
/// names it by extension, else `application/octet-stream`.
pub open spec fn exported_mime(mime: Seq<char>) -> Seq<char> {
    if is_known_image_mime(mime) {
        mime
    } else {
        "application/octet-stream"@
    }
}

proof fn lemma_export_entry_listed(records: Seq<RecordView>, i: int)
    requires
        0 <= i < records.len(),
        export_entry(i as nat, records[i]) is Some,
    ensures
        export_entries(records).contains(export_entry(i as nat, records[i])->0),
    decreases records.len(),
{
    let e = export_entry(i as nat, records[i])->0;
    if i == records.len() - 1 {
        assert(export_entries(records).last() == e);
    } else {
        let init = records.drop_last();
        assert(init[i] == records[i]);
        lemma_export_entry_listed(init, i);
        let earlier = export_entries(init);
        let k = choose|k: int| 0 <= k < earlier.len() && earlier[k] == e;
        match export_entry((records.len() - 1) as nat, records.last()) {
            Some(x) => {
                assert(export_entries(records)[k] == e);
            },
            None => {},
        }
    }
}

/// An image exported with `plan_cache_export` and `write_cache_archive`
/// comes back from the archive through `restore_cache_archive` with the
/// same id, IB, source, source tag, index and timestamps; its tags
/// normalised; blank pairs when it had none; frequency and weight zero.
/// When its data was a data URL that reads, it comes back under the path
/// of its archive file, as the data URL of the same bytes, with its type
/// when the archive names that type by extension and as
/// `application/octet-stream` otherwise. Otherwise it keeps its path.
pub proof fn lemma_export_import(
    archive: Seq<u8>,
    images: Seq<ImageRecord>,
    listed: Seq<CacheImageRecord>,
    i: int,
)
    requires
        0 <= i < images.len(),
        listed.len() == images.len(),
        forall|j: int| 0 <= j < images.len() ==> lists_record(#[trigger] listed[j], j as nat, images[j]@),
        forall|k: int|
            0 <= k < export_entries(record_views(images)).len() ==> zip_entry(
                archive,
                (#[trigger] export_entries(record_views(images))[k]).0,
            ) == Some(export_entries(record_views(images))[k].1),
    ensures
        ({
            let r = images[i]@;
            let back = imported_record(archive, listed[i]);
            &&& back.id == r.id
            &&& back.ib_bits == r.ib_bits
            &&& back.source == r.source
            &&& back.source_tag == r.source_tag
            &&& back.tags == normalized_tags(r.tags)
            &&& back.index == r.index
            &&& back.freq_weight_pairs == pairs_or_default(r.freq_weight_pairs)
            &&& back.frequency_bits == 0
            &&& back.weight_bits == 0
            &&& back.created_at == r.created_at
            &&& back.updated_at == r.updated_at
            &&& match decoded_data_url(r.image_data) {
                Some((mime, bytes)) => {
                    &&& back.image_path == archive_image_path(i as nat, r, mime)
                    &&& back.image_data == data_url_text(exported_mime(mime), bytes)
                },
                None => back.image_path == r.image_path,
            }
        }),
{
    let views = record_views(images);
    let r = images[i]@;
    assert(views[i] == r);
    let c = listed[i];
    assert(lists_record(c, i as nat, r));
    reveal_strlit("");
    assert(normalized_tags(seq![Seq::<char>::empty()]) =~= Seq::<Seq<char>>::empty()) by {
        let s = seq![Seq::<char>::empty()];
        assert(s.drop_last() =~= Seq::<Seq<char>>::empty());
        assert(normalized_tags(s.drop_last()) == Seq::<Seq<char>>::empty());
        assert(s.last() == Seq::<char>::empty());
        assert(trim(s.last()) =~= Seq::<char>::empty()) by {
            assert(trim_start(Seq::<char>::empty()) == Seq::<char>::empty());
            assert(trim_end(Seq::<char>::empty()) == Seq::<char>::empty());
        }
    }
    match decoded_data_url(r.image_data) {
        Some((mime, bytes)) => {
            let e = export_entry(i as nat, r)->0;
            lemma_export_entry_listed(views, i);
            let entries = export_entries(views);
            let k = choose|k: int| 0 <= k < entries.len() && entries[k] == e;
            assert(zip_entry(archive, entries[k].0) == Some(entries[k].1));
            let path = e.0;
            reveal_strlit("/");
            reveal_strlit(".");
            reveal_strlit("_");
            let stem = sanitized_part(r.source_tag, "untagged"@) + "/"@ + zero_padded(i as nat, 4)
                + "_"@ + sanitized_part(r.source, "image"@) + "_"@ + uuid_text(r.id);
            assert(path =~= stem + seq!['.'] + extension_for_mime(mime));
            lemma_extension_round_trip(stem, mime);
            assert(path.len() > 0);
        },
        None => {},
    }
}

/// An image whose tags are in normal form, which has pairs, and whose data
/// is a base64 data URL of a known image type, in the form that
/// `encode_data_url` writes and that reads, comes back from the archive as
/// the very same record but for its path, now that of its archive file,
/// and its frequency and weight, which are not exported.
pub proof fn lemma_export_import_restores_record(
    archive: Seq<u8>,
    images: Seq<ImageRecord>,
    listed: Seq<CacheImageRecord>,
    i: int,
    mime: Seq<char>,
    bytes: Seq<u8>,
)
    requires
        0 <= i < images.len(),
        listed.len() == images.len(),
        forall|j: int| 0 <= j < images.len() ==> lists_record(#[trigger] listed[j], j as nat, images[j]@),
        forall|k: int|
            0 <= k < export_entries(record_views(images)).len() ==> zip_entry(
                archive,
                (#[trigger] export_entries(record_views(images))[k]).0,
            ) == Some(export_entries(record_views(images))[k].1),
        is_normal_tag_list(images[i]@.tags),
        images[i]@.freq_weight_pairs.len() > 0,
        is_known_image_mime(mime),
        images[i]@.image_data == data_url_text(mime, bytes),
        decoded_data_url(images[i]@.image_data) == Some((mime, bytes)),
    ensures
        imported_record(archive, listed[i]) == (RecordView {
            image_path: archive_image_path(i as nat, images[i]@, mime),
            frequency_bits: 0,
            weight_bits: 0,
            ..images[i]@
        }),
{
    lemma_export_import(archive, images, listed, i);
    lemma_normal_list_fixed(images[i]@.tags);
}

} // verus!

verus! {

/// The position that an archive path records: the number written right
/// after its first `/`.
pub open spec fn path_position(p: Seq<char>) -> nat {
    match first_index(p, '/') {
        Some(k) => digits_value(leading_digits(p.skip(k + 1))),
        None => 0,
    }
}

/// Whether `s` holds no `/`.
pub open spec fn has_no_slash(s: Seq<char>) -> bool {
    forall|j: int| 0 <= j < s.len() ==> #[trigger] s[j] != '/'
}

proof fn lemma_strip_start_no_slash(s: Seq<char>, c: char)
    requires
        has_no_slash(s),
    ensures
        has_no_slash(strip_start(s, c)),
    decreases s.len(),
{
    if s.len() > 0 && s[0] == c {
        assert(has_no_slash(s.drop_first())) by {
            assert forall|j: int| 0 <= j < s.len() - 1 implies #[trigger] s.drop_first()[j] != '/' by {
                assert(s.drop_first()[j] == s[j + 1]);
            }
        }
        lemma_strip_start_no_slash(s.drop_first(), c);
    }
}

proof fn lemma_strip_end_no_slash(s: Seq<char>, c: char)
    requires
        has_no_slash(s),
    ensures
        has_no_slash(strip_end(s, c)),
    decreases s.len(),
{
    if s.len() > 0 && s.last() == c {
        assert(has_no_slash(s.drop_last())) by {
            assert forall|j: int| 0 <= j < s.len() - 1 implies #[trigger] s.drop_last()[j] != '/' by {
                assert(s.drop_last()[j] == s[j]);
            }
        }
        lemma_strip_end_no_slash(s.drop_last(), c);
    }
}

proof fn lemma_sanitized_no_slash(raw: Seq<char>, fallback: Seq<char>)
    requires
        has_no_slash(fallback),
    ensures
        has_no_slash(sanitized_part(raw, fallback)),
{
    let mapped = raw.map_values(|c: char| path_char(c));
    assert(has_no_slash(mapped)) by {
        assert forall|j: int| 0 <= j < mapped.len() implies #[trigger] mapped[j] != '/' by {
            assert(mapped[j] == path_char(raw[j]));
        }
    }
    lemma_strip_start_no_slash(mapped, '_');
    lemma_strip_end_no_slash(strip_start(mapped, '_'), '_');
}

proof fn lemma_strip_start_shape(s: Seq<char>, c: char)
    ensures
        strip_start(s, c).len() <= s.len(),
        strip_start(s, c) == s.skip(s.len() - strip_start(s, c).len()),
        strip_start(s, c).len() > 0 ==> strip_start(s, c)[0] != c,
    decreases s.len(),
{
    if s.len() > 0 && s[0] == c {
        lemma_strip_start_shape(s.drop_first(), c);
        let t = strip_start(s.drop_first(), c);
        assert(s.drop_first().skip(s.drop_first().len() - t.len()) =~= s.skip(s.len() - t.len()));
    } else {
        assert(s.skip(0) =~= s);
    }
}

proof fn lemma_strip_end_shape(s: Seq<char>, c: char)
    ensures
        strip_end(s, c).len() <= s.len(),
        strip_end(s, c) == s.take(strip_end(s, c).len() as int),
        strip_end(s, c).len() > 0 ==> strip_end(s, c).last() != c,
    decreases s.len(),
{
    if s.len() > 0 && s.last() == c {
        lemma_strip_end_shape(s.drop_last(), c);
        let t = strip_end(s.drop_last(), c);
        assert(s.drop_last().take(t.len() as int) =~= s.take(t.len() as int));
    } else {
        assert(s.take(s.len() as int) =~= s);
    }
}

/// A sanitised path part is the fallback, or a non-empty text, no longer
/// than the raw one, of characters that `path_char` keeps, that neither
/// starts nor ends with `_`. A non-empty raw part already of that shape is
/// kept as it is, and one with no character worth keeping gives the
/// fallback.
pub proof fn lemma_sanitized_shape(raw: Seq<char>, fallback: Seq<char>)
    ensures
        ({
            let s = sanitized_part(raw, fallback);
            ||| s == fallback
            ||| {
                &&& 0 < s.len() <= raw.len()
                &&& s[0] != '_'
                &&& s.last() != '_'
                &&& forall|j: int| 0 <= j < s.len() ==> path_char(#[trigger] s[j]) == s[j]
            }
        }),
        (raw.len() > 0 && raw[0] != '_' && raw.last() != '_' && forall|j: int|
            0 <= j < raw.len() ==> path_char(#[trigger] raw[j]) == raw[j]) ==> sanitized_part(raw, fallback)
            == raw,
        (forall|j: int| 0 <= j < raw.len() ==> path_char(#[trigger] raw[j]) == '_') ==> sanitized_part(
            raw,
            fallback,
        ) == fallback,
{
    let mapped = raw.map_values(|c: char| path_char(c));
    let front = strip_start(mapped, '_');
    let cleaned = strip_end(front, '_');
    lemma_strip_start_shape(mapped, '_');
    lemma_strip_end_shape(front, '_');
    let off = mapped.len() - front.len();
    if cleaned.len() > 0 {
        assert(cleaned[0] == front[0]);
        assert forall|j: int| 0 <= j < cleaned.len() implies path_char(#[trigger] cleaned[j])
            == cleaned[j] by {
            assert(cleaned[j] == front[j]);
            assert(front[j] == mapped[j + off]);
            assert(mapped[j + off] == path_char(raw[j + off]));
        }
    }
    if raw.len() > 0 && raw[0] != '_' && raw.last() != '_' && forall|j: int|
        0 <= j < raw.len() ==> path_char(#[trigger] raw[j]) == raw[j] {
        assert(mapped =~= raw);
        assert(strip_start(raw, '_') == raw);
        assert(strip_end(raw, '_') == raw);
    }
    if forall|j: int| 0 <= j < raw.len() ==> path_char(#[trigger] raw[j]) == '_' {
        if front.len() > 0 {
            assert(front[0] == mapped[off]);
            assert(mapped[off] == path_char(raw[off]));
        }
    }
}

/// Sanitising a path part that `sanitized_part` already gave changes
/// nothing, with any fallback that sanitising leaves as it is (such as
/// `untagged` and `image`).
pub proof fn lemma_sanitized_idempotent(raw: Seq<char>, fallback: Seq<char>)
    requires
        sanitized_part(fallback, fallback) == fallback,
    ensures
        sanitized_part(sanitized_part(raw, fallback), fallback) == sanitized_part(raw, fallback),
{
    let mapped = raw.map_values(|c: char| path_char(c));
    let front = strip_start(mapped, '_');
    let cleaned = strip_end(front, '_');
    if cleaned.len() > 0 {
        lemma_strip_start_shape(mapped, '_');
        lemma_strip_end_shape(front, '_');
        let off = mapped.len() - front.len();
        assert(cleaned[0] == front[0]);
        assert forall|j: int| 0 <= j < cleaned.len() implies path_char(#[trigger] cleaned[j])
            == cleaned[j] by {
            assert(cleaned[j] == front[j]);
            assert(front[j] == mapped[j + off]);
            assert(mapped[j + off] == path_char(raw[j + off]));
        }
        let again = cleaned.map_values(|c: char| path_char(c));
        assert(again =~= cleaned);
        assert(strip_start(cleaned, '_') == cleaned);
        assert(strip_end(cleaned, '_') == cleaned);
    }
}

/// The archive path of an image records its position, after its first
/// `/`.
pub proof fn lemma_archive_path_position(position: nat, r: RecordView, mime: Seq<char>)
    ensures
        first_index(archive_image_path(position, r, mime), '/') is Some,
        path_position(archive_image_path(position, r, mime)) == position,
{
    reveal_strlit("untagged");
    reveal_strlit("image");
    reveal_strlit("/");
    reveal_strlit("_");
    let folder = sanitized_part(r.source_tag, "untagged"@);
    lemma_sanitized_no_slash(r.source_tag, "untagged"@);
    let z = zero_padded(position, 4);
    lemma_zero_padded_digits(position, 4);
    let rest = sanitized_part(r.source, "image"@) + "_"@ + uuid_text(r.id) + "."@
        + extension_for_mime(mime);
    let p = archive_image_path(position, r, mime);
    assert(p =~= folder + seq!['/'] + z + seq!['_'] + rest);
    assert forall|j: int| 0 <= j < folder.len() implies p[j] != '/' by {
        assert(p[j] == folder[j]);
    }
    lemma_first_index_at(p, '/', folder.len() as int);
    let q = p.skip(folder.len() + 1int);
    assert(q =~= z + seq!['_'] + rest);
    assert forall|k: int| 0 <= k < z.len() implies is_ascii_digit(#[trigger] q[k]) by {
        assert(q[k] == z[k]);
    }
    assert(q[z.len() as int] == '_');
    lemma_leading_digits_take(q, z.len() as int);
    assert(q.take(z.len() as int) =~= z);
}

/// The files that an export writes have distinct paths, none of them
/// `cache.yaml`, so that the archive can hold them all beside the listing.
pub proof fn lemma_archive_paths_distinct(records: Seq<RecordView>)
    ensures
        forall|k1: int, k2: int|
            0 <= k1 < k2 < export_entries(records).len() ==> export_entries(records)[k1].0
                != export_entries(records)[k2].0,
        forall|k: int|
            0 <= k < export_entries(records).len() ==> export_entries(records)[k].0 != "cache.yaml"@,
        forall|k: int|
            0 <= k < export_entries(records).len() ==> first_index(
                #[trigger] export_entries(records)[k].0,
                '/',
            ) is Some && path_position(export_entries(records)[k].0) < records.len(),
    decreases records.len(),
{
    reveal_strlit("cache.yaml");
    let entries = export_entries(records);
    if records.len() > 0 {
        let init = records.drop_last();
        lemma_archive_paths_distinct(init);
        let earlier = export_entries(init);
        let n = (records.len() - 1) as nat;
        match export_entry(n, records.last()) {
            Some(e) => {
                let decoded = decoded_data_url(records.last().image_data)->0;
                let mime = decoded.0;
                lemma_archive_path_position(n, records.last(), mime);
                assert(entries == earlier.push(e));
                assert forall|k: int| 0 <= k < earlier.len() implies entries[k].0 != e.0 by {
                    assert(entries[k] == earlier[k]);
                    assert(path_position(earlier[k].0) < init.len());
                }
                assert forall|k: int| 0 <= k < entries.len() implies entries[k].0 != "cache.yaml"@ by {
                    if k < earlier.len() {
                        assert(entries[k] == earlier[k]);
                    } else {
                        let cy = "cache.yaml"@;
                        assert(first_index(e.0, '/') is Some);
                        if e.0 == cy {
                            let fi = first_index(e.0, '/')->0;
                            lemma_first_index_bounds(e.0, '/');
                            assert(cy[fi] == '/');
                        }
                    }
                }
                assert forall|k1: int, k2: int| 0 <= k1 < k2 < entries.len() implies entries[k1].0
                    != entries[k2].0 by {
                    if k2 < earlier.len() {
                        assert(entries[k1] == earlier[k1] && entries[k2] == earlier[k2]);
                    } else {
                        assert(entries[k1] == earlier[k1]);
                    }
                }
                assert forall|k: int| 0 <= k < entries.len() implies first_index(
                    #[trigger] entries[k].0,
                    '/',
                ) is Some && path_position(entries[k].0) < records.len() by {
                    if k < earlier.len() {
                        assert(entries[k] == earlier[k]);
                    }
                }
            },
            None => {
                assert(entries == earlier);
            },
        }
    }
}

} // verus!

verus! {

/// A record saved with its tags in normal form, at least one pair and no
/// legacy tag reads back from storage as exactly the record saved.
pub proof fn lemma_saved_record_reads_back(r: RecordView, t: StoredImageRecord)
    requires
        is_normal_tag_list(r.tags),
        r.freq_weight_pairs.len() > 0,
        t.id == r.id,
        t.image_data@ == r.image_data,
        t.image_path@ == r.image_path,
        t.ib_bits == r.ib_bits,
        t.source@ == r.source,
        t.source_tag@ == r.source_tag,
        t.tags.deep_view() == r.tags,
        t.tag@ == Seq::<char>::empty(),
        t.index == r.index,
        t.freq_weight_pairs@ == r.freq_weight_pairs,
        t.frequency_bits == r.frequency_bits,
        t.weight_bits == r.weight_bits,
        t.created_at == r.created_at,
        t.updated_at == r.updated_at,
    ensures
        restored_record(t) == r,
{
    lemma_normal_list_fixed(r.tags);
    let legacy = seq![t.tag@];
    lemma_normalize_idempotent(legacy);
    reveal_with_fuel(normalized_tags, 2);
    reveal_strlit("");
    assert(trim(Seq::<char>::empty()) =~= Seq::<char>::empty()) by {
        assert(trim_start(Seq::<char>::empty()) == Seq::<char>::empty());
        assert(trim_end(Seq::<char>::empty()) == Seq::<char>::empty());
    }
    assert(legacy.drop_last() =~= Seq::<Seq<char>>::empty());
}

/// Saving a record that was read back from storage, and reading it back
/// again, gives the same record: once read back, its tags are in normal
/// form and it has pairs, so a second reading changes nothing. (A saved
/// record carries no legacy tag.)
pub proof fn lemma_restore_idempotent(s: StoredImageRecord, t: StoredImageRecord)
    requires
        ({
            let r = restored_record(s);
            &&& t.id == r.id
            &&& t.image_data@ == r.image_data
            &&& t.image_path@ == r.image_path
            &&& t.ib_bits == r.ib_bits
            &&& t.source@ == r.source
            &&& t.source_tag@ == r.source_tag
            &&& t.tags.deep_view() == r.tags
            &&& t.tag@ == Seq::<char>::empty()
            &&& t.index == r.index
            &&& t.freq_weight_pairs@ == r.freq_weight_pairs
            &&& t.frequency_bits == r.frequency_bits
            &&& t.weight_bits == r.weight_bits
            &&& t.created_at == r.created_at
            &&& t.updated_at == r.updated_at
        }),
    ensures
        restored_record(t) == restored_record(s),
{
    let tags = s.tags.deep_view();
    let legacy = seq![s.tag@];
    lemma_normalize_idempotent(tags);
    lemma_normalize_idempotent(legacy);
    reveal_with_fuel(normalized_tags, 2);
}

} // verus!
