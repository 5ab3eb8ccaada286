//! The records that the gallery holds and the rules on their tags.

use vstd::prelude::*;
use vstd::string::*;
use crate::bindings::new_random_id;
use crate::upload::lemma_decimal_digits;
use crate::text::{decimal, joined, join_strings, lemma_trim_idempotent, push_decimal, trim, trimmed};

verus! {

/// At most this many tags can be defined.
pub const MAX_TAGS: usize = 24;

/// The tags of an image as `normalize_image_tags` leaves them: each tag
/// trimmed, empty tags and repeats dropped, and no more than the first two
/// that remain.
pub open spec fn normalized_tags(tags: Seq<Seq<char>>) -> Seq<Seq<char>>
    decreases tags.len(),
{
    if tags.len() == 0 {
        seq![]
    } else {
        let kept = normalized_tags(tags.drop_last());
        let t = trim(tags.last());
        if kept.len() >= 2 || t.len() == 0 || kept.contains(t) {
            kept
        } else {
            kept.push(t)
        }
    }
}

/// A list of tags in normal form: at most two, each trimmed and non-empty,
/// no two equal.
pub open spec fn is_normal_tag_list(tags: Seq<Seq<char>>) -> bool {
    &&& tags.len() <= 2
    &&& forall|i: int| 0 <= i < tags.len() ==> #[trigger] tags[i].len() > 0 && trim(tags[i]) == tags[i]
    &&& forall|i: int, j: int| 0 <= i < j < tags.len() ==> tags[i] != tags[j]
}

/// The tags a new image starts with: none.
pub fn default_image_tags() -> (r: Vec<String>)
    ensures
        r@.len() == 0,
{
    Vec::new()
}

fn contains_string(v: &Vec<String>, s: &String) -> (b: bool)
    ensures
        b == v.deep_view().contains(s@),
{
    let n = v.len();
    let mut i: usize = 0;
    while i < n
        invariant
            i <= n == v@.len(),
            forall|k: int| 0 <= k < i ==> v@[k]@ != s@,
        decreases n - i,
    {
        if v[i] == *s {
            assert(v.deep_view()[i as int] == s@);
            return true;
        }
        i += 1;
    }
    proof {
        if v.deep_view().contains(s@) {
            let k = choose|k: int| 0 <= k < v.deep_view().len() && v.deep_view()[k] == s@;
            assert(v@[k]@ == s@);
        }
    }
    false
}

proof fn lemma_normalized_saturated(tags: Seq<Seq<char>>, k: int)
    requires
        0 <= k <= tags.len(),
        normalized_tags(tags.take(k)).len() >= 2,
    ensures
        normalized_tags(tags) == normalized_tags(tags.take(k)),
    decreases tags.len() - k,
{
    if k == tags.len() {
        assert(tags.take(k) =~= tags);
    } else {
        assert(tags.drop_last().take(k) =~= tags.take(k));
        lemma_normalized_saturated(tags.drop_last(), k);
    }
}

/// Trims each tag, drops empty ones and repeats, and keeps at most the
/// first two that remain.
pub fn normalize_image_tags(tags: Vec<String>) -> (r: Vec<String>)
    ensures
        r.deep_view() == normalized_tags(tags.deep_view()),
{
    let ghost tv = tags.deep_view();
    let mut normalized: Vec<String> = Vec::new();
    let n = tags.len();
    let mut i: usize = 0;
    assert(tv.take(n as int) =~= tv);
    while i < n
        invariant_except_break
            i <= n == tags@.len(),
            tv == tags.deep_view(),
            tv.take(n as int) == tv,
            normalized.deep_view() == normalized_tags(tv.take(i as int)),
            normalized@.len() < 2,
        ensures
            normalized.deep_view() == normalized_tags(tv),
        decreases n - i,
    {
        let tag = trimmed(tags[i].as_str());
        proof {
            assert(tv.take(i + 1).drop_last() =~= tv.take(i as int));
            assert(tv.take(i + 1).last() == tags@[i as int]@);
        }
        let skip = tag.as_str().is_empty() || contains_string(&normalized, &tag);
        if !skip {
            normalized.push(tag);
            assert(normalized.deep_view() =~= normalized_tags(tv.take(i + 1)));
        } else {
            proof {
                if tag@.len() != 0 {
                    assert(normalized_tags(tv.take(i as int)).contains(tag@));
                }
            }
        }
        i += 1;
        if normalized.len() == 2 {
            proof {
                lemma_normalized_saturated(tv, i as int);
            }
            break;
        }
    }
    normalized
}

} // verus!

verus! {

/// Normalising a list of tags that is already in normal form leaves it as
/// it is.
pub proof fn lemma_normal_list_fixed(tags: Seq<Seq<char>>)
    requires
        is_normal_tag_list(tags),
    ensures
        normalized_tags(tags) == tags,
    decreases tags.len(),
{
    if tags.len() > 0 {
        let init = tags.drop_last();
        assert(is_normal_tag_list(init)) by {
            assert forall|i: int| 0 <= i < init.len() implies #[trigger] init[i].len() > 0
                && trim(init[i]) == init[i] by {
                assert(init[i] == tags[i]);
            }
            assert forall|i: int, j: int| 0 <= i < j < init.len() implies init[i] != init[j] by {
                assert(init[i] == tags[i] && init[j] == tags[j]);
            }
        }
        lemma_normal_list_fixed(init);
        let last = tags.last();
        assert(tags[tags.len() - 1].len() > 0);
        assert(trim(last) == last);
        if init.contains(last) {
            let k = choose|k: int| 0 <= k < init.len() && init[k] == last;
            assert(tags[k] == tags[tags.len() - 1]);
        }
        assert(init.push(last) =~= tags);
    }
}

/// The list that `normalize_image_tags` returns is in normal form: at most
/// two tags, each trimmed and non-empty, no two equal.
pub proof fn lemma_normalized_is_normal(tags: Seq<Seq<char>>)
    ensures
        is_normal_tag_list(normalized_tags(tags)),
    decreases tags.len(),
{
    if tags.len() > 0 {
        lemma_normalized_is_normal(tags.drop_last());
        let kept = normalized_tags(tags.drop_last());
        let t = trim(tags.last());
        lemma_trim_idempotent(tags.last());
        if !(kept.len() >= 2 || t.len() == 0 || kept.contains(t)) {
            let r = kept.push(t);
            assert forall|i: int| 0 <= i < r.len() implies #[trigger] r[i].len() > 0 && trim(r[i])
                == r[i] by {
                if i < kept.len() {
                    assert(r[i] == kept[i]);
                }
            }
            assert forall|i: int, j: int| 0 <= i < j < r.len() implies r[i] != r[j] by {
                if j == kept.len() {
                    assert(r[i] == kept[i]);
                    assert(r[j] == t);
                } else {
                    assert(r[i] == kept[i] && r[j] == kept[j]);
                }
            }
        }
    }
}

proof fn lemma_normalized_prefix(tags: Seq<Seq<char>>, k: int)
    requires
        0 <= k <= tags.len(),
    ensures
        normalized_tags(tags.take(k)).len() <= normalized_tags(tags).len(),
        normalized_tags(tags).take(normalized_tags(tags.take(k)).len() as int) == normalized_tags(
            tags.take(k),
        ),
    decreases tags.len() - k,
{
    if k == tags.len() {
        assert(tags.take(k) =~= tags);
        assert(normalized_tags(tags).take(normalized_tags(tags).len() as int) =~= normalized_tags(tags));
    } else {
        lemma_normalized_prefix(tags, k + 1);
        let a = normalized_tags(tags.take(k));
        let b = normalized_tags(tags.take(k + 1));
        let all = normalized_tags(tags);
        assert(tags.take(k + 1).drop_last() =~= tags.take(k));
        assert(b == a || b == a.push(trim(tags[k])));
        assert(all.take(a.len() as int) =~= b.take(a.len() as int));
        assert(b.take(a.len() as int) =~= a);
    }
}

/// Normalising keeps the order of the tags: the first tag given, when it
/// is not blank, comes first, trimmed; and when the first two given are
/// not blank and differ once trimmed, they are exactly the two kept.
pub proof fn lemma_normalized_order(tags: Seq<Seq<char>>)
    ensures
        tags.len() > 0 && trim(tags[0]).len() > 0 ==> normalized_tags(tags).len() > 0
            && normalized_tags(tags)[0] == trim(tags[0]),
        tags.len() > 1 && trim(tags[0]).len() > 0 && trim(tags[1]).len() > 0 && trim(tags[0]) != trim(
            tags[1],
        ) ==> normalized_tags(tags) == seq![trim(tags[0]), trim(tags[1])],
{
    if tags.len() > 0 && trim(tags[0]).len() > 0 {
        lemma_normalized_prefix(tags, 1);
        let one = tags.take(1);
        assert(one.drop_last() =~= Seq::<Seq<char>>::empty());
        assert(normalized_tags(one.drop_last()) == Seq::<Seq<char>>::empty());
        assert(one.last() == tags[0]);
        assert(!Seq::<Seq<char>>::empty().contains(trim(tags[0])));
        assert(normalized_tags(one) =~= seq![trim(tags[0])]);
        assert(normalized_tags(tags).take(1)[0] == normalized_tags(tags)[0]);
        if tags.len() > 1 && trim(tags[1]).len() > 0 && trim(tags[0]) != trim(tags[1]) {
            lemma_normalized_prefix(tags, 2);
            let two = tags.take(2);
            assert(two.drop_last() =~= one);
            assert(two.last() == tags[1]);
            assert(!seq![trim(tags[0])].contains(trim(tags[1]))) by {
                if seq![trim(tags[0])].contains(trim(tags[1])) {
                    let k = choose|k: int| 0 <= k < 1 && seq![trim(tags[0])][k] == trim(tags[1]);
                }
            }
            assert(normalized_tags(two) =~= seq![trim(tags[0]), trim(tags[1])]);
            lemma_normalized_is_normal(tags);
            assert(normalized_tags(tags) =~= normalized_tags(tags).take(2));
        }
    }
}

/// Normalising tags that were already normalised changes nothing.
pub proof fn lemma_normalize_idempotent(tags: Seq<Seq<char>>)
    ensures
        normalized_tags(normalized_tags(tags)) == normalized_tags(tags),
{
    lemma_normalized_is_normal(tags);
    lemma_normal_list_fixed(normalized_tags(tags));
}

} // verus!

verus! {

/// The first tag, or the empty string when there is none.
pub fn primary_tag(tags: &[String]) -> (r: &str)
    ensures
        r@ == (if tags@.len() > 0 { tags@[0]@ } else { Seq::<char>::empty() }),
{
    if tags.len() > 0 {
        tags[0].as_str()
    } else {
        proof {
            reveal_strlit("");
        }
        ""
    }
}

/// The second tag, or the empty string when there is none.
pub fn secondary_tag(tags: &[String]) -> (r: &str)
    ensures
        r@ == (if tags@.len() > 1 { tags@[1]@ } else { Seq::<char>::empty() }),
{
    if tags.len() > 1 {
        tags[1].as_str()
    } else {
        proof {
            reveal_strlit("");
        }
        ""
    }
}

/// The text that names the tags of an image: `No tag` when it has none,
/// else the tags joined by ` + `.
pub open spec fn tags_label_text(tags: Seq<Seq<char>>) -> Seq<char> {
    if tags.len() == 0 {
        "No tag"@
    } else {
        joined(tags, " + "@)
    }
}

/// `No tag` when there are no tags, else the tags joined by ` + `.
pub fn tags_label(tags: &[String]) -> (r: String)
    ensures
        r@ == tags_label_text(tags.deep_view()),
{
    if tags.len() == 0 {
        String::from_str("No tag")
    } else {
        join_strings(tags, " + ")
    }
}

/// The label of at most two tags shows the primary tag, then, when there
/// is one, ` + ` and the secondary tag; with no tag it reads `No tag`.
pub proof fn lemma_label_of_two_tags(tags: Seq<Seq<char>>)
    ensures
        tags.len() == 0 ==> tags_label_text(tags) == "No tag"@,
        tags.len() == 1 ==> tags_label_text(tags) == tags[0],
        tags.len() == 2 ==> tags_label_text(tags) == tags[0] + " + "@ + tags[1],
{
    if tags.len() == 2 {
        assert(tags.drop_last().len() == 1);
        assert(tags.drop_last()[0] == tags[0]);
        assert(joined(tags.drop_last(), " + "@) == tags[0]);
        assert(tags.last() == tags[1]);
    }
}

} // verus!

verus! {

/// One (frequency, weight) measurement of an image. Both values are
/// IEEE-754 `f64` numbers held as their bit patterns (`f64::to_bits`);
/// `None` is a blank entry.
#[derive(Clone, Copy, Debug, PartialEq, Eq, Structural)]
pub struct FrequencyWeightPair {
    pub frequency_bits: Option<u64>,
    pub weight_bits: Option<u64>,
}

impl FrequencyWeightPair {
    /// A pair with neither value set.
    pub fn blank() -> (r: Self)
        ensures
            r == blank_pair(),
    {
        FrequencyWeightPair { frequency_bits: None, weight_bits: None }
    }
}

/// The pair with neither value set.
pub open spec fn blank_pair() -> FrequencyWeightPair {
    FrequencyWeightPair { frequency_bits: None, weight_bits: None }
}

/// The pairs a new image starts with: three blank ones.
pub open spec fn default_pairs() -> Seq<FrequencyWeightPair> {
    seq![blank_pair(), blank_pair(), blank_pair()]
}

/// Three blank pairs.
pub fn default_frequency_weight_pairs() -> (r: Vec<FrequencyWeightPair>)
    ensures
        r@ == default_pairs(),
{
    let r = vec![
        FrequencyWeightPair::blank(),
        FrequencyWeightPair::blank(),
        FrequencyWeightPair::blank(),
    ];
    assert(r@ =~= default_pairs());
    r
}

/// A named tag and its colour hue in degrees; the hue is an `f64` held as
/// its bit pattern.
#[derive(Clone, Debug, PartialEq)]
pub struct TagDefinition {
    pub name: String,
    pub hue_bits: u64,
}

impl View for TagDefinition {
    type V = (Seq<char>, u64);

    open spec fn view(&self) -> (Seq<char>, u64) {
        (self.name@, self.hue_bits)
    }
}

/// An image of the gallery with what was recorded about it. `id` is the
/// 128-bit value of its UUID; `ib_bits`, `frequency_bits` and
/// `weight_bits` are `f64` values held as their bit patterns; the
/// timestamps are milliseconds since the Unix epoch.
#[derive(Clone, Debug, PartialEq)]
pub struct ImageRecord {
    pub id: u128,
    pub image_data: String,
    pub image_path: String,
    pub ib_bits: u64,
    pub source: String,
    pub source_tag: String,
    pub tags: Vec<String>,
    pub index: i32,
    pub freq_weight_pairs: Vec<FrequencyWeightPair>,
    pub frequency_bits: u64,
    pub weight_bits: u64,
    pub created_at: i64,
    pub updated_at: i64,
}

/// The value of an [`ImageRecord`], its strings taken as character sequences.
pub struct RecordView {
    pub id: u128,
    pub image_data: Seq<char>,
    pub image_path: Seq<char>,
    pub ib_bits: u64,
    pub source: Seq<char>,
    pub source_tag: Seq<char>,
    pub tags: Seq<Seq<char>>,
    pub index: i32,
    pub freq_weight_pairs: Seq<FrequencyWeightPair>,
    pub frequency_bits: u64,
    pub weight_bits: u64,
    pub created_at: i64,
    pub updated_at: i64,
}

impl View for ImageRecord {
    type V = RecordView;

    open spec fn view(&self) -> RecordView {
        RecordView {
            id: self.id,
            image_data: self.image_data@,
            image_path: self.image_path@,
            ib_bits: self.ib_bits,
            source: self.source@,
            source_tag: self.source_tag@,
            tags: self.tags.deep_view(),
            index: self.index,
            freq_weight_pairs: self.freq_weight_pairs@,
            frequency_bits: self.frequency_bits,
            weight_bits: self.weight_bits,
            created_at: self.created_at,
            updated_at: self.updated_at,
        }
    }
}

/// A freshly added image: `image_data` as given, its path and its source
/// both the file name, no tags, index 0, IB, frequency and weight 0.0,
/// three blank pairs, both timestamps `now`.
pub open spec fn fresh_record(id: u128, image_data: Seq<char>, source: Seq<char>, now: i64) -> RecordView {
    RecordView {
        id,
        image_data,
        image_path: source,
        ib_bits: 0,
        source,
        source_tag: Seq::empty(),
        tags: Seq::empty(),
        index: 0,
        freq_weight_pairs: default_pairs(),
        frequency_bits: 0,
        weight_bits: 0,
        created_at: now,
        updated_at: now,
    }
}

impl ImageRecord {
    /// A new record for an image that was just read, with a fresh random
    /// UUID (version 4) and both timestamps set to `now`.
    pub fn new(image_data: String, source: String, now: i64) -> (r: Self)
        ensures
            r@ == fresh_record(r.id, image_data@, source@, now),
            (r.id >> 76u128) & 0xfu128 == 4,
            (r.id >> 62u128) & 0x3u128 == 2,
    {
        let id = new_random_id();
        let image_path = source.clone();
        let r = ImageRecord {
            id,
            image_data,
            image_path,
            ib_bits: 0,
            source,
            source_tag: String::new(),
            tags: default_image_tags(),
            index: 0,
            freq_weight_pairs: default_frequency_weight_pairs(),
            frequency_bits: 0,
            weight_bits: 0,
            created_at: now,
            updated_at: now,
        };
        assert(r.tags.deep_view() =~= Seq::<Seq<char>>::empty());
        r
    }
}

/// The bit patterns of the hues of the ten default tags: 15, 50, 85, ...,
/// 330 degrees, 35 degrees apart.
pub open spec fn default_hue_bits() -> Seq<u64> {
    seq![
        0x402e000000000000u64,
        0x4049000000000000u64,
        0x4055400000000000u64,
        0x405e000000000000u64,
        0x4063600000000000u64,
        0x4067c00000000000u64,
        0x406c200000000000u64,
        0x4070400000000000u64,
        0x4072700000000000u64,
        0x4074a00000000000u64,
    ]
}

/// The ten tags defined at first: `tag1` to `tag10`, with the hues of
/// `default_hue_bits` in order.
pub open spec fn default_tags() -> Seq<(Seq<char>, u64)> {
    Seq::new(10, |i: int| ("tag"@ + decimal((i + 1) as nat), default_hue_bits()[i]))
}

/// The views of a list of tag definitions.
pub open spec fn tag_views(tags: Seq<TagDefinition>) -> Seq<(Seq<char>, u64)> {
    tags.map_values(|t: TagDefinition| t@)
}

/// The ten tags defined at first: `tag1` to `tag10`, their hues 15 to 330
/// degrees, 35 apart.
pub fn default_tag_definitions() -> (r: Vec<TagDefinition>)
    ensures
        tag_views(r@) == default_tags(),
        r@.len() == 10,
        crate::gallery::is_valid_tag_list(r@),
{
    let hues: [u64; 10] = [
        0x402e000000000000,
        0x4049000000000000,
        0x4055400000000000,
        0x405e000000000000,
        0x4063600000000000,
        0x4067c00000000000,
        0x406c200000000000,
        0x4070400000000000,
        0x4072700000000000,
        0x4074a00000000000,
    ];
    assert(hues@ =~= default_hue_bits());
    let mut r: Vec<TagDefinition> = Vec::new();
    for i in 0..10usize
        invariant
            hues@ == default_hue_bits(),
            r@.len() == i,
            forall|k: int| 0 <= k < i ==> #[trigger] r@[k]@ == default_tags()[k],
    {
        let mut name = String::from_str("tag");
        push_decimal(&mut name, i + 1);
        r.push(TagDefinition { name, hue_bits: hues[i] });
    }
    assert(tag_views(r@) =~= default_tags());
    proof {
        assert forall|a: int, b: int| 0 <= a < b < r@.len() implies r@[a].name@ != r@[b].name@ by {
            assert(r@[a]@ == default_tags()[a] && r@[b]@ == default_tags()[b]);
            if r@[a].name@ == r@[b].name@ {
                reveal_strlit("tag");
                let na = "tag"@ + decimal((a + 1) as nat);
                let nb = "tag"@ + decimal((b + 1) as nat);
                assert(na.skip(3) =~= decimal((a + 1) as nat));
                assert(nb.skip(3) =~= decimal((b + 1) as nat));
                lemma_decimal_digits((a + 1) as nat);
                lemma_decimal_digits((b + 1) as nat);
            }
        }
    }
    r
}

} // verus!

verus! {

/// A copy of a list of tags.
pub fn clone_tags(v: &Vec<String>) -> (r: Vec<String>)
    ensures
        r.deep_view() == v.deep_view(),
{
    let mut r: Vec<String> = Vec::new();
    let n = v.len();
    for i in 0..n
        invariant
            n == v@.len(),
            r@.len() == i,
            forall|k: int| 0 <= k < i ==> #[trigger] r@[k]@ == v@[k]@,
    {
        r.push(v[i].clone());
    }
    assert(r.deep_view() =~= v.deep_view());
    r
}

/// A copy of a list of pairs.
pub fn copy_pairs(v: &Vec<FrequencyWeightPair>) -> (r: Vec<FrequencyWeightPair>)
    ensures
        r@ == v@,
{
    let mut r: Vec<FrequencyWeightPair> = Vec::new();
    let n = v.len();
    for i in 0..n
        invariant
            n == v@.len(),
            r@ == v@.take(i as int),
    {
        r.push(v[i]);
        assert(r@ =~= v@.take(i + 1));
    }
    assert(v@.take(n as int) =~= v@);
    r
}

/// A copy of a list of tag definitions.
pub fn clone_tag_definitions(v: &[TagDefinition]) -> (r: Vec<TagDefinition>)
    ensures
        r@ == v@,
{
    let mut r: Vec<TagDefinition> = Vec::new();
    let n = v.len();
    for i in 0..n
        invariant
            n == v@.len(),
            r@ == v@.take(i as int),
    {
        r.push(TagDefinition { name: v[i].name.clone(), hue_bits: v[i].hue_bits });
        assert(r@ =~= v@.take(i + 1));
    }
    assert(v@.take(n as int) =~= v@);
    r
}

/// The views of a list of records.
pub open spec fn record_views(records: Seq<ImageRecord>) -> Seq<RecordView> {
    records.map_values(|r: ImageRecord| r@)
}

} // verus!

verus! {

/// Normalising invents no tag: each tag it keeps is one of the given tags,
/// trimmed.
pub proof fn lemma_normalized_from_input(tags: Seq<Seq<char>>)
    ensures
        forall|i: int|
            0 <= i < normalized_tags(tags).len() ==> tags.map_values(|t: Seq<char>| trim(t)).contains(
                #[trigger] normalized_tags(tags)[i],
            ),
    decreases tags.len(),
{
    if tags.len() > 0 {
        let init = tags.drop_last();
        lemma_normalized_from_input(init);
        let trimmed_all = tags.map_values(|t: Seq<char>| trim(t));
        let trimmed_init = init.map_values(|t: Seq<char>| trim(t));
        let out = normalized_tags(tags);
        let kept = normalized_tags(init);
        assert forall|i: int| 0 <= i < out.len() implies trimmed_all.contains(#[trigger] out[i]) by {
            if i < kept.len() {
                assert(out[i] == kept[i]);
                assert(trimmed_init.contains(kept[i]));
                let j = choose|j: int| 0 <= j < trimmed_init.len() && trimmed_init[j] == kept[i];
                assert(trimmed_all[j] == trimmed_init[j]);
            } else {
                assert(out[i] == trim(tags.last()));
                assert(trimmed_all[tags.len() - 1] == trim(tags.last()));
            }
        }
    }
}

} // verus!
