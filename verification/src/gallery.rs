//! Editing the tag definitions and the gallery list, and the rules that
//! pick what the scatter plot and the gallery cards show.

use vstd::prelude::*;
use vstd::string::*;
use crate::models::{
    normalize_image_tags, normalized_tags, primary_tag, secondary_tag, blank_pair,
    is_normal_tag_list, lemma_normalized_is_normal, default_frequency_weight_pairs, default_pairs, RecordView, default_tag_definitions, default_tags, tag_views, FrequencyWeightPair, ImageRecord,
    TagDefinition, MAX_TAGS,
};
use crate::text::{same_text, trim, trimmed};
use crate::upload::{parse_i32, parsed_i32};

verus! {

/// The names of a list of tag definitions.
pub open spec fn tag_names(tags: Seq<TagDefinition>) -> Seq<Seq<char>> {
    tags.map_values(|t: TagDefinition| t.name@)
}

/// A list of tag definitions as the tag editor keeps it: at most
/// `MAX_TAGS` of them, no two with the same name.
pub open spec fn is_valid_tag_list(tags: Seq<TagDefinition>) -> bool {
    &&& tags.len() <= MAX_TAGS
    &&& forall|i: int, j: int| 0 <= i < j < tags.len() ==> tags[i].name@ != tags[j].name@
}

/// Whether some tag of the list is named `name`.
pub fn has_tag_named(tags: &Vec<TagDefinition>, name: &str) -> (b: bool)
    ensures
        b == tag_names(tags@).contains(name@),
{
    let n = tags.len();
    let mut i: usize = 0;
    while i < n
        invariant
            i <= n == tags@.len(),
            forall|k: int| 0 <= k < i ==> tags@[k].name@ != name@,
        decreases n - i,
    {
        if same_text(tags[i].name.as_str(), name) {
            assert(tag_names(tags@)[i as int] == name@);
            return true;
        }
        i += 1;
    }
    proof {
        if tag_names(tags@).contains(name@) {
            let k = choose|k: int| 0 <= k < tag_names(tags@).len() && tag_names(tags@)[k] == name@;
            assert(tags@[k].name@ == name@);
        }
    }
    false
}

/// Adds the tag `raw_name`, trimmed, with the given hue. Nothing is added
/// when the trimmed name is empty, when `MAX_TAGS` tags are defined
/// already, or when a tag of that name exists; the result says whether the
/// tag was added. A list with at most `MAX_TAGS` tags and no repeated name
/// stays so.
pub fn add_tag_definition(tags: &mut Vec<TagDefinition>, raw_name: &str, hue_bits: u64) -> (added: bool)
    ensures
        added == (trim(raw_name@).len() > 0 && old(tags)@.len() < MAX_TAGS && !tag_names(
            old(tags)@,
        ).contains(trim(raw_name@))),
        added ==> tag_views(final(tags)@) == tag_views(old(tags)@).push((trim(raw_name@), hue_bits)),
        !added ==> final(tags)@ == old(tags)@,
        is_valid_tag_list(old(tags)@) ==> is_valid_tag_list(final(tags)@),
{
    let name = trimmed(raw_name);
    if name.as_str().is_empty() || tags.len() >= MAX_TAGS || has_tag_named(tags, name.as_str()) {
        return false;
    }
    let ghost before = tags@;
    tags.push(TagDefinition { name, hue_bits });
    proof {
        assert(tag_views(tags@) =~= tag_views(before).push((trim(raw_name@), hue_bits)));
        if is_valid_tag_list(before) {
            assert forall|i: int, j: int| 0 <= i < j < tags@.len() implies tags@[i].name@
                != tags@[j].name@ by {
                if j == before.len() {
                    assert(tag_names(before)[i] == before[i].name@);
                } else {
                    assert(tags@[i] == before[i] && tags@[j] == before[j]);
                }
            }
        }
    }
    true
}

/// The first tag of the list named `name` gets the hue `hue_bits`; the
/// rest of the list is unchanged.
pub fn set_tag_hue(tags: &mut Vec<TagDefinition>, name: &str, hue_bits: u64)
    ensures
        final(tags)@.len() == old(tags)@.len(),
        tag_names(final(tags)@) == tag_names(old(tags)@),
        is_valid_tag_list(old(tags)@) ==> is_valid_tag_list(final(tags)@),
        forall|i: int|
            0 <= i < old(tags)@.len() ==> #[trigger] final(tags)@[i].hue_bits == (if old(tags)@[i].name@
                == name@ && forall|k: int| 0 <= k < i ==> old(tags)@[k].name@ != name@ {
                hue_bits
            } else {
                old(tags)@[i].hue_bits
            }),
{
    let n = tags.len();
    let mut i: usize = 0;
    while i < n
        invariant
            i <= n == old(tags)@.len(),
            tags@ == old(tags)@,
            forall|k: int| 0 <= k < i ==> old(tags)@[k].name@ != name@,
        decreases n - i,
    {
        if same_text(tags[i].name.as_str(), name) {
            let ghost before = tags@;
            let mut t = tags.remove(i);
            t.hue_bits = hue_bits;
            tags.insert(i, t);
            assert(tag_names(tags@) =~= tag_names(before));
            proof {
                if is_valid_tag_list(before) {
                    assert forall|a: int, b: int| 0 <= a < b < tags@.len() implies tags@[a].name@
                        != tags@[b].name@ by {
                        assert(tag_names(tags@)[a] == tag_names(before)[a]);
                        assert(tag_names(tags@)[b] == tag_names(before)[b]);
                    }
                }
            }
            return;
        }
        i += 1;
    }
}

/// Removes every tag named `name`, keeping the others in order.
pub fn remove_tag_definition(tags: &mut Vec<TagDefinition>, name: &str)
    ensures
        final(tags)@ == old(tags)@.filter(|t: TagDefinition| t.name@ != name@),
        is_valid_tag_list(old(tags)@) ==> is_valid_tag_list(final(tags)@),
{
    let ghost start = tags@;
    let mut kept: Vec<TagDefinition> = Vec::new();
    let n = tags.len();
    let mut i: usize = 0;
    while i < n
        invariant
            i <= n == start.len(),
            tags@ == start.skip(i as int),
            kept@ == start.take(i as int).filter(|t: TagDefinition| t.name@ != name@),
            kept@.len() <= i,
            is_valid_tag_list(start) ==> is_valid_tag_list(kept@) && forall|k: int|
                0 <= k < kept@.len() ==> tag_names(start.take(i as int)).contains(
                    #[trigger] kept@[k].name@,
                ),
        decreases n - i,
    {
        let ghost before = kept@;
        let t = tags.remove(0);
        proof {
            assert(start.take(i + 1).drop_last() =~= start.take(i as int));
            assert(start.take(i + 1).last() == t);
            reveal_with_fuel(Seq::<TagDefinition>::filter, 1);
        }
        if !same_text(t.name.as_str(), name) {
            kept.push(t);
        }
        proof {
            if is_valid_tag_list(start) {
                let names_next = tag_names(start.take(i + 1));
                assert forall|k: int| 0 <= k < kept@.len() implies names_next.contains(
                    #[trigger] kept@[k].name@,
                ) by {
                    if k < before.len() {
                        let names_before = tag_names(start.take(i as int));
                        assert(names_before.contains(before[k].name@));
                        let j = choose|j: int| 0 <= j < names_before.len() && names_before[j] == before[k].name@;
                        assert(names_next[j] == names_before[j]);
                    } else {
                        assert(names_next[i as int] == start[i as int].name@);
                    }
                }
                assert forall|a: int, b: int| 0 <= a < b < kept@.len() implies kept@[a].name@
                    != kept@[b].name@ by {
                    if b == before.len() {
                        let names_before = tag_names(start.take(i as int));
                        assert(names_before.contains(before[a].name@));
                        let j = choose|j: int| 0 <= j < names_before.len() && names_before[j] == before[a].name@;
                        assert(start[j].name@ == names_before[j]);
                        assert(kept@[b] == start[i as int]);
                    } else {
                        assert(kept@[a] == before[a] && kept@[b] == before[b]);
                    }
                }
            }
        }
        i += 1;
        assert(tags@ =~= start.skip(i as int));
    }
    assert(start.take(n as int) =~= start);
    *tags = kept;
}

/// The tag definitions an import leaves: those imported, or the ten
/// default ones when the import held none.
pub fn tags_or_defaults(imported: Vec<TagDefinition>) -> (r: Vec<TagDefinition>)
    ensures
        imported@.len() > 0 ==> r@ == imported@,
        imported@.len() == 0 ==> tag_views(r@) == default_tags(),
{
    if imported.len() == 0 {
        default_tag_definitions()
    } else {
        imported
    }
}

} // verus!

verus! {

/// Removes the records with the given id, keeping the others in order.
pub fn remove_record(records: &mut Vec<ImageRecord>, id: u128)
    ensures
        final(records)@ == old(records)@.filter(|r: ImageRecord| r.id != id),
{
    let mut all: Vec<ImageRecord> = Vec::new();
    std::mem::swap(records, &mut all);
    let ghost start = all@;
    for r in it: all.into_iter()
        invariant
            it.seq() == start,
            records@ == start.take(it.index() as int).filter(|r: ImageRecord| r.id != id),
    {
        let ghost k = it.index() as int;
        proof {
            assert(start.take(k + 1).drop_last() =~= start.take(k));
            assert(start.take(k + 1).last() == r);
            reveal_with_fuel(Seq::<ImageRecord>::filter, 1);
        }
        if r.id != id {
            records.push(r);
        }
    }
    assert(start.take(start.len() as int) =~= start);
}

/// The position of the first record with the given id.
pub fn find_record_index(records: &[ImageRecord], id: u128) -> (r: Option<usize>)
    ensures
        r matches Some(i) ==> i < records@.len() && records@[i as int].id == id && forall|k: int|
            0 <= k < i ==> records@[k].id != id,
        r is None ==> forall|k: int| 0 <= k < records@.len() ==> records@[k].id != id,
{
    let n = records.len();
    let mut i: usize = 0;
    while i < n
        invariant
            i <= n == records@.len(),
            forall|k: int| 0 <= k < i ==> records@[k].id != id,
        decreases n - i,
    {
        if records[i].id == id {
            return Some(i);
        }
        i += 1;
    }
    None
}

/// The number of pairs of a record that have a frequency; a record with
/// none is shown as having no frequency.
pub open spec fn active_pairs(pairs: Seq<FrequencyWeightPair>) -> nat {
    pairs.filter(|p: FrequencyWeightPair| p.frequency_bits is Some).len()
}

/// Counts the pairs that have a frequency.
pub fn active_pair_count(pairs: &[FrequencyWeightPair]) -> (r: usize)
    ensures
        r == active_pairs(pairs@),
{
    let n = pairs.len();
    let mut count: usize = 0;
    let mut i: usize = 0;
    while i < n
        invariant
            i <= n == pairs@.len(),
            count == active_pairs(pairs@.take(i as int)),
            count <= i,
        decreases n - i,
    {
        proof {
            assert(pairs@.take(i + 1).drop_last() =~= pairs@.take(i as int));
            reveal_with_fuel(Seq::<FrequencyWeightPair>::filter, 1);
        }
        if pairs[i].frequency_bits.is_some() {
            count += 1;
        }
        i += 1;
    }
    assert(pairs@.take(n as int) =~= pairs@);
    count
}

/// The scatter plot's tag filter that shows every image.
pub open spec fn all_tags_text() -> Seq<char> {
    "__all__"@
}

/// The scatter plot's tag filter that shows the images without a tag.
pub open spec fn untagged_text() -> Seq<char> {
    "__untagged__"@
}

/// The tag filter that shows every image.
pub fn all_tags_filter() -> (r: String)
    ensures
        r@ == all_tags_text(),
{
    String::from_str("__all__")
}

/// The default scale of both axes.
pub fn linear_axis() -> (r: String)
    ensures
        r@ == "linear"@,
{
    String::from_str("linear")
}

/// Whether an image with `tags` passes the tag filter `filter`: every
/// image for `__all__`, the untagged ones for `__untagged__`, else those
/// that have a tag of that name.
pub open spec fn passes_tag_filter(tags: Seq<Seq<char>>, filter: Seq<char>) -> bool {
    if filter == all_tags_text() {
        true
    } else if filter == untagged_text() {
        tags.len() == 0
    } else {
        tags.contains(filter)
    }
}

/// Tests an image's tags against the scatter plot's tag filter; see
/// `passes_tag_filter`.
pub fn tag_filter_matches(tags: &[String], filter: &str) -> (b: bool)
    ensures
        b == passes_tag_filter(tags.deep_view(), filter@),
{
    if same_text(filter, "__all__") {
        true
    } else if same_text(filter, "__untagged__") {
        tags.len() == 0
    } else {
        let n = tags.len();
        let mut i: usize = 0;
        while i < n
            invariant
                i <= n == tags@.len(),
                filter@ != all_tags_text(),
                filter@ != untagged_text(),
                forall|k: int| 0 <= k < i ==> tags@[k]@ != filter@,
            decreases n - i,
        {
            if same_text(tags[i].as_str(), filter) {
                assert(tags.deep_view()[i as int] == filter@);
                return true;
            }
            i += 1;
        }
        proof {
            if tags.deep_view().contains(filter@) {
                let k = choose|k: int| 0 <= k < tags.deep_view().len() && tags.deep_view()[k] == filter@;
                assert(tags@[k]@ == filter@);
            }
        }
        false
    }
}

/// The tag whose colour a plotted image takes: its primary tag when the
/// filter is `__all__` or `__untagged__`, else the filtered tag.
pub open spec fn color_tag_of(tags: Seq<Seq<char>>, filter: Seq<char>) -> Seq<char> {
    if filter == all_tags_text() || filter == untagged_text() {
        if tags.len() > 0 {
            tags[0]
        } else {
            Seq::empty()
        }
    } else {
        filter
    }
}

/// The tag whose colour a plotted image takes; see `color_tag_of`.
pub fn color_tag<'a>(tags: &'a [String], filter: &'a str) -> (r: &'a str)
    ensures
        r@ == color_tag_of(tags.deep_view(), filter@),
{
    if same_text(filter, "__all__") || same_text(filter, "__untagged__") {
        crate::models::primary_tag(tags)
    } else {
        filter
    }
}

} // verus!

verus! {

/// The points that one image gives the scatter plot: for each of its
/// pairs that has a frequency, in order, the image's position and the
/// pair's position.
pub open spec fn pair_sources(image: usize, pairs: Seq<FrequencyWeightPair>) -> Seq<(usize, usize)>
    decreases pairs.len(),
{
    if pairs.len() == 0 {
        seq![]
    } else {
        let earlier = pair_sources(image, pairs.drop_last());
        if pairs.last().frequency_bits is Some {
            earlier.push((image, (pairs.len() - 1) as usize))
        } else {
            earlier
        }
    }
}

/// The points of the scatter plot, in order: those of each image that
/// passes the tag filter.
pub open spec fn plot_sources(records: Seq<ImageRecord>, filter: Seq<char>) -> Seq<(usize, usize)>
    decreases records.len(),
{
    if records.len() == 0 {
        seq![]
    } else {
        let earlier = plot_sources(records.drop_last(), filter);
        let last = records.last();
        if passes_tag_filter(last.tags.deep_view(), filter) {
            earlier + pair_sources((records.len() - 1) as usize, last.freq_weight_pairs@)
        } else {
            earlier
        }
    }
}

/// Picks the points of the scatter plot: (image position, pair position)
/// for each pair with a frequency of each image that passes the tag
/// filter; see `plot_sources`.
pub fn plot_point_sources(images: &[ImageRecord], filter: &str) -> (r: Vec<(usize, usize)>)
    ensures
        r@ == plot_sources(images@, filter@),
{
    let mut r: Vec<(usize, usize)> = Vec::new();
    let n = images.len();
    for i in 0..n
        invariant
            n == images@.len(),
            r@ == plot_sources(images@.take(i as int), filter@),
    {
        let ghost before = r@;
        proof {
            assert(images@.take(i + 1).drop_last() =~= images@.take(i as int));
            assert(images@.take(i + 1).last() == images@[i as int]);
        }
        if tag_filter_matches(images[i].tags.as_slice(), filter) {
            let pairs = &images[i].freq_weight_pairs;
            let m = pairs.len();
            for j in 0..m
                invariant
                    m == pairs@.len(),
                    r@ == before + pair_sources(i, pairs@.take(j as int)),
            {
                proof {
                    assert(pairs@.take(j + 1).drop_last() =~= pairs@.take(j as int));
                }
                if pairs[j].frequency_bits.is_some() {
                    r.push((i, j));
                    assert(r@ =~= before + pair_sources(i, pairs@.take(j + 1)));
                } else {
                    assert(r@ =~= before + pair_sources(i, pairs@.take(j + 1)));
                }
            }
            assert(pairs@.take(m as int) =~= pairs@);
        }
    }
    assert(images@.take(n as int) =~= images@);
    r
}

/// The colour that `colors` gives the tag `name`: that of its last entry
/// for the name, as a map collected from the list keeps it.
pub open spec fn color_lookup(colors: Seq<(String, String)>, name: Seq<char>) -> Option<Seq<char>>
    decreases colors.len(),
{
    if colors.len() == 0 {
        None
    } else if colors.last().0@ == name {
        Some(colors.last().1@)
    } else {
        color_lookup(colors.drop_last(), name)
    }
}

/// The colour of the tag `name`, or `transparent` when it has none.
pub open spec fn color_or_transparent(colors: Seq<(String, String)>, name: Seq<char>) -> Seq<char> {
    match color_lookup(colors, name) {
        Some(c) => c,
        None => "transparent"@,
    }
}

/// Looks up the colour of the tag `name`; see `color_lookup`.
pub fn lookup_color(colors: &[(String, String)], name: &str) -> (r: Option<String>)
    ensures
        match r {
            Some(c) => color_lookup(colors@, name@) == Some(c@),
            None => color_lookup(colors@, name@) is None,
        },
{
    let mut k = colors.len();
    assert(colors@.take(k as int) =~= colors@);
    while k > 0
        invariant
            k <= colors@.len(),
            color_lookup(colors@, name@) == color_lookup(colors@.take(k as int), name@),
        decreases k,
    {
        proof {
            assert(colors@.take(k as int).drop_last() =~= colors@.take(k - 1));
            assert(colors@.take(k as int).last() == colors@[k - 1]);
        }
        if same_text(colors[k - 1].0.as_str(), name) {
            return Some(colors[k - 1].1.clone());
        }
        k -= 1;
    }
    None
}

fn color_text(colors: &[(String, String)], name: &str) -> (r: String)
    ensures
        r@ == color_or_transparent(colors@, name@),
{
    match lookup_color(colors, name) {
        Some(c) => c,
        None => String::from_str("transparent"),
    }
}

/// The style of the small disk that shows an image's tags: transparent
/// without a tag, the tag's colour for one tag, and a half-and-half
/// gradient of the first two tags' colours otherwise.
pub open spec fn tag_disk_css(tags: Seq<Seq<char>>, colors: Seq<(String, String)>) -> Seq<char> {
    if tags.len() == 0 {
        "background: transparent;"@
    } else if tags.len() == 1 {
        "background:"@ + color_or_transparent(colors, tags[0]) + ";"@
    } else {
        "background: linear-gradient(90deg, "@ + color_or_transparent(colors, tags[0])
            + " 0 50%, "@ + color_or_transparent(colors, tags[1]) + " 50% 100%);"@
    }
}

/// The style of the disk that shows an image's tags; see `tag_disk_css`.
pub fn tag_disk_style(tags: &[String], colors: &[(String, String)]) -> (r: String)
    ensures
        r@ == tag_disk_css(tags.deep_view(), colors@),
{
    if tags.len() == 0 {
        String::from_str("background: transparent;")
    } else if tags.len() == 1 {
        let mut r = String::from_str("background:");
        let c = color_text(colors, tags[0].as_str());
        r.append(c.as_str());
        r.append(";");
        r
    } else {
        let mut r = String::from_str("background: linear-gradient(90deg, ");
        let first = color_text(colors, tags[0].as_str());
        r.append(first.as_str());
        r.append(" 0 50%, ");
        let second = color_text(colors, tags[1].as_str());
        r.append(second.as_str());
        r.append(" 50% 100%);");
        r
    }
}

} // verus!

verus! {

/// The tag at position `k` of a list of tags, or the empty text when the
/// list is shorter: what a tag selector of the details panel shows.
pub open spec fn tag_or_empty(tags: Seq<Seq<char>>, k: int) -> Seq<char> {
    if 0 <= k < tags.len() {
        tags[k]
    } else {
        Seq::<char>::empty()
    }
}

/// The tags that choosing `value` in a tag selector leaves: the normalised
/// list of the two selectors, the chosen one at position `k` (0 for the
/// first selector, 1 for the second) and the other one as it was.
pub open spec fn selected_tags(tags: Seq<Seq<char>>, k: int, value: Seq<char>) -> Seq<Seq<char>> {
    if k == 0 {
        normalized_tags(seq![value, tag_or_empty(tags, 1)])
    } else {
        normalized_tags(seq![tag_or_empty(tags, 0), value])
    }
}

/// The record that an edit of a field of the details panel leaves, when
/// the edit changes something: `add_pair` appends a blank pair,
/// `clear_pairs` puts back the three blank pairs, `tag_primary` and
/// `tag_secondary` set the tags to those the two selectors then show (see
/// `selected_tags`) when they differ, `source` and `source_tag` take the new
/// text when it differs, `index` takes the number the text writes when it
/// parses and differs. `None` when nothing changes, including for any other
/// field.
pub open spec fn edited_record(r: RecordView, field: Seq<char>, value: Seq<char>) -> Option<RecordView> {
    if field == "tag_primary"@ || field == "tag_secondary"@ {
        let t = selected_tags(r.tags, if field == "tag_primary"@ { 0 } else { 1 }, value);
        if t != r.tags {
            Some(RecordView { tags: t, ..r })
        } else {
            None
        }
    } else if field == "add_pair"@ {
        Some(RecordView { freq_weight_pairs: r.freq_weight_pairs.push(blank_pair()), ..r })
    } else if field == "clear_pairs"@ {
        Some(RecordView { freq_weight_pairs: default_pairs(), ..r })
    } else if field == "source"@ {
        if r.source != value {
            Some(RecordView { source: value, ..r })
        } else {
            None
        }
    } else if field == "source_tag"@ {
        if r.source_tag != value {
            Some(RecordView { source_tag: value, ..r })
        } else {
            None
        }
    } else if field == "index"@ {
        match parsed_i32(value) {
            Some(v) => if v != r.index {
                Some(RecordView { index: v, ..r })
            } else {
                None
            },
            None => None,
        }
    } else {
        None
    }
}

/// Whether two lists of tags hold the same texts in the same order.
fn same_tag_lists(a: &Vec<String>, b: &Vec<String>) -> (r: bool)
    ensures
        r == (a.deep_view() == b.deep_view()),
{
    if a.len() != b.len() {
        proof {
            assert(a.deep_view().len() != b.deep_view().len());
        }
        return false;
    }
    let n = a.len();
    let mut i: usize = 0;
    while i < n
        invariant
            n == a@.len() == b@.len(),
            i <= n,
            forall|k: int| 0 <= k < i ==> #[trigger] a@[k]@ == b@[k]@,
        decreases n - i,
    {
        if a[i] != b[i] {
            proof {
                assert(a.deep_view()[i as int] != b.deep_view()[i as int]);
            }
            return false;
        }
        i += 1;
    }
    assert(a.deep_view() =~= b.deep_view());
    true
}

/// Applies an edit made in the details panel to the selected record; see
/// `edited_record`. When the edit changes the record, its update time
/// becomes `now` and the result is `true`; otherwise the record is left as
/// it was and the result is `false`.
pub fn update_record_field(item: &mut ImageRecord, field: &str, value: String, now: i64) -> (changed: bool)
    ensures
        changed == edited_record(old(item)@, field@, value@) is Some,
        match edited_record(old(item)@, field@, value@) {
            Some(e) => final(item)@ == RecordView { updated_at: now, ..e },
            None => final(item)@ == old(item)@,
        },
{
    let ghost given = value@;
    let is_primary = same_text(field, "tag_primary");
    let changed = if is_primary || same_text(field, "tag_secondary") {
        let chosen = if is_primary {
            vec![value, String::from_str(secondary_tag(item.tags.as_slice()))]
        } else {
            vec![String::from_str(primary_tag(item.tags.as_slice())), value]
        };
        proof {
            let k: int = if is_primary { 0 } else { 1 };
            let other: Seq<char> = tag_or_empty(item.tags.deep_view(), 1 - k);
            if is_primary {
                assert(chosen.deep_view() =~= seq![given, other]);
            } else {
                assert(chosen.deep_view() =~= seq![other, given]);
            }
        }
        let t = normalize_image_tags(chosen);
        if !same_tag_lists(&t, &item.tags) {
            item.tags = t;
            true
        } else {
            false
        }
    } else if same_text(field, "add_pair") {
        item.freq_weight_pairs.push(FrequencyWeightPair::blank());
        true
    } else if same_text(field, "clear_pairs") {
        item.freq_weight_pairs = default_frequency_weight_pairs();
        true
    } else if same_text(field, "source") {
        if item.source != value {
            item.source = value;
            true
        } else {
            false
        }
    } else if same_text(field, "source_tag") {
        if item.source_tag != value {
            item.source_tag = value;
            true
        } else {
            false
        }
    } else if same_text(field, "index") {
        match parse_i32(value.as_str()) {
            Some(v) => if item.index != v {
                item.index = v;
                true
            } else {
                false
            },
            None => false,
        }
    } else {
        false
    };
    if changed {
        item.updated_at = now;
    }
    changed
}

} // verus!

verus! {

proof fn lemma_field_names_differ()
    ensures
        "source_tag"@ != "tag_primary"@,
        "source_tag"@ != "tag_secondary"@,
        "source_tag"@ != "add_pair"@,
        "source_tag"@ != "clear_pairs"@,
        "source_tag"@ != "source"@,
        "source"@ != "tag_primary"@,
        "source"@ != "tag_secondary"@,
        "source"@ != "add_pair"@,
        "source"@ != "clear_pairs"@,
        "index"@ != "tag_primary"@,
        "index"@ != "tag_secondary"@,
        "index"@ != "add_pair"@,
        "index"@ != "clear_pairs"@,
        "index"@ != "source"@,
        "index"@ != "source_tag"@,
        "add_pair"@ != "tag_primary"@,
        "add_pair"@ != "tag_secondary"@,
        "clear_pairs"@ != "tag_primary"@,
        "clear_pairs"@ != "tag_secondary"@,
        "clear_pairs"@ != "add_pair"@,
        "tag_secondary"@ != "tag_primary"@,
{
    reveal_strlit("tag_primary");
    reveal_strlit("tag_secondary");
    reveal_strlit("add_pair");
    reveal_strlit("clear_pairs");
    reveal_strlit("source");
    reveal_strlit("source_tag");
    reveal_strlit("index");
    assert("source_tag"@.len() != "tag_primary"@.len());
    assert("source_tag"@.len() != "tag_secondary"@.len());
    assert("source_tag"@.len() != "add_pair"@.len());
    assert("source_tag"@.len() != "clear_pairs"@.len());
    assert("source_tag"@.len() != "source"@.len());
    assert("source"@.len() != "tag_primary"@.len());
    assert("source"@.len() != "tag_secondary"@.len());
    assert("source"@.len() != "add_pair"@.len());
    assert("source"@.len() != "clear_pairs"@.len());
    assert("index"@.len() != "tag_primary"@.len());
    assert("index"@.len() != "tag_secondary"@.len());
    assert("index"@.len() != "add_pair"@.len());
    assert("index"@.len() != "clear_pairs"@.len());
    assert("index"@.len() != "source"@.len());
    assert("index"@.len() != "source_tag"@.len());
    assert("add_pair"@.len() != "tag_primary"@.len());
    assert("add_pair"@.len() != "tag_secondary"@.len());
    assert("clear_pairs"@[0] != "tag_primary"@[0]);
    assert("clear_pairs"@.len() != "tag_secondary"@.len());
    assert("add_pair"@[0] != "clear_pairs"@[0]);
    assert("tag_secondary"@[4] != "tag_primary"@[4]);
}

/// Editing the source tag changes the record exactly when the new text
/// differs from the source tag it had; the edited record then has the new
/// text as its source tag, and every other field, the source included, as
/// it was.
pub proof fn lemma_source_tag_edit(r: RecordView, value: Seq<char>)
    ensures
        edited_record(r, "source_tag"@, value) is Some <==> r.source_tag != value,
        edited_record(r, "source_tag"@, value) matches Some(e) ==> {
            &&& e.source_tag == value
            &&& e.id == r.id
            &&& e.image_data == r.image_data
            &&& e.image_path == r.image_path
            &&& e.ib_bits == r.ib_bits
            &&& e.source == r.source
            &&& e.tags == r.tags
            &&& e.index == r.index
            &&& e.freq_weight_pairs == r.freq_weight_pairs
            &&& e.frequency_bits == r.frequency_bits
            &&& e.weight_bits == r.weight_bits
            &&& e.created_at == r.created_at
            &&& e.updated_at == r.updated_at
        },
{
    reveal_strlit("tag_primary");
    reveal_strlit("tag_secondary");
    reveal_strlit("add_pair");
    reveal_strlit("clear_pairs");
    reveal_strlit("source");
    reveal_strlit("source_tag");
    reveal_strlit("index");
    lemma_field_names_differ();
}
/// Editing the source changes the record exactly when the new text differs
/// from the source it had; the edited record then has the new text as its
/// source, and every other field, the source tag included, as it was.
pub proof fn lemma_source_edit(r: RecordView, value: Seq<char>)
    ensures
        edited_record(r, "source"@, value) is Some <==> r.source != value,
        edited_record(r, "source"@, value) matches Some(e) ==> {
            &&& e.source == value
            &&& e.id == r.id
            &&& e.image_data == r.image_data
            &&& e.image_path == r.image_path
            &&& e.ib_bits == r.ib_bits
            &&& e.source_tag == r.source_tag
            &&& e.tags == r.tags
            &&& e.index == r.index
            &&& e.freq_weight_pairs == r.freq_weight_pairs
            &&& e.frequency_bits == r.frequency_bits
            &&& e.weight_bits == r.weight_bits
            &&& e.created_at == r.created_at
            &&& e.updated_at == r.updated_at
        },
{
    reveal_strlit("tag_primary");
    reveal_strlit("tag_secondary");
    reveal_strlit("add_pair");
    reveal_strlit("clear_pairs");
    reveal_strlit("source");
    reveal_strlit("source_tag");
    reveal_strlit("index");
    lemma_field_names_differ();
}
/// Editing the index changes the record exactly when the text is a
/// number that fits an `i32` and differs from the index it had; the edited
/// record then has that number as its index, and every other field as it
/// was.
pub proof fn lemma_index_edit(r: RecordView, value: Seq<char>)
    ensures
        edited_record(r, "index"@, value) is Some <==> (parsed_i32(value) matches Some(v) && v != r.index),
        edited_record(r, "index"@, value) matches Some(e) ==> {
            &&& parsed_i32(value) == Some(e.index)
            &&& e.id == r.id
            &&& e.image_data == r.image_data
            &&& e.image_path == r.image_path
            &&& e.ib_bits == r.ib_bits
            &&& e.source == r.source
            &&& e.source_tag == r.source_tag
            &&& e.tags == r.tags
            &&& e.freq_weight_pairs == r.freq_weight_pairs
            &&& e.frequency_bits == r.frequency_bits
            &&& e.weight_bits == r.weight_bits
            &&& e.created_at == r.created_at
            &&& e.updated_at == r.updated_at
        },
{
    reveal_strlit("tag_primary");
    reveal_strlit("tag_secondary");
    reveal_strlit("add_pair");
    reveal_strlit("clear_pairs");
    reveal_strlit("source");
    reveal_strlit("source_tag");
    reveal_strlit("index");
    lemma_field_names_differ();
}
/// Adding a pair always changes the record: one blank pair is appended to
/// its pairs, which otherwise stay as they were, and every other field is
/// kept.
pub proof fn lemma_add_pair_edit(r: RecordView, value: Seq<char>)
    ensures
        edited_record(r, "add_pair"@, value) is Some <==> true,
        edited_record(r, "add_pair"@, value) matches Some(e) ==> {
            &&& e.freq_weight_pairs.len() == r.freq_weight_pairs.len() + 1
            &&& e.freq_weight_pairs.take(r.freq_weight_pairs.len() as int) == r.freq_weight_pairs
            &&& e.freq_weight_pairs.last().frequency_bits is None
            &&& e.freq_weight_pairs.last().weight_bits is None
            &&& e.id == r.id
            &&& e.image_data == r.image_data
            &&& e.image_path == r.image_path
            &&& e.ib_bits == r.ib_bits
            &&& e.source == r.source
            &&& e.source_tag == r.source_tag
            &&& e.tags == r.tags
            &&& e.index == r.index
            &&& e.frequency_bits == r.frequency_bits
            &&& e.weight_bits == r.weight_bits
            &&& e.created_at == r.created_at
            &&& e.updated_at == r.updated_at
        },
{
    reveal_strlit("tag_primary");
    reveal_strlit("tag_secondary");
    reveal_strlit("add_pair");
    reveal_strlit("clear_pairs");
    reveal_strlit("source");
    reveal_strlit("source_tag");
    reveal_strlit("index");
    lemma_field_names_differ();
}
/// Clearing the pairs always changes the record: it then has three pairs,
/// none with a frequency or a weight, and every other field as it was.
pub proof fn lemma_clear_pairs_edit(r: RecordView, value: Seq<char>)
    ensures
        edited_record(r, "clear_pairs"@, value) is Some <==> true,
        edited_record(r, "clear_pairs"@, value) matches Some(e) ==> {
            &&& e.freq_weight_pairs.len() == 3
            &&& forall|j: int| 0 <= j < 3 ==> (#[trigger] e.freq_weight_pairs[j]).frequency_bits is None
                && e.freq_weight_pairs[j].weight_bits is None
            &&& e.id == r.id
            &&& e.image_data == r.image_data
            &&& e.image_path == r.image_path
            &&& e.ib_bits == r.ib_bits
            &&& e.source == r.source
            &&& e.source_tag == r.source_tag
            &&& e.tags == r.tags
            &&& e.index == r.index
            &&& e.frequency_bits == r.frequency_bits
            &&& e.weight_bits == r.weight_bits
            &&& e.created_at == r.created_at
            &&& e.updated_at == r.updated_at
        },
{
    reveal_strlit("tag_primary");
    reveal_strlit("tag_secondary");
    reveal_strlit("add_pair");
    reveal_strlit("clear_pairs");
    reveal_strlit("source");
    reveal_strlit("source_tag");
    reveal_strlit("index");
    lemma_field_names_differ();
}
/// Choosing a tag in the first selector gives the record the tags in
/// normal form that the two selectors then show, the chosen one first and
/// the second one as it was; nothing but the tags changes, and the record
/// changes exactly when the tags do.
pub proof fn lemma_primary_tag_edit(r: RecordView, value: Seq<char>)
    ensures
        ({
            let t = normalized_tags(seq![value, if r.tags.len() > 1 { r.tags[1] } else { Seq::empty() }]);
            &&& edited_record(r, "tag_primary"@, value) is Some <==> t != r.tags
            &&& edited_record(r, "tag_primary"@, value) matches Some(e) ==> {
                &&& e.tags == t
                &&& is_normal_tag_list(e.tags)
                &&& e.id == r.id
                &&& e.image_data == r.image_data
                &&& e.image_path == r.image_path
                &&& e.ib_bits == r.ib_bits
                &&& e.source == r.source
                &&& e.source_tag == r.source_tag
                &&& e.index == r.index
                &&& e.freq_weight_pairs == r.freq_weight_pairs
                &&& e.frequency_bits == r.frequency_bits
                &&& e.weight_bits == r.weight_bits
                &&& e.created_at == r.created_at
                &&& e.updated_at == r.updated_at
            }
        }),
{
    reveal_strlit("tag_primary");
    reveal_strlit("tag_secondary");
    reveal_strlit("add_pair");
    reveal_strlit("clear_pairs");
    reveal_strlit("source");
    reveal_strlit("source_tag");
    reveal_strlit("index");
    lemma_field_names_differ();
    lemma_normalized_is_normal(seq![value, tag_or_empty(r.tags, 1)]);
}

/// Choosing a tag in the second selector gives the record the tags in
/// normal form that the two selectors then show, the first one as it was
/// and the chosen one second; nothing but the tags changes, and the record
/// changes exactly when the tags do.
pub proof fn lemma_secondary_tag_edit(r: RecordView, value: Seq<char>)
    ensures
        ({
            let t = normalized_tags(seq![if r.tags.len() > 0 { r.tags[0] } else { Seq::empty() }, value]);
            &&& edited_record(r, "tag_secondary"@, value) is Some <==> t != r.tags
            &&& edited_record(r, "tag_secondary"@, value) matches Some(e) ==> {
                &&& e.tags == t
                &&& is_normal_tag_list(e.tags)
                &&& e.id == r.id
                &&& e.image_data == r.image_data
                &&& e.image_path == r.image_path
                &&& e.ib_bits == r.ib_bits
                &&& e.source == r.source
                &&& e.source_tag == r.source_tag
                &&& e.index == r.index
                &&& e.freq_weight_pairs == r.freq_weight_pairs
                &&& e.frequency_bits == r.frequency_bits
                &&& e.weight_bits == r.weight_bits
                &&& e.created_at == r.created_at
                &&& e.updated_at == r.updated_at
            }
        }),
{
    reveal_strlit("tag_primary");
    reveal_strlit("tag_secondary");
    reveal_strlit("add_pair");
    reveal_strlit("clear_pairs");
    reveal_strlit("source");
    reveal_strlit("source_tag");
    reveal_strlit("index");
    lemma_field_names_differ();
    lemma_normalized_is_normal(seq![tag_or_empty(r.tags, 0), value]);
}

} // verus!

verus! {

proof fn lemma_pair_sources_members(image: usize, pairs: Seq<FrequencyWeightPair>)
    requires
        pairs.len() <= usize::MAX,
    ensures
        forall|j: int| 0 <= j < pairs.len() ==> (pair_sources(image, pairs).contains((image, j as usize))
            <==> (#[trigger] pairs[j]).frequency_bits is Some),
        forall|k: int| 0 <= k < pair_sources(image, pairs).len() ==> {
            let (i, j) = #[trigger] pair_sources(image, pairs)[k];
            &&& i == image
            &&& j < pairs.len()
            &&& pairs[j as int].frequency_bits is Some
        },
    decreases pairs.len(),
{
    if pairs.len() > 0 {
        let init = pairs.drop_last();
        lemma_pair_sources_members(image, init);
        let earlier = pair_sources(image, init);
        let all = pair_sources(image, pairs);
        let last = (pairs.len() - 1) as usize;
        assert forall|k: int| 0 <= k < all.len() implies {
            let (i, j) = #[trigger] all[k];
            &&& i == image
            &&& j < pairs.len()
            &&& pairs[j as int].frequency_bits is Some
        } by {
            if k < earlier.len() {
                assert(all[k] == earlier[k]);
                assert(init[earlier[k].1 as int] == pairs[earlier[k].1 as int]);
            }
        }
        assert forall|j: int| 0 <= j < pairs.len() implies (all.contains((image, j as usize))
            <==> (#[trigger] pairs[j]).frequency_bits is Some) by {
            if j < pairs.len() - 1 {
                assert(init[j] == pairs[j]);
                if all.contains((image, j as usize)) {
                    let k = choose|k: int| 0 <= k < all.len() && all[k] == (image, j as usize);
                    assert(all[k] == (image, j as usize));
                }
                if earlier.contains((image, j as usize)) {
                    let k = choose|k: int| 0 <= k < earlier.len() && earlier[k] == (image, j as usize);
                    assert(all[k] == earlier[k]);
                }
            } else {
                if pairs[j].frequency_bits is Some {
                    assert(all[all.len() - 1] == (image, last));
                } else {
                    if all.contains((image, j as usize)) {
                        let k = choose|k: int| 0 <= k < all.len() && all[k] == (image, j as usize);
                        assert(all[k] == (image, j as usize));
                    }
                }
            }
        }
    }
}

/// The scatter plot has a point (i, j) exactly when image i passes the tag
/// filter and its pair j has a frequency, for every pair position j, and
/// it has no other point.
pub proof fn lemma_plot_points(records: Seq<ImageRecord>, filter: Seq<char>)
    requires
        records.len() <= usize::MAX,
        forall|i: int| 0 <= i < records.len() ==> (#[trigger] records[i]).freq_weight_pairs@.len() <= usize::MAX,
    ensures
        forall|i: int, j: int|
            0 <= i < records.len() && 0 <= j < records[i].freq_weight_pairs@.len() ==> (plot_sources(
                records,
                filter,
            ).contains((i as usize, j as usize)) <==> (passes_tag_filter(
                records[i].tags.deep_view(),
                filter,
            ) && (#[trigger] records[i].freq_weight_pairs@[j]).frequency_bits is Some)),
        forall|k: int| 0 <= k < plot_sources(records, filter).len() ==> {
            let (i, j) = #[trigger] plot_sources(records, filter)[k];
            &&& i < records.len()
            &&& passes_tag_filter(records[i as int].tags.deep_view(), filter)
            &&& j < records[i as int].freq_weight_pairs@.len()
            &&& records[i as int].freq_weight_pairs@[j as int].frequency_bits is Some
        },
    decreases records.len(),
{
    if records.len() > 0 {
        let init = records.drop_last();
        assert forall|i: int| 0 <= i < init.len() implies (#[trigger] init[i]).freq_weight_pairs@.len()
            <= usize::MAX by {
            assert(init[i] == records[i]);
        }
        lemma_plot_points(init, filter);
        let n = records.len() - 1;
        let last = records.last();
        assert(last == records[n]);
        let earlier = plot_sources(init, filter);
        let pass = passes_tag_filter(last.tags.deep_view(), filter);
        let own = pair_sources(n as usize, last.freq_weight_pairs@);
        lemma_pair_sources_members(n as usize, last.freq_weight_pairs@);
        let all = plot_sources(records, filter);
        assert(all == (if pass { earlier + own } else { earlier }));
        assert forall|k: int| 0 <= k < all.len() implies {
            let (i, j) = #[trigger] all[k];
            &&& i < records.len()
            &&& passes_tag_filter(records[i as int].tags.deep_view(), filter)
            &&& j < records[i as int].freq_weight_pairs@.len()
            &&& records[i as int].freq_weight_pairs@[j as int].frequency_bits is Some
        } by {
            if k < earlier.len() {
                assert(all[k] == earlier[k]);
                assert(init[earlier[k].0 as int] == records[earlier[k].0 as int]);
            } else {
                assert(all[k] == own[k - earlier.len()]);
            }
        }
        assert forall|i: int, j: int|
            0 <= i < records.len() && 0 <= j < records[i].freq_weight_pairs@.len() implies (all.contains(
            (i as usize, j as usize),
        ) <==> (passes_tag_filter(records[i].tags.deep_view(), filter)
            && (#[trigger] records[i].freq_weight_pairs@[j]).frequency_bits is Some)) by {
            let p = (i as usize, j as usize);
            if all.contains(p) {
                let k = choose|k: int| 0 <= k < all.len() && all[k] == p;
                assert(all[k] == p);
            }
            if i < n {
                assert(init[i] == records[i]);
                if earlier.contains(p) {
                    let k = choose|k: int| 0 <= k < earlier.len() && earlier[k] == p;
                    assert(all[k] == earlier[k]);
                }
            } else if pass && last.freq_weight_pairs@[j].frequency_bits is Some {
                assert(own.contains(p));
                let k = choose|k: int| 0 <= k < own.len() && own[k] == p;
                assert(all[earlier.len() + k] == own[k]);
            }
        }
    }
}

} // verus!

verus! {

/// The tag filter `__all__` lets every image through, `__untagged__` the
/// images without tags, and any other filter the images that have a tag
/// of exactly that name. A plotted image takes the colour of its first tag
/// (none when untagged) under the first two filters, of the filter's tag
/// under any other.
pub proof fn lemma_tag_filter_and_colour(tags: Seq<Seq<char>>, filter: Seq<char>)
    ensures
        passes_tag_filter(tags, "__all__"@),
        passes_tag_filter(tags, "__untagged__"@) <==> tags.len() == 0,
        filter != "__all__"@ && filter != "__untagged__"@ ==> (passes_tag_filter(tags, filter)
            <==> exists|k: int| 0 <= k < tags.len() && tags[k] == filter),
        color_tag_of(tags, "__all__"@) == (if tags.len() > 0 { tags[0] } else { Seq::empty() }),
        color_tag_of(tags, "__untagged__"@) == (if tags.len() > 0 { tags[0] } else { Seq::empty() }),
        filter != "__all__"@ && filter != "__untagged__"@ ==> color_tag_of(tags, filter) == filter,
{
    reveal_strlit("__all__");
    reveal_strlit("__untagged__");
    assert("__all__"@.len() != "__untagged__"@.len());
}

/// The colour of a tag is that of the last entry for it: appending an
/// entry for a name gives that name the entry's colour and leaves every
/// other name's colour as it was; with no entry a name has no colour, and
/// a colour found comes from an entry for the name.
pub proof fn lemma_colour_of_last_entry(colors: Seq<(String, String)>, entry: (String, String), name: Seq<char>)
    ensures
        color_lookup(Seq::empty(), name) is None,
        color_lookup(colors.push(entry), entry.0@) == Some(entry.1@),
        entry.0@ != name ==> color_lookup(colors.push(entry), name) == color_lookup(colors, name),
        color_lookup(colors, name) matches Some(c) ==> exists|k: int|
            0 <= k < colors.len() && colors[k].0@ == name && colors[k].1@ == c,
    decreases colors.len(),
{
    assert(colors.push(entry).drop_last() =~= colors);
    if colors.len() > 0 {
        lemma_colour_of_last_entry(colors.drop_last(), entry, name);
        if color_lookup(colors, name) is Some && colors.last().0@ != name {
            let c = color_lookup(colors, name)->0;
            let k = choose|k: int|
                0 <= k < colors.drop_last().len() && colors.drop_last()[k].0@ == name
                    && colors.drop_last()[k].1@ == c;
            assert(colors[k] == colors.drop_last()[k]);
        }
    }
}

/// Counting the pairs with a frequency: none for no pairs, and a pair
/// added at the end counts exactly when it has a frequency.
pub proof fn lemma_active_pairs_push(pairs: Seq<FrequencyWeightPair>, p: FrequencyWeightPair)
    ensures
        active_pairs(Seq::empty()) == 0,
        active_pairs(pairs.push(p)) == active_pairs(pairs) + (if p.frequency_bits is Some {
            1int
        } else {
            0int
        }),
        active_pairs(pairs) <= pairs.len(),
{
    let f = |q: FrequencyWeightPair| q.frequency_bits is Some;
    pairs.lemma_filter_len(f);
    pairs.lemma_filter_len_push(f, p);
    assert(Seq::<FrequencyWeightPair>::empty().filter(f) =~= Seq::<FrequencyWeightPair>::empty()) by {
        reveal_with_fuel(Seq::<FrequencyWeightPair>::filter, 1);
    }
}

} // verus!

verus! {

/// The disk of an image is transparent without tags; for one tag it is
/// filled with that tag's colour, for two or more it is split between the
/// colours of the first and the second tag, in that order; a tag without
/// a colour shows as `transparent`.
pub proof fn lemma_disk_colours(tags: Seq<Seq<char>>, colors: Seq<(String, String)>)
    ensures
        ({
            let colour = |t: Seq<char>| match color_lookup(colors, t) {
                Some(c) => c,
                None => "transparent"@,
            };
            &&& tags.len() == 0 ==> tag_disk_css(tags, colors) == "background: transparent;"@
            &&& tags.len() == 1 ==> tag_disk_css(tags, colors) == "background:"@ + colour(tags[0]) + ";"@
            &&& tags.len() >= 2 ==> tag_disk_css(tags, colors) == "background: linear-gradient(90deg, "@
                + colour(tags[0]) + " 0 50%, "@ + colour(tags[1]) + " 50% 100%);"@
        }),
{
}

} // verus!
