//! Bookkeeping for images being added: the index guessed from a file name
//! and the record made for each new image.

use vstd::prelude::*;
use std::collections::HashMap;
use crate::models::{fresh_record, ImageRecord, RecordView};
use crate::text::{chars_of, decimal, digit_char, is_ascii_digit, zero_padded};

verus! {

/// The digits of `s` from its start up to the first character that is not
/// an ASCII digit.
pub open spec fn leading_digits(s: Seq<char>) -> Seq<char>
    decreases s.len(),
{
    if s.len() == 0 || !is_ascii_digit(s[0]) {
        Seq::empty()
    } else {
        seq![s[0]] + leading_digits(s.drop_first())
    }
}

/// The first run of ASCII digits in `s`; empty when `s` has no digit.
pub open spec fn first_digit_run(s: Seq<char>) -> Seq<char>
    decreases s.len(),
{
    if s.len() == 0 {
        Seq::empty()
    } else if is_ascii_digit(s[0]) {
        leading_digits(s)
    } else {
        first_digit_run(s.drop_first())
    }
}

/// The number that a run of ASCII digits writes in decimal.
pub open spec fn digits_value(d: Seq<char>) -> nat
    decreases d.len(),
{
    if d.len() == 0 {
        0
    } else {
        digits_value(d.drop_last()) * 10 + ((d.last() as u32) - 0x30) as nat
    }
}

/// The number that the first run of digits in a file name writes, when
/// there is a run and its value fits an `i32` (what `str::parse::<i32>`
/// accepts of it).
pub open spec fn first_number(name: Seq<char>) -> Option<i32> {
    let run = first_digit_run(name);
    if run.len() == 0 || digits_value(run) > i32::MAX {
        None
    } else {
        Some(digits_value(run) as i32)
    }
}

proof fn lemma_first_run_skip(s: Seq<char>, i: int)
    requires
        0 <= i <= s.len(),
        forall|k: int| 0 <= k < i ==> !is_ascii_digit(#[trigger] s[k]),
    ensures
        first_digit_run(s) == first_digit_run(s.skip(i)),
    decreases i,
{
    if i > 0 {
        lemma_first_run_skip(s.drop_first(), i - 1);
        assert(s.drop_first().skip(i - 1) =~= s.skip(i));
    } else {
        assert(s.skip(0) =~= s);
    }
}

pub proof fn lemma_leading_digits_take(t: Seq<char>, j: int)
    requires
        0 <= j <= t.len(),
        forall|k: int| 0 <= k < j ==> is_ascii_digit(#[trigger] t[k]),
        j < t.len() ==> !is_ascii_digit(t[j]),
    ensures
        leading_digits(t) == t.take(j),
    decreases j,
{
    if j == 0 {
        assert(t.take(0) =~= Seq::<char>::empty());
    } else {
        lemma_leading_digits_take(t.drop_first(), j - 1);
        assert(seq![t[0]] + t.drop_first().take(j - 1) =~= t.take(j));
    }
}

/// The number guessed from a file name is the one that its first run of
/// digits writes: for a name made of a part without digits, a non-empty
/// run of digits and a rest that does not start with a digit, it is the
/// value of that run when the value fits an `i32`, and nothing otherwise.
/// A name without digits gives nothing.
pub proof fn lemma_first_number_of(prefix: Seq<char>, digits: Seq<char>, rest: Seq<char>)
    requires
        forall|k: int| 0 <= k < prefix.len() ==> !is_ascii_digit(#[trigger] prefix[k]),
        digits.len() > 0,
        forall|k: int| 0 <= k < digits.len() ==> is_ascii_digit(#[trigger] digits[k]),
        rest.len() > 0 ==> !is_ascii_digit(rest[0]),
    ensures
        first_number(prefix + digits + rest) == (if digits_value(digits) <= i32::MAX {
            Some(digits_value(digits) as i32)
        } else {
            None
        }),
        first_number(prefix) is None,
{
    let name = prefix + digits + rest;
    assert forall|k: int| 0 <= k < prefix.len() implies !is_ascii_digit(#[trigger] name[k]) by {
        assert(name[k] == prefix[k]);
    }
    lemma_first_run_skip(name, prefix.len() as int);
    let t = name.skip(prefix.len() as int);
    assert(t =~= digits + rest);
    assert(is_ascii_digit(t[0]));
    assert(first_digit_run(t) == leading_digits(t));
    assert forall|k: int| 0 <= k < digits.len() implies is_ascii_digit(#[trigger] t[k]) by {
        assert(t[k] == digits[k]);
    }
    if digits.len() < t.len() {
        assert(t[digits.len() as int] == rest[0]);
    }
    lemma_leading_digits_take(t, digits.len() as int);
    assert(t.take(digits.len() as int) =~= digits);
    lemma_first_run_skip(prefix, prefix.len() as int);
    assert(prefix.skip(prefix.len() as int) =~= Seq::<char>::empty());
}

/// The number written by the first run of digits in a file name, when it
/// fits an `i32`; `None` when the name has no digit or the number is too
/// large.
pub fn extract_first_number(name: &str) -> (r: Option<i32>)
    ensures
        r == first_number(name@),
{
    let chars = chars_of(name);
    let n = chars.len();
    let mut i: usize = 0;
    while i < n && !(chars[i] as u32 >= 0x30 && chars[i] as u32 <= 0x39)
        invariant
            i <= n == chars@.len(),
            forall|k: int| 0 <= k < i ==> !is_ascii_digit(#[trigger] chars@[k]),
        decreases n - i,
    {
        i += 1;
    }
    proof {
        lemma_first_run_skip(chars@, i as int);
        if i < n {
            assert(is_ascii_digit(chars@.skip(i as int)[0]));
        } else {
            assert(chars@.skip(i as int).len() == 0);
        }
    }
    let ghost t = chars@.skip(i as int);
    let start = i;
    let mut value: u64 = 0;
    let mut too_large = false;
    while i < n && (chars[i] as u32 >= 0x30 && chars[i] as u32 <= 0x39)
        invariant
            start <= i <= n == chars@.len(),
            t == chars@.skip(start as int),
            forall|k: int| 0 <= k < i - start ==> is_ascii_digit(#[trigger] t[k]),
            !too_large ==> value == digits_value(t.take(i - start)) && value <= i32::MAX,
            too_large ==> digits_value(t.take(i - start)) > i32::MAX,
        decreases n - i,
    {
        let d = (chars[i] as u32 - 0x30) as u64;
        proof {
            assert(t[i - start] == chars@[i as int]);
            assert(t.take(i - start + 1).drop_last() =~= t.take(i - start));
            assert(t.take(i - start + 1).last() == chars@[i as int]);
        }
        if !too_large {
            value = value * 10 + d;
            if value > 0x7fff_ffff {
                too_large = true;
            }
        } else {
            proof {
                assert(digits_value(t.take(i - start + 1)) >= digits_value(t.take(i - start)) * 10);
            }
        }
        i += 1;
    }
    proof {
        lemma_leading_digits_take(t, i - start);
    }
    if i == start || too_large {
        None
    } else {
        Some(value as i32)
    }
}

} // verus!

verus! {

/// The index guessed for each file of a batch: the number in its name,
/// when no other file of the batch has the same number in its name.
pub open spec fn unique_indexes(numbers: Seq<Option<i32>>) -> Seq<Option<i32>> {
    Seq::new(
        numbers.len(),
        |i: int|
            if numbers[i] is Some && forall|k: int|
                0 <= k < numbers.len() && k != i ==> #[trigger] numbers[k] != numbers[i] {
                numbers[i]
            } else {
                None
            },
    )
}

/// The numbers that the names of a batch hold.
pub open spec fn name_numbers(names: Seq<Seq<char>>) -> Seq<Option<i32>> {
    names.map_values(|n: Seq<char>| first_number(n))
}

/// How many of the numbers are `v`.
pub open spec fn occurrences(numbers: Seq<Option<i32>>, v: i32) -> nat
    decreases numbers.len(),
{
    if numbers.len() == 0 {
        0
    } else {
        occurrences(numbers.drop_last(), v) + if numbers.last() == Some(v) {
            1nat
        } else {
            0nat
        }
    }
}

proof fn lemma_occurrences_bound(numbers: Seq<Option<i32>>, v: i32)
    ensures
        occurrences(numbers, v) <= numbers.len(),
    decreases numbers.len(),
{
    if numbers.len() > 0 {
        lemma_occurrences_bound(numbers.drop_last(), v);
    }
}

/// A number that occurs at `i` occurs once exactly when it occurs nowhere
/// else.
proof fn lemma_occurs_once(numbers: Seq<Option<i32>>, v: i32, i: int)
    requires
        0 <= i < numbers.len(),
        numbers[i] == Some(v),
    ensures
        occurrences(numbers, v) == 1 <==> forall|k: int|
            0 <= k < numbers.len() && k != i ==> #[trigger] numbers[k] != numbers[i],
    decreases numbers.len(),
{
    let init = numbers.drop_last();
    let last = numbers.len() - 1;
    let alone = forall|k: int| 0 <= k < numbers.len() && k != i ==> #[trigger] numbers[k] != numbers[i];
    if i == last {
        lemma_occurs_nowhere(init, v);
        if alone {
            assert forall|k: int| 0 <= k < init.len() implies #[trigger] init[k] != Some(v) by {
                assert(init[k] == numbers[k]);
            }
        }
        if occurrences(numbers, v) == 1 {
            assert forall|k: int| 0 <= k < numbers.len() && k != i implies #[trigger] numbers[k]
                != numbers[i] by {
                assert(init[k] == numbers[k]);
            }
        }
    } else {
        assert(init[i] == Some(v));
        lemma_occurs_once(init, v, i);
        lemma_occurs_at_least_once(init, v, i);
        let init_alone = forall|k: int| 0 <= k < init.len() && k != i ==> #[trigger] init[k] != init[i];
        if alone {
            assert forall|k: int| 0 <= k < init.len() && k != i implies #[trigger] init[k] != init[i] by {
                assert(init[k] == numbers[k]);
            }
            assert(numbers[last] != numbers[i]);
        }
        if occurrences(numbers, v) == 1 {
            assert(numbers[last] != Some(v));
            assert(init_alone);
            assert forall|k: int| 0 <= k < numbers.len() && k != i implies #[trigger] numbers[k]
                != numbers[i] by {
                if k < last {
                    assert(init[k] == numbers[k]);
                }
            }
        }
    }
}

proof fn lemma_occurs_at_least_once(numbers: Seq<Option<i32>>, v: i32, i: int)
    requires
        0 <= i < numbers.len(),
        numbers[i] == Some(v),
    ensures
        occurrences(numbers, v) >= 1,
    decreases numbers.len(),
{
    if i < numbers.len() - 1 {
        assert(numbers.drop_last()[i] == Some(v));
        lemma_occurs_at_least_once(numbers.drop_last(), v, i);
    }
}

proof fn lemma_occurs_nowhere(numbers: Seq<Option<i32>>, v: i32)
    ensures
        occurrences(numbers, v) == 0 <==> forall|k: int|
            0 <= k < numbers.len() ==> #[trigger] numbers[k] != Some(v),
    decreases numbers.len(),
{
    if numbers.len() > 0 {
        let init = numbers.drop_last();
        let last = numbers.len() - 1;
        lemma_occurs_nowhere(init, v);
        if occurrences(numbers, v) == 0 {
            assert forall|k: int| 0 <= k < numbers.len() implies #[trigger] numbers[k] != Some(v) by {
                if k < last {
                    assert(init[k] == numbers[k]);
                }
            }
        }
        if forall|k: int| 0 <= k < numbers.len() ==> #[trigger] numbers[k] != Some(v) {
            assert forall|k: int| 0 <= k < init.len() implies #[trigger] init[k] != Some(v) by {
                assert(init[k] == numbers[k]);
            }
            assert(numbers[last] != Some(v));
        }
    }
}

/// For each file name of a batch, the number in it, kept only when it is
/// unique in the batch: an index is guessed from a name only when no
/// other name of the batch gives the same one. The numbers are counted in
/// a hash map.
pub fn infer_unique_indexes(names: &[String]) -> (r: Vec<Option<i32>>)
    ensures
        r@ == unique_indexes(name_numbers(names.deep_view())),
        r@.len() == names@.len(),
        forall|i: int, j: int|
            0 <= i < r@.len() && 0 <= j < r@.len() && i != j && r@[i] is Some ==> r@[i] != r@[j],
{
    broadcast use vstd::std_specs::hash::group_hash_axioms;

    let ghost numbers = name_numbers(names.deep_view());
    let n = names.len();
    let mut counts: HashMap<i32, usize> = HashMap::new();
    let mut extracted: Vec<Option<i32>> = Vec::new();
    for i in 0..n
        invariant
            n == names@.len(),
            numbers == name_numbers(names.deep_view()),
            extracted@ == numbers.take(i as int),
            forall|v: i32| #[trigger] counts@.contains_key(v) <==> occurrences(numbers.take(i as int), v) > 0,
            forall|v: i32| counts@.contains_key(v) ==> #[trigger] counts@[v] == occurrences(numbers.take(i as int), v),
    {
        let value = extract_first_number(names[i].as_str());
        proof {
            assert(numbers.take(i + 1).drop_last() =~= numbers.take(i as int));
            assert(numbers.take(i + 1).last() == value);
        }
        match value {
            Some(idx) => {
                let c: usize = match counts.get(&idx) {
                    Some(c) => *c,
                    None => 0,
                };
                proof {
                    lemma_occurrences_bound(numbers.take(i as int), idx);
                }
                counts.insert(idx, c + 1);
            },
            None => {},
        }
        extracted.push(value);
        assert(extracted@ =~= numbers.take(i + 1));
    }
    assert(extracted@ =~= numbers);
    assert(numbers.take(n as int) =~= numbers);
    let mut r: Vec<Option<i32>> = Vec::new();
    for i in 0..n
        invariant
            n == extracted@.len(),
            extracted@ == numbers,
            forall|v: i32| #[trigger] counts@.contains_key(v) <==> occurrences(numbers, v) > 0,
            forall|v: i32| counts@.contains_key(v) ==> #[trigger] counts@[v] == occurrences(numbers, v),
            r@ == unique_indexes(numbers).take(i as int),
    {
        let value = extracted[i];
        let kept = match value {
            Some(idx) => {
                let c: usize = match counts.get(&idx) {
                    Some(c) => *c,
                    None => 0,
                };
                proof {
                    lemma_occurs_once(numbers, idx, i as int);
                }
                if c == 1 {
                    value
                } else {
                    None
                }
            },
            None => None,
        };
        r.push(kept);
        assert(r@ =~= unique_indexes(numbers).take(i + 1));
    }
    assert(unique_indexes(numbers).take(n as int) =~= unique_indexes(numbers));
    proof {
        lemma_guessed_indexes_distinct(numbers);
    }
    r
}

/// A file of a batch gets an index exactly when its name gives a number
/// that no other name of the batch gives, and the index is that number.
pub proof fn lemma_guessed_index(numbers: Seq<Option<i32>>, i: int)
    requires
        0 <= i < numbers.len(),
    ensures
        unique_indexes(numbers).len() == numbers.len(),
        unique_indexes(numbers)[i] is Some <==> (numbers[i] is Some && forall|k: int|
            0 <= k < numbers.len() && k != i ==> #[trigger] numbers[k] != numbers[i]),
        unique_indexes(numbers)[i] is Some ==> unique_indexes(numbers)[i] == numbers[i],
{
}

/// No two files of a batch are given the same index: an index is guessed
/// from a name only when the number in it is unique in the batch.
pub proof fn lemma_guessed_indexes_distinct(numbers: Seq<Option<i32>>)
    ensures
        forall|i: int, j: int|
            0 <= i < numbers.len() && 0 <= j < numbers.len() && i != j && (
            #[trigger] unique_indexes(numbers)[i]) is Some ==> unique_indexes(numbers)[i]
                != #[trigger] unique_indexes(numbers)[j],
{
    let u = unique_indexes(numbers);
    assert forall|i: int, j: int|
        0 <= i < numbers.len() && 0 <= j < numbers.len() && i != j && (#[trigger] u[i]) is Some implies u[i]
            != #[trigger] u[j] by {
        if u[j] is Some && u[i] == u[j] {
            assert(numbers[j] != numbers[i]);
        }
    }
}

/// The record made for an image added from the file `file_name`, read as
/// `data_url`: a fresh record, with the batch's source tag, the batch's IB
/// when one was given, and the guessed index when there is one.
pub open spec fn upload_record(
    id: u128,
    data_url: Seq<char>,
    file_name: Seq<char>,
    source_tag: Seq<char>,
    ib_bits: Option<u64>,
    index_guess: Option<i32>,
    now: i64,
) -> RecordView {
    let fresh = fresh_record(id, data_url, file_name, now);
    RecordView {
        source_tag,
        ib_bits: match ib_bits {
            Some(b) => b,
            None => fresh.ib_bits,
        },
        index: match index_guess {
            Some(i) => i,
            None => fresh.index,
        },
        ..fresh
    }
}

/// The record made for an upload has the image's data, the file name as
/// its source and path, the batch's source tag and no tags whatever that
/// tag is, the batch's IB or 0, the guessed index or 0, three empty pairs,
/// frequency and weight 0 and both timestamps `now`.
pub proof fn lemma_upload_record_fields(
    id: u128,
    data_url: Seq<char>,
    file_name: Seq<char>,
    source_tag: Seq<char>,
    ib_bits: Option<u64>,
    index_guess: Option<i32>,
    now: i64,
)
    ensures
        ({
            let u = upload_record(id, data_url, file_name, source_tag, ib_bits, index_guess, now);
            &&& u.id == id
            &&& u.image_data == data_url
            &&& u.image_path == file_name
            &&& u.source == file_name
            &&& u.source_tag == source_tag
            &&& u.tags.len() == 0
            &&& u.ib_bits == (match ib_bits {
                Some(b) => b,
                None => 0u64,
            })
            &&& u.index == (match index_guess {
                Some(i) => i,
                None => 0i32,
            })
            &&& u.freq_weight_pairs.len() == 3
            &&& forall|j: int| 0 <= j < 3 ==> (#[trigger] u.freq_weight_pairs[j]).frequency_bits is None
                && u.freq_weight_pairs[j].weight_bits is None
            &&& u.frequency_bits == 0
            &&& u.weight_bits == 0
            &&& u.created_at == now
            &&& u.updated_at == now
        }),
{
}

/// Makes the record for an image added from `file_name` in a batch; see
/// `upload_record`. It gets a fresh random UUID, of version 4 and of the
/// RFC 4122 variant.
pub fn new_upload_record(
    data_url: String,
    file_name: String,
    source_tag: String,
    ib_bits: Option<u64>,
    index_guess: Option<i32>,
    now: i64,
) -> (r: ImageRecord)
    ensures
        r@ == upload_record(r.id, data_url@, file_name@, source_tag@, ib_bits, index_guess, now),
        (r.id >> 76u128) & 0xfu128 == 4,
        (r.id >> 62u128) & 0x3u128 == 2,
        r.tags@.len() == 0,
        r.source_tag@ == source_tag@,
        r.source@ == file_name@,
{
    let mut record = ImageRecord::new(data_url, file_name, now);
    record.source_tag = source_tag;
    if let Some(ib) = ib_bits {
        record.ib_bits = ib;
    }
    if let Some(index) = index_guess {
        record.index = index;
    }
    assert(record.tags@.len() == record.tags.deep_view().len());
    record
}

} // verus!

verus! {

/// `s` without its leading sign, if it has one.
pub open spec fn unsigned_part(s: Seq<char>) -> Seq<char> {
    if s.len() > 0 && (s[0] == '-' || s[0] == '+') {
        s.drop_first()
    } else {
        s
    }
}

/// Whether every character of `d` is an ASCII digit.
pub open spec fn all_ascii_digits(d: Seq<char>) -> bool {
    forall|i: int| 0 <= i < d.len() ==> is_ascii_digit(#[trigger] d[i])
}

/// What `str::parse::<i32>` gives for `s`: an optional `+` or `-`, then
/// one or more ASCII digits, whose value fits an `i32`; `None` for any
/// other text.
pub open spec fn parsed_i32(s: Seq<char>) -> Option<i32> {
    let negative = s.len() > 0 && s[0] == '-';
    let digits = unsigned_part(s);
    if digits.len() == 0 || !all_ascii_digits(digits) {
        None
    } else {
        let v: int = if negative {
            -digits_value(digits)
        } else {
            digits_value(digits) as int
        };
        if i32::MIN <= v <= i32::MAX {
            Some(v as i32)
        } else {
            None
        }
    }
}

/// Parses `s` as an `i32` the way `str::parse::<i32>` does; see
/// `parsed_i32`.
pub fn parse_i32(s: &str) -> (r: Option<i32>)
    ensures
        r == parsed_i32(s@),
{
    let chars = chars_of(s);
    let n = chars.len();
    let negative = n > 0 && chars[0] == '-';
    let start: usize = if n > 0 && (chars[0] == '-' || chars[0] == '+') {
        1
    } else {
        0
    };
    let ghost digits = chars@.skip(start as int);
    assert(digits =~= unsigned_part(s@));
    if start == n {
        return None;
    }
    let mut value: i64 = 0;
    let mut too_large = false;
    let mut i = start;
    while i < n
        invariant
            start <= i <= n == chars@.len(),
            start < n,
            chars@ == s@,
            negative == (s@.len() > 0 && s@[0] == '-'),
            digits == chars@.skip(start as int),
            digits == unsigned_part(s@),
            forall|k: int| 0 <= k < i - start ==> is_ascii_digit(#[trigger] digits[k]),
            !too_large ==> value == digits_value(digits.take(i - start)) && value <= 0x8000_0000,
            too_large ==> digits_value(digits.take(i - start)) > 0x8000_0000,
        decreases n - i,
    {
        let c = chars[i];
        proof {
            assert(digits[i - start] == chars@[i as int]);
        }
        if !(c as u32 >= 0x30 && c as u32 <= 0x39) {
            assert(!is_ascii_digit(digits[i - start]));
            return None;
        }
        proof {
            assert(digits.take(i - start + 1).drop_last() =~= digits.take(i - start));
            assert(digits.take(i - start + 1).last() == c);
        }
        let d = (c as u32 - 0x30) as i64;
        if !too_large {
            value = value * 10 + d;
            if value > 0x8000_0000 {
                too_large = true;
            }
        }
        i += 1;
    }
    assert(digits.take(n - start) =~= digits);
    if too_large {
        return None;
    }
    if negative {
        Some((-value) as i32)
    } else if value > 0x7fff_ffff {
        None
    } else {
        Some(value as i32)
    }
}

} // verus!

verus! {

/// The digit characters are the ASCII digits, in order.
pub proof fn lemma_digit_char(d: nat)
    requires
        d < 10,
    ensures
        is_ascii_digit(digit_char(d)),
        (digit_char(d) as u32) == 0x30 + d,
{
    let s = seq!['0', '1', '2', '3', '4', '5', '6', '7', '8', '9'];
    assert(s[0] == '0' && s[1] == '1' && s[2] == '2' && s[3] == '3' && s[4] == '4');
    assert(s[5] == '5' && s[6] == '6' && s[7] == '7' && s[8] == '8' && s[9] == '9');
}

/// A decimal numeral is made of digits and reads back as its number.
pub proof fn lemma_decimal_digits(n: nat)
    ensures
        all_ascii_digits(decimal(n)),
        digits_value(decimal(n)) == n,
        decimal(n).len() > 0,
    decreases n,
{
    if n < 10 {
        lemma_digit_char(n);
        assert(decimal(n).drop_last() =~= Seq::<char>::empty());
        assert(digits_value(decimal(n)) == digits_value(decimal(n).drop_last()) * 10 + ((decimal(n).last() as u32) - 0x30) as nat);
    } else {
        lemma_decimal_digits(n / 10);
        lemma_digit_char(n % 10);
        let d = decimal(n);
        assert(d.drop_last() == decimal(n / 10));
        assert(d.last() == digit_char(n % 10));
        assert(digits_value(d) == digits_value(d.drop_last()) * 10 + ((d.last() as u32) - 0x30) as nat);
        assert((n / 10) * 10 + n % 10 == n);
        assert forall|i: int| 0 <= i < d.len() implies is_ascii_digit(#[trigger] d[i]) by {
            if i < d.len() - 1 {
                assert(d[i] == decimal(n / 10)[i]);
            }
        }
    }
}

proof fn lemma_zeros_value(z: Seq<char>)
    requires
        forall|i: int| 0 <= i < z.len() ==> #[trigger] z[i] == '0',
    ensures
        digits_value(z) == 0,
    decreases z.len(),
{
    if z.len() > 0 {
        lemma_zeros_value(z.drop_last());
    }
}

proof fn lemma_leading_zeros_value(z: Seq<char>, d: Seq<char>)
    requires
        forall|i: int| 0 <= i < z.len() ==> #[trigger] z[i] == '0',
    ensures
        digits_value(z + d) == digits_value(d),
    decreases d.len(),
{
    if d.len() == 0 {
        assert(z + d =~= z);
        lemma_zeros_value(z);
    } else {
        lemma_leading_zeros_value(z, d.drop_last());
        assert((z + d).drop_last() =~= z + d.drop_last());
    }
}

/// A zero-padded numeral is made of digits and reads back as its number.
pub proof fn lemma_zero_padded_digits(n: nat, width: nat)
    ensures
        all_ascii_digits(zero_padded(n, width)),
        digits_value(zero_padded(n, width)) == n,
        zero_padded(n, width).len() > 0,
{
    lemma_decimal_digits(n);
    let d = decimal(n);
    if d.len() < width {
        let z = Seq::new((width - d.len()) as nat, |i: int| '0');
        lemma_leading_zeros_value(z, d);
        let p = z + d;
        assert forall|i: int| 0 <= i < p.len() implies is_ascii_digit(#[trigger] p[i]) by {
            if i < z.len() {
                assert(p[i] == '0');
            } else {
                assert(p[i] == d[i - z.len()]);
            }
        }
    }
}

} // verus!
