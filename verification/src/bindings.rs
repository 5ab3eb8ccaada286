//! The calls this library makes into `uuid`, `base64` and `zip`, each
//! with the contract that the library relies on.

use base64::Engine;
use std::io::{Cursor, Read, Write};
use zip::result::ZipError;
use zip::write::SimpleFileOptions;
use zip::{CompressionMethod, ZipArchive, ZipWriter};
use vstd::prelude::*;
use vstd::arithmetic::power2::pow2;
use vstd::utf8::encode_utf8;

verus! {

/// The hexadecimal digit for `d` (below sixteen), lower case.
pub open spec fn hex_digit(d: nat) -> char {
    seq!['0', '1', '2', '3', '4', '5', '6', '7', '8', '9', 'a', 'b', 'c', 'd', 'e', 'f'][d as int]
}

/// The hyphenated, lower-case text of the UUID whose 128 bits, most
/// significant first, are `id`: 32 hex digits in groups of 8, 4, 4, 4 and
/// 12, separated by `-`.
pub open spec fn uuid_text(id: u128) -> Seq<char> {
    Seq::new(
        36,
        |i: int|
            if i == 8 || i == 13 || i == 18 || i == 23 {
                '-'
            } else {
                let k = if i < 8 {
                    i
                } else if i < 13 {
                    i - 1
                } else if i < 18 {
                    i - 2
                } else if i < 23 {
                    i - 3
                } else {
                    i - 4
                };
                hex_digit(((id as nat) / pow2((4 * (31 - k)) as nat)) % 16)
            },
    )
}

/// `uuid::Uuid::new_v4`, taken as its 128 bits (`Uuid::as_u128`). The bits
/// are random; the crate sets the version nibble to 4 and the variant bits
/// to `10`, and nothing more is claimed of the value.
#[verifier::external_body]
pub(crate) fn new_random_id() -> (id: u128)
    ensures
        (id >> 76u128) & 0xfu128 == 4,
        (id >> 62u128) & 0x3u128 == 2,
{
    uuid::Uuid::new_v4().as_u128()
}

/// `Uuid::to_string` on `Uuid::from_u128(id)`: uuid's `Display` writes the
/// hyphenated lower-case form, which is claimed to be `uuid_text(id)`.
#[verifier::external_body]
pub(crate) fn uuid_string(id: u128) -> (s: String)
    ensures
        s@ == uuid_text(id),
{
    uuid::Uuid::from_u128(id).to_string()
}

/// The character of the standard base64 alphabet (RFC 4648) for the
/// six-bit value `d`: `A`-`Z`, `a`-`z`, `0`-`9`, `+`, `/`.
pub open spec fn base64_digit(d: nat) -> char {
    let u: int = if d < 26 {
        0x41 + d as int
    } else if d < 52 {
        0x61 + (d - 26)
    } else if d < 62 {
        0x30 + (d - 52)
    } else if d == 62 {
        0x2B
    } else {
        0x2F
    };
    u as char
}

/// The standard base64 text of `bytes` (RFC 4648, with `=` padding): each
/// group of three bytes becomes four characters of six bits each, most
/// significant first; a last group of one or two bytes becomes two or three
/// characters, its missing bits zero, padded with `=` to four.
pub open spec fn base64_text(bytes: Seq<u8>) -> Seq<char>
    decreases bytes.len(),
{
    if bytes.len() == 0 {
        Seq::empty()
    } else if bytes.len() == 1 {
        let a = bytes[0] as nat;
        seq![base64_digit(a / 4), base64_digit((a % 4) * 16), '=', '=']
    } else if bytes.len() == 2 {
        let a = bytes[0] as nat;
        let b = bytes[1] as nat;
        seq![base64_digit(a / 4), base64_digit((a % 4) * 16 + b / 16), base64_digit((b % 16) * 4), '=']
    } else {
        let a = bytes[0] as nat;
        let b = bytes[1] as nat;
        let c = bytes[2] as nat;
        seq![
            base64_digit(a / 4),
            base64_digit((a % 4) * 16 + b / 16),
            base64_digit((b % 16) * 4 + c / 64),
            base64_digit(c % 64),
        ] + base64_text(bytes.skip(3))
    }
}

/// The bytes that `base64::engine::general_purpose::STANDARD.decode`
/// gives for `text`, or `None` where it reports an error.
pub uninterp spec fn base64_decoded(text: Seq<char>) -> Option<Seq<u8>>;

/// A character of the standard base64 alphabet, or the padding `=`.
pub open spec fn is_base64_char(c: char) -> bool {
    let u = c as u32;
    ||| 0x41 <= u <= 0x5A
    ||| 0x61 <= u <= 0x7A
    ||| 0x30 <= u <= 0x39
    ||| c == '+' || c == '/' || c == '='
}

/// The base64 text of any bytes is made of characters of the alphabet and
/// the padding `=` only.
pub proof fn lemma_base64_alphabet(bytes: Seq<u8>)
    ensures
        forall|i: int| 0 <= i < base64_text(bytes).len() ==> is_base64_char(#[trigger] base64_text(bytes)[i]),
    decreases bytes.len(),
{
    assert forall|d: nat| d < 64 implies #[trigger] is_base64_char(base64_digit(d)) by {}
    if bytes.len() >= 3 {
        lemma_base64_alphabet(bytes.skip(3));
        let a = bytes[0] as nat;
        let b = bytes[1] as nat;
        let c = bytes[2] as nat;
        let head = seq![
            base64_digit(a / 4),
            base64_digit((a % 4) * 16 + b / 16),
            base64_digit((b % 16) * 4 + c / 64),
            base64_digit(c % 64),
        ];
        let t = base64_text(bytes);
        assert forall|i: int| 0 <= i < t.len() implies is_base64_char(#[trigger] t[i]) by {
            if i >= 4 {
                assert(t[i] == base64_text(bytes.skip(3))[i - 4]);
            } else {
                assert(t[i] == head[i]);
            }
        }
    }
}

/// `STANDARD.encode(bytes)` from the `base64` crate. Claimed: the result is
/// `base64_text(bytes)`, and decoding it with the same engine gives `bytes`
/// back. The
/// crate panics when the length of the text would overflow `usize`; the
/// bound on `bytes` keeps clear of that.
#[verifier::external_body]
pub(crate) fn base64_encode(bytes: &[u8]) -> (s: String)
    requires
        bytes@.len() <= usize::MAX / 2,
    ensures
        s@ == base64_text(bytes@),
        base64_decoded(s@) == Some(bytes@),
{
    base64::engine::general_purpose::STANDARD.encode(bytes)
}

/// `STANDARD.decode(text)` from the `base64` crate, its error dropped.
/// Claimed: the outcome is the named `base64_decoded(text)`, and a text
/// that decodes is the one that `STANDARD.encode` writes for the bytes it
/// gives: the engine requires canonical padding and refuses trailing bits
/// (`GeneralPurposeConfig::new`), so no other text decodes to them.
#[verifier::external_body]
pub(crate) fn base64_decode(text: &str) -> (r: Option<Vec<u8>>)
    ensures
        match r {
            Some(v) => base64_decoded(text@) == Some(v@) && base64_text(v@) == text@,
            None => base64_decoded(text@) is None,
        },
{
    base64::engine::general_purpose::STANDARD.decode(text).ok()
}


/// `std::io::Cursor`, an in-memory reader and writer.
#[verifier::external_type_specification]
#[verifier::external_body]
#[verifier::reject_recursive_types(T)]
pub struct ExCursor<T>(Cursor<T>);

/// `std::io::Error`.
#[verifier::external_type_specification]
#[verifier::external_body]
pub struct ExIoError(std::io::Error);

/// `zip::result::ZipError`.
#[verifier::external_type_specification]
#[verifier::external_body]
pub struct ExZipError(ZipError);

/// A `zip::ZipWriter` writing an archive into an in-memory buffer. Its
/// state is opaque; `zip_written` and `zip_unfailed` describe it.
#[verifier::external_body]
pub struct ArchiveWriter {
    inner: ZipWriter<Cursor<Vec<u8>>>,
}

/// `zip::ZipArchive`, which reads an archive.
#[verifier::external_type_specification]
#[verifier::external_body]
#[verifier::reject_recursive_types(R)]
pub struct ExZipArchive<R>(ZipArchive<R>);

/// The files that a writer has been given so far, in order: for each, the
/// name it was started under and the bytes written into it since.
pub uninterp spec fn zip_written(w: ArchiveWriter) -> Seq<(Seq<char>, Seq<u8>)>;

/// The bytes of the archive that a reader reads.
pub uninterp spec fn zip_source(a: ZipArchive<Cursor<Vec<u8>>>) -> Seq<u8>;

/// The content of the file `name` in the archive `archive`, as
/// `ZipArchive::new`, `by_name` and `read_to_end` give it; `None` when the
/// archive does not open, has no such file, or the file does not read.
pub uninterp spec fn zip_entry(archive: Seq<u8>, name: Seq<char>) -> Option<Seq<u8>>;

/// Whether `ZipArchive::new` opens the archive `archive`.
pub uninterp spec fn zip_opens(archive: Seq<u8>) -> bool;

/// Whether `ZipArchive::by_name` finds the file `name` in the archive
/// `archive` (whether or not its content then reads).
pub uninterp spec fn zip_has_file(archive: Seq<u8>, name: Seq<char>) -> bool;

/// The names of a writer's files.
pub open spec fn written_names(files: Seq<(Seq<char>, Seq<u8>)>) -> Seq<Seq<char>> {
    files.map_values(|f: (Seq<char>, Seq<u8>)| f.0)
}

/// Whether no call on the writer has failed since it was made.
pub uninterp spec fn zip_unfailed(w: ArchiveWriter) -> bool;

/// The bytes that uncompressed files take in an archive before its central
/// directory: for each, a 30-byte local header, its name in UTF-8 and its
/// content.
pub open spec fn zip_stored_size(files: Seq<(Seq<char>, Seq<u8>)>) -> nat
    decreases files.len(),
{
    if files.len() == 0 {
        0
    } else {
        zip_stored_size(files.drop_last()) + 30 + encode_utf8(files.last().0).len()
            + files.last().1.len()
    }
}

/// The size below which the writer needs none of the ZIP64 fields, whose
/// absence (the large-file option is not set) would make it fail: 2 GiB,
/// well under the 4 GiB limit of the plain format.
pub open spec fn zip_size_limit() -> nat {
    0x8000_0000
}

/// `ZipWriter::new` over an empty in-memory buffer. Claimed: no file has
/// been written yet and no call has failed.
#[verifier::external_body]
pub(crate) fn zip_writer_new() -> (w: ArchiveWriter)
    ensures
        zip_written(w) == Seq::<(Seq<char>, Seq<u8>)>::empty(),
        zip_unfailed(w),
{
    ArchiveWriter { inner: ZipWriter::new(Cursor::new(Vec::new())) }
}

/// `ZipWriter::start_file(name, options)`, the options being
/// `SimpleFileOptions::default()` with the `Stored` (uncompressed) method.
/// The crate panics (an `unwrap` in `ZipFileData::local_block`) on a name
/// of more than `u16::MAX` bytes, which `requires` leaves out. Claimed: on
/// success the writer has a new, empty file under `name`, whose name no
/// earlier file had (the crate refuses a repeated name with an error). On
/// a writer with no failed call, a new name succeeds while the files stay
/// under `zip_size_limit`: with the in-memory buffer nothing else in the
/// call can fail. Nothing is claimed of the writer after a failure.
#[verifier::external_body]
pub(crate) fn zip_start_file(w: &mut ArchiveWriter, name: &str) -> (r: Result<
    (),
    ZipError,
>)
    requires
        encode_utf8(name@).len() <= 0xFFFF,
    ensures
        r is Ok ==> {
            &&& !written_names(zip_written(*old(w))).contains(name@)
            &&& zip_written(*final(w)) == zip_written(*old(w)).push((name@, Seq::<u8>::empty()))
            &&& zip_unfailed(*old(w)) ==> zip_unfailed(*final(w))
        },
        (zip_unfailed(*old(w)) && !written_names(zip_written(*old(w))).contains(name@)
            && zip_stored_size(zip_written(*old(w)).push((name@, Seq::<u8>::empty())))
            < zip_size_limit()) ==> r is Ok,
{
    let options = SimpleFileOptions::default().compression_method(CompressionMethod::Stored);
    w.inner.start_file(name, options)
}

/// `Write::write_all(bytes)` on the writer. Claimed: on success `bytes`
/// now follow the content of the last file; with no file at all only
/// empty `bytes` succeed (there is then nothing to write). On a writer
/// with no failed call and a file started, the write succeeds while the
/// files stay under `zip_size_limit`. Nothing is claimed of the writer
/// after a failure.
#[verifier::external_body]
pub(crate) fn zip_write_all(w: &mut ArchiveWriter, bytes: &[u8]) -> (r: Result<
    (),
    std::io::Error,
>)
    ensures
        r is Ok ==> {
            let before = zip_written(*old(w));
            &&& if before.len() > 0 {
                zip_written(*final(w)) == before.update(
                    before.len() - 1,
                    (before.last().0, before.last().1 + bytes@),
                )
            } else {
                bytes@.len() == 0 && zip_written(*final(w)) == before
            }
            &&& zip_unfailed(*old(w)) ==> zip_unfailed(*final(w))
        },
        ({
            let before = zip_written(*old(w));
            &&& zip_unfailed(*old(w))
            &&& before.len() > 0
            &&& zip_stored_size(
                before.update(before.len() - 1, (before.last().0, before.last().1 + bytes@)),
            ) < zip_size_limit()
        }) ==> r is Ok,
{
    w.inner.write_all(bytes)
}

/// `ZipWriter::finish`, then `Cursor::into_inner` for the bytes. Claimed:
/// on success every file of the writer reads back from the bytes with the
/// content written into it, and no other name reads from them (the central
/// directory that `finish` writes lists the writer's files and no other);
/// on a writer with no failed call whose files stay under
/// `zip_size_limit`, it succeeds.
#[verifier::external_body]
pub(crate) fn zip_finish(w: ArchiveWriter) -> (r: Result<Vec<u8>, ZipError>)
    ensures
        r matches Ok(b) ==> forall|i: int|
            0 <= i < zip_written(w).len() ==> zip_entry(b@, #[trigger] zip_written(w)[i].0) == Some(
                zip_written(w)[i].1,
            ),
        r matches Ok(b) ==> forall|name: Seq<char>| #[trigger] zip_entry(b@, name) is Some
            ==> written_names(zip_written(w)).contains(name),
        zip_unfailed(w) && zip_stored_size(zip_written(w)) < zip_size_limit() ==> r is Ok,
{
    w.inner.finish().map(|c| c.into_inner())
}

/// `ZipArchive::new` over the bytes. Claimed: the outcome is the named
/// `zip_opens(bytes)`, the reader reads those bytes, and it opens whenever
/// some file of them reads.
#[verifier::external_body]
pub(crate) fn zip_open(bytes: Vec<u8>) -> (r: Result<ZipArchive<Cursor<Vec<u8>>>, ZipError>)
    ensures
        r is Ok <==> zip_opens(bytes@),
        r matches Ok(a) ==> zip_source(a) == bytes@,
        (exists|name: Seq<char>| #[trigger] zip_entry(bytes@, name) is Some) ==> r is Ok,
{
    ZipArchive::new(Cursor::new(bytes))
}

/// `ZipArchive::by_name(name)` and `Read::read_to_end` on the file found.
/// The outer error is that of `by_name`, the inner one that of the read.
/// Claimed: the reader still reads the same bytes; `by_name` succeeds
/// exactly when the named `zip_has_file` holds (a lookup does not depend on
/// earlier reads); a file that reads gives the named `zip_entry` content,
/// and when `zip_entry` has content for `name` the call gives exactly that. The bytes read fit a `Vec`,
/// which std bounds by `isize::MAX` bytes.
#[verifier::external_body]
pub(crate) fn zip_read_file(a: &mut ZipArchive<Cursor<Vec<u8>>>, name: &str) -> (r: Result<
    Result<Vec<u8>, std::io::Error>,
    ZipError,
>)
    ensures
        zip_source(*final(a)) == zip_source(*old(a)),
        r is Ok <==> zip_has_file(zip_source(*old(a)), name@),
        r matches Ok(Ok(v)) ==> zip_entry(zip_source(*old(a)), name@) == Some(v@) && v@.len()
            <= isize::MAX,
        zip_entry(zip_source(*old(a)), name@) is Some ==> r matches Ok(Ok(_)),
{
    let mut file = a.by_name(name)?;
    let mut bytes = Vec::new();
    Ok(file.read_to_end(&mut bytes).map(|_| bytes))
}

/// The text of a zip error (`ZipError`'s `Display`). Nothing is claimed of
/// the text.
#[verifier::external_body]
pub(crate) fn zip_error_text(e: &ZipError) -> String {
    e.to_string()
}

/// The text of an i/o error (`std::io::Error`'s `Display`). Nothing is
/// claimed of the text.
#[verifier::external_body]
pub(crate) fn io_error_text(e: &std::io::Error) -> String {
    e.to_string()
}

} // verus!
