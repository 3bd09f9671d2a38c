//! The content hash of a file's chunks.

use crate::chunk::{chunk_views, Chunk, ChunkView};
use crate::markdown::{document_chunks, law_path_is_a_label};
use crate::metadata::{json_text, metadata_entries, metadata_to_string, string_list};
use crate::metadata::{strings_to_string, tells_entries, tells_strings, Json};
use sha2::Digest;
use vstd::bytes::{lemma_auto_spec_u64_to_from_le_bytes, spec_u64_from_le_bytes};
use vstd::bytes::{spec_u64_to_le_bytes, u64_to_le_bytes};
use vstd::prelude::*;
use vstd::utf8::{decode_utf8, encode_utf8, encode_utf8_decode_utf8};

verus! {

/// What every hash input begins with.
pub const HASH_DOMAIN: &'static str = "context-server-file-v1\0";

/// The SHA-256 digest of the given bytes.
pub uninterp spec fn sha256(data: Seq<u8>) -> Seq<u8>;

/// `sha2::Sha256`, made new, fed with `data` and finalized: the digest of `data`,
/// 32 bytes long. Which bytes they are rests with `sha256`.
#[verifier::external_body]
fn sha256_digest(data: &[u8]) -> (r: Vec<u8>)
    ensures
        r@ == sha256(data@),
        r@.len() == 32,
{
    let mut hasher = sha2::Sha256::new();
    hasher.update(data);
    hasher.finalize().to_vec()
}

/// The lower-case hexadecimal digit of `n`.
pub open spec fn hex_digit(n: u8) -> char {
    if n < 10 {
        (48 + n) as char
    } else {
        (87 + n) as char
    }
}

/// Two hexadecimal digits for each byte, the high one first.
pub open spec fn hex_text(data: Seq<u8>) -> Seq<char> {
    Seq::new(
        2 * data.len(),
        |i: int|
            hex_digit(
                if i % 2 == 0 {
                    data[i / 2] / 16
                } else {
                    data[i / 2] % 16
                },
            ),
    )
}

/// `hex::encode` writes each byte as two lower-case hexadecimal digits, the high
/// one first.
#[verifier::external_body]
fn hex_encode(data: &Vec<u8>) -> (r: String)
    ensures
        r@ == hex_text(data@),
{
    hex::encode(data)
}

/// What is hashed of a chunk: its position, its text, and its headings and
/// metadata as JSON.
#[verifier::ext_equal]
pub struct Record {
    /// The position.
    pub index: u64,
    /// The text.
    pub text: Seq<char>,
    /// The headings, as JSON.
    pub headings: Seq<char>,
    /// The metadata, as JSON.
    pub metadata: Seq<char>,
}

/// A text in UTF-8, behind its length in eight bytes, the lowest first.
pub open spec fn sized(text: Seq<char>) -> Seq<u8> {
    spec_u64_to_le_bytes(encode_utf8(text).len() as u64) + encode_utf8(text)
}

/// A record as bytes.
pub open spec fn framed(record: Record) -> Seq<u8> {
    spec_u64_to_le_bytes(record.index) + sized(record.text) + sized(record.headings) + sized(
        record.metadata,
    )
}

/// The records as bytes, in a row.
pub open spec fn framed_all(records: Seq<Record>) -> Seq<u8>
    decreases records.len(),
{
    if records.len() == 0 {
        seq![]
    } else {
        framed_all(records.drop_last()) + framed(records.last())
    }
}

/// The JSON text of a value, or the text that stands for it where there is none.
pub open spec fn json_text_or(value: Json, otherwise: Seq<char>) -> Seq<char> {
    match json_text(value) {
        Some(text) => text,
        None => otherwise,
    }
}

/// What is hashed of a chunk.
pub open spec fn record_of(c: ChunkView) -> Record {
    Record {
        index: c.chunk_index as u64,
        text: c.text,
        headings: json_text_or(string_list(c.headings), "[]"@),
        metadata: json_text_or(Json::Object(c.metadata), "{}"@),
    }
}

/// What is hashed of the chunks.
pub open spec fn records_of(chunks: Seq<ChunkView>) -> Seq<Record> {
    chunks.map_values(|c: ChunkView| record_of(c))
}

/// The bytes that are hashed for the given records.
pub open spec fn hash_input(records: Seq<Record>) -> Seq<u8> {
    encode_utf8(HASH_DOMAIN@) + framed_all(records)
}

/// The hash of a file with the given chunks.
pub open spec fn content_hash(chunks: Seq<ChunkView>) -> Seq<char> {
    hex_text(sha256(hash_input(records_of(chunks))))
}

/// Eight bytes that stand for numbers, each before something, are equal only
/// where the numbers and what follows them are.
proof fn lemma_number_first(a: u64, b: u64, x: Seq<u8>, y: Seq<u8>)
    requires
        spec_u64_to_le_bytes(a) + x == spec_u64_to_le_bytes(b) + y,
    ensures
        a == b,
        x == y,
{
    lemma_auto_spec_u64_to_from_le_bytes();
    let (p, q) = (spec_u64_to_le_bytes(a), spec_u64_to_le_bytes(b));
    assert((p + x).take(8) == p);
    assert((q + y).take(8) == q);
    assert((p + x).skip(8) == x);
    assert((q + y).skip(8) == y);
    assert(a == spec_u64_from_le_bytes(p));
}

/// A text behind its length can be told from what follows it.
proof fn lemma_sized_first(a: Seq<char>, b: Seq<char>, x: Seq<u8>, y: Seq<u8>)
    requires
        encode_utf8(a).len() <= u64::MAX,
        encode_utf8(b).len() <= u64::MAX,
        sized(a) + x == sized(b) + y,
    ensures
        a == b,
        x == y,
{
    let (p, q) = (encode_utf8(a), encode_utf8(b));
    let (m, n) = (p.len() as u64, q.len() as u64);
    assert(sized(a) + x == spec_u64_to_le_bytes(m) + (p + x));
    assert(sized(b) + y == spec_u64_to_le_bytes(n) + (q + y));
    lemma_number_first(m, n, p + x, q + y);
    assert((p + x).take(m as int) == p);
    assert((q + y).take(n as int) == q);
    assert((p + x).skip(m as int) == x);
    assert((q + y).skip(n as int) == y);
    encode_utf8_decode_utf8(a);
    encode_utf8_decode_utf8(b);
    assert(a == decode_utf8(p));
}

/// The texts of the record are short enough for their lengths to be written.
pub open spec fn fits(record: Record) -> bool {
    &&& encode_utf8(record.text).len() <= u64::MAX
    &&& encode_utf8(record.headings).len() <= u64::MAX
    &&& encode_utf8(record.metadata).len() <= u64::MAX
}

/// A record can be told from what follows it.
proof fn lemma_framed_first(a: Record, b: Record, x: Seq<u8>, y: Seq<u8>)
    requires
        fits(a),
        fits(b),
        framed(a) + x == framed(b) + y,
    ensures
        a == b,
        x == y,
{
    let (a3, b3) = (sized(a.metadata) + x, sized(b.metadata) + y);
    let (a2, b2) = (sized(a.headings) + a3, sized(b.headings) + b3);
    let (a1, b1) = (sized(a.text) + a2, sized(b.text) + b2);
    assert(framed(a) + x == spec_u64_to_le_bytes(a.index) + a1);
    assert(framed(b) + y == spec_u64_to_le_bytes(b.index) + b1);
    lemma_number_first(a.index, b.index, a1, b1);
    lemma_sized_first(a.text, b.text, a2, b2);
    lemma_sized_first(a.headings, b.headings, a3, b3);
    lemma_sized_first(a.metadata, b.metadata, x, y);
}

/// The first record comes first.
proof fn lemma_framed_all_first(records: Seq<Record>)
    requires
        records.len() > 0,
    ensures
        framed_all(records) == framed(records[0]) + framed_all(records.drop_first()),
    decreases records.len(),
{
    reveal_with_fuel(framed_all, 2);
    let init = records.drop_last();
    if init.len() == 0 {
        assert(records.drop_first() == Seq::<Record>::empty());
        assert(framed_all(records) == framed(records[0]) + framed_all(records.drop_first()));
    } else {
        lemma_framed_all_first(init);
        let rest = records.drop_first();
        assert(init.drop_first() == rest.drop_last());
        assert(framed_all(records) == framed(records[0]) + framed_all(rest));
    }
}

/// Records that are written as the same bytes are the same.
proof fn lemma_framed_all_injective(a: Seq<Record>, b: Seq<Record>)
    requires
        forall|i: int| 0 <= i < a.len() ==> fits(#[trigger] a[i]),
        forall|i: int| 0 <= i < b.len() ==> fits(#[trigger] b[i]),
        framed_all(a) == framed_all(b),
    ensures
        a == b,
    decreases a.len(),
{
    lemma_auto_spec_u64_to_from_le_bytes();
    if a.len() > 0 {
        lemma_framed_all_first(a);
        assert(spec_u64_to_le_bytes(a[0].index).len() == 8);
        assert(framed_all(a).len() >= 8);
    }
    if b.len() > 0 {
        lemma_framed_all_first(b);
        assert(spec_u64_to_le_bytes(b[0].index).len() == 8);
        assert(framed_all(b).len() >= 8);
    }
    if a.len() > 0 && b.len() > 0 {
        let (x, y) = (a.drop_first(), b.drop_first());
        lemma_framed_first(a[0], b[0], framed_all(x), framed_all(y));
        assert forall|i: int| 0 <= i < x.len() implies fits(#[trigger] x[i]) by {
            assert(x[i] == a[i + 1]);
        }
        assert forall|i: int| 0 <= i < y.len() implies fits(#[trigger] y[i]) by {
            assert(y[i] == b[i + 1]);
        }
        lemma_framed_all_injective(x, y);
        assert(a == seq![a[0]] + x);
        assert(b == seq![b[0]] + y);
    } else {
        assert(framed_all(Seq::<Record>::empty()).len() == 0);
        assert(a.len() == 0 ==> a == Seq::<Record>::empty());
        assert(b.len() == 0 ==> b == Seq::<Record>::empty());
    }
}

/// What is hashed tells the chunks apart: where two files give the same bytes,
/// they have equally many chunks, and these agree in position, in text, and in
/// the JSON of headings and metadata. Only texts that are too long for their
/// length to be written in eight bytes, and positions beyond them, are left out.
pub proof fn law_hash_input_is_injective(a: Seq<ChunkView>, b: Seq<ChunkView>)
    requires
        forall|i: int| 0 <= i < a.len() ==> fits(#[trigger] record_of(a[i])),
        forall|i: int| 0 <= i < b.len() ==> fits(#[trigger] record_of(b[i])),
        forall|i: int| 0 <= i < a.len() ==> (#[trigger] a[i]).chunk_index <= u64::MAX,
        forall|i: int| 0 <= i < b.len() ==> (#[trigger] b[i]).chunk_index <= u64::MAX,
        hash_input(records_of(a)) == hash_input(records_of(b)),
    ensures
        a.len() == b.len(),
        forall|i: int|
            #![trigger a[i]]
            #![trigger b[i]]
            0 <= i < a.len() ==> {
                &&& a[i].chunk_index == b[i].chunk_index
                &&& a[i].text == b[i].text
                &&& json_text_or(string_list(a[i].headings), "[]"@) == json_text_or(
                    string_list(b[i].headings),
                    "[]"@,
                )
                &&& json_text_or(Json::Object(a[i].metadata), "{}"@) == json_text_or(
                    Json::Object(b[i].metadata),
                    "{}"@,
                )
            },
{
    let (x, y) = (records_of(a), records_of(b));
    let domain = encode_utf8(HASH_DOMAIN@);
    assert((domain + framed_all(x)).skip(domain.len() as int) == framed_all(x));
    assert((domain + framed_all(y)).skip(domain.len() as int) == framed_all(y));
    assert forall|i: int| 0 <= i < x.len() implies fits(#[trigger] x[i]) by {
        assert(x[i] == record_of(a[i]));
    }
    assert forall|i: int| 0 <= i < y.len() implies fits(#[trigger] y[i]) by {
        assert(y[i] == record_of(b[i]));
    }
    lemma_framed_all_injective(x, y);
    assert forall|i: int|
        #![trigger a[i]]
        #![trigger b[i]]
        0 <= i < a.len() implies {
        &&& a[i].chunk_index == b[i].chunk_index
        &&& a[i].text == b[i].text
        &&& json_text_or(string_list(a[i].headings), "[]"@) == json_text_or(
            string_list(b[i].headings),
            "[]"@,
        )
        &&& json_text_or(Json::Object(a[i].metadata), "{}"@) == json_text_or(
            Json::Object(b[i].metadata),
            "{}"@,
        )
    } by {
        assert(x[i] == record_of(a[i]));
        assert(y[i] == record_of(b[i]));
    }
}

/// The chunks agree in all that is hashed: in position, text, headings and
/// metadata.
pub open spec fn same_content(c: ChunkView, d: ChunkView) -> bool {
    &&& c.chunk_index == d.chunk_index
    &&& c.text == d.text
    &&& c.headings == d.headings
    &&& c.metadata == d.metadata
}

/// The files have equally many chunks, and these agree in all that is hashed.
pub open spec fn same_contents(a: Seq<Chunk>, b: Seq<Chunk>) -> bool {
    &&& a.len() == b.len()
    &&& forall|i: int| #![trigger a[i]] #![trigger b[i]]
        0 <= i < a.len() ==> same_content(a[i]@, b[i]@)
}

/// What is hashed of the chunk can be written, and its JSON belongs to no other
/// headings and no other metadata. `hash_chunks` finds this of all chunks.
pub open spec fn hashable(c: ChunkView) -> bool {
    &&& c.chunk_index <= u64::MAX
    &&& fits(record_of(c))
    &&& json_text(string_list(c.headings)) matches Some(text) && tells_strings(text, c.headings)
    &&& json_text(Json::Object(c.metadata)) matches Some(text) && tells_entries(text, c.metadata)
}

/// Each of the chunks can be hashed.
pub open spec fn all_hashable(chunks: Seq<Chunk>) -> bool {
    forall|i: int| 0 <= i < chunks.len() ==> hashable((#[trigger] chunks[i])@)
}

proof fn lemma_hex_digit(a: u8, b: u8)
    requires
        a < 16,
        b < 16,
        hex_digit(a) == hex_digit(b),
    ensures
        a == b,
{
}

/// Hexadecimal text tells bytes apart.
proof fn lemma_hex_text_injective(x: Seq<u8>, y: Seq<u8>)
    requires
        hex_text(x) == hex_text(y),
    ensures
        x == y,
{
    assert(hex_text(x).len() == 2 * x.len() && hex_text(y).len() == 2 * y.len());
    assert forall|i: int| 0 <= i < x.len() implies x[i] == y[i] by {
        let (j, k) = (2 * i, 2 * i + 1);
        assert(j / 2 == i && j % 2 == 0);
        assert(k / 2 == i && k % 2 == 1);
        assert(hex_text(x)[j] == hex_digit(x[i] / 16));
        assert(hex_text(y)[j] == hex_digit(y[i] / 16));
        assert(hex_text(x)[k] == hex_digit(x[i] % 16));
        assert(hex_text(y)[k] == hex_digit(y[i] % 16));
        lemma_hex_digit(x[i] / 16, y[i] / 16);
        lemma_hex_digit(x[i] % 16, y[i] % 16);
    }
    assert(x == y);
}

/// Files with other chunks are hashed from other bytes: where they differ in the
/// number of chunks or, in some place, in position, text, headings or metadata,
/// what is hashed differs. Then the hashes differ, too, unless SHA-256 gives these
/// two inputs one digest. `hash_chunks` finds that all chunks are hashable.
pub proof fn law_other_chunks_have_another_hash(a: Seq<Chunk>, b: Seq<Chunk>)
    requires
        all_hashable(a),
        all_hashable(b),
        !same_contents(a, b),
    ensures
        hash_input(records_of(chunk_views(a))) != hash_input(records_of(chunk_views(b))),
        sha256(hash_input(records_of(chunk_views(a)))) != sha256(
            hash_input(records_of(chunk_views(b))),
        ) ==> content_hash(chunk_views(a)) != content_hash(chunk_views(b)),
{
    let (x, y) = (chunk_views(a), chunk_views(b));
    assert forall|i: int| 0 <= i < x.len() implies #[trigger] hashable(x[i]) by {
        assert(x[i] == a[i]@);
    }
    assert forall|i: int| 0 <= i < y.len() implies #[trigger] hashable(y[i]) by {
        assert(y[i] == b[i]@);
    }
    if hash_input(records_of(x)) == hash_input(records_of(y)) {
        assert forall|i: int| 0 <= i < x.len() implies fits(#[trigger] record_of(x[i])) by {
            assert(hashable(x[i]));
        }
        assert forall|i: int| 0 <= i < y.len() implies fits(#[trigger] record_of(y[i])) by {
            assert(hashable(y[i]));
        }
        assert forall|i: int| 0 <= i < x.len() implies (#[trigger] x[i]).chunk_index
            <= u64::MAX by {
            assert(hashable(x[i]));
        }
        assert forall|i: int| 0 <= i < y.len() implies (#[trigger] y[i]).chunk_index
            <= u64::MAX by {
            assert(hashable(y[i]));
        }
        law_hash_input_is_injective(x, y);
        assert forall|i: int|
            #![trigger a[i]]
            #![trigger b[i]]
            0 <= i < a.len() implies same_content(a[i]@, b[i]@) by {
            assert(x[i] == a[i]@ && y[i] == b[i]@);
            assert(hashable(x[i]) && hashable(y[i]));
            assert(y[i].metadata == metadata_entries(b[i].metadata));
        }
    }
    if content_hash(x) == content_hash(y) {
        lemma_hex_text_injective(
            sha256(hash_input(records_of(x))),
            sha256(hash_input(records_of(y))),
        );
    }
}

/// The hash does not depend on the path: files whose chunks agree in all else
/// have the same hash.
pub proof fn law_hash_ignores_paths(a: Seq<ChunkView>, b: Seq<ChunkView>)
    requires
        a.len() == b.len(),
        forall|i: int|
            0 <= i < a.len() ==> #[trigger] a[i] == (ChunkView {
                source_path: a[i].source_path,
                ..b[i]
            }),
    ensures
        content_hash(a) == content_hash(b),
{
    assert forall|i: int| 0 <= i < a.len() implies records_of(a)[i] == records_of(b)[i] by {
        assert(a[i].text == b[i].text);
    }
    assert(records_of(a) == records_of(b));
}

/// A document keeps its hash when it is moved.
pub proof fn law_hash_survives_a_move(a: Seq<char>, b: Seq<char>, content: Seq<char>)
    ensures
        content_hash(document_chunks(a, content)) == content_hash(document_chunks(b, content)),
{
    law_path_is_a_label(a, b, content);
    law_hash_ignores_paths(document_chunks(b, content), document_chunks(a, content));
}

/// Add the bytes of `more` to `buf`.
fn push_bytes(buf: &mut Vec<u8>, more: &[u8])
    ensures
        final(buf)@ == old(buf)@ + more@,
{
    let mut i: usize = 0;
    while i < more.len()
        invariant
            i <= more@.len(),
            buf@ == old(buf)@ + more@.take(i as int),
        decreases more@.len() - i,
    {
        buf.push(more[i]);
        i += 1;
    }
    assert(more@.take(i as int) == more@);
}

/// Add a text to `buf`, behind its length.
fn push_sized(buf: &mut Vec<u8>, text: &str)
    ensures
        final(buf)@ == old(buf)@ + sized(text@),
        encode_utf8(text@).len() <= u64::MAX,
{
    let bytes = text.as_bytes();
    push_bytes(buf, u64_to_le_bytes(bytes.len() as u64).as_slice());
    push_bytes(buf, bytes);
    assert(buf@ == old(buf)@ + sized(text@));
}

/// Add a record to `buf`: a position, a text, and headings and metadata as JSON.
pub fn push_record(buf: &mut Vec<u8>, index: usize, text: &str, headings: &str, metadata: &str)
    ensures
        final(buf)@ == old(buf)@ + framed(
            (Record {
                index: index as u64,
                text: text@,
                headings: headings@,
                metadata: metadata@,
            }),
        ),
        fits(
            (Record {
                index: index as u64,
                text: text@,
                headings: headings@,
                metadata: metadata@,
            }),
        ),
{
    push_bytes(buf, u64_to_le_bytes(index as u64).as_slice());
    push_sized(buf, text);
    push_sized(buf, headings);
    push_sized(buf, metadata);
    proof {
        let record = Record {
            index: index as u64,
            text: text@,
            headings: headings@,
            metadata: metadata@,
        };
        assert(buf@ == old(buf)@ + framed(record));
    }
}

/// The JSON text, or the one that stands for it where serialization failed.
pub fn text_or(result: Result<String, serde_json::Error>, otherwise: &str) -> (r: String)
    ensures
        r@ == (match result {
            Ok(text) => text@,
            Err(_) => otherwise@,
        }),
{
    match result {
        Ok(text) => text,
        Err(_) => otherwise.to_string(),
    }
}

/// The bytes that are hashed for the given chunks. No other chunks give them.
pub fn hash_bytes(chunks: &[Chunk]) -> (r: Vec<u8>)
    ensures
        r@ == hash_input(records_of(chunk_views(chunks@))),
        all_hashable(chunks@),
        forall|other: Seq<Chunk>| #[trigger]
            all_hashable(other) && !same_contents(other, chunks@) ==> hash_input(
                records_of(chunk_views(other)),
            ) != r@,
{
    let mut buf: Vec<u8> = Vec::new();
    push_bytes(&mut buf, HASH_DOMAIN.as_bytes());
    let ghost records = records_of(chunk_views(chunks@));
    let mut i: usize = 0;
    proof {
        assert(records.take(0) == Seq::<Record>::empty());
        assert(buf@ == hash_input(records.take(0)));
    }
    while i < chunks.len()
        invariant
            i <= chunks@.len(),
            records == records_of(chunk_views(chunks@)),
            buf@ == hash_input(records.take(i as int)),
            all_hashable(chunks@.take(i as int)),
        decreases chunks@.len() - i,
    {
        let c = &chunks[i];
        let headings = text_or(strings_to_string(&c.headings), "[]");
        let metadata = text_or(metadata_to_string(&c.metadata), "{}");
        let ghost before = buf@;
        push_record(
            &mut buf,
            c.chunk_index,
            c.text.as_str(),
            headings.as_str(),
            metadata.as_str(),
        );
        proof {
            let next = records.take(i + 1);
            assert(next.drop_last() == records.take(i as int));
            assert(next.last() == record_of(c@));
            assert(buf@ == before + framed(record_of(c@)));
            assert(buf@ == hash_input(next));
            assert(hashable(c@));
            assert forall|k: int| 0 <= k < i + 1 implies hashable(
                (#[trigger] chunks@.take(i + 1)[k])@,
            ) by {
                if k < i {
                    assert(chunks@.take(i + 1)[k] == chunks@.take(i as int)[k]);
                }
            }
        }
        i += 1;
    }
    proof {
        assert(records.take(i as int) == records);
        assert(chunks@.take(i as int) == chunks@);
        assert forall|other: Seq<Chunk>| #[trigger]
            all_hashable(other) && !same_contents(other, chunks@) implies hash_input(
            records_of(chunk_views(other)),
        ) != buf@ by {
            law_other_chunks_have_another_hash(other, chunks@);
        }
    }
    buf
}

/// SHA-256 of a file's chunks (index, text, headings, metadata), in hexadecimal.
/// Used to skip re-embedding unchanged files. What is hashed is the text after
/// chunking, so that a change of the chunker shows, too, not only in
/// `CHUNKER_VERSION`. Other chunks have another hash, unless SHA-256 gives what is
/// hashed of them the same digest.
pub fn hash_chunks(chunks: &[Chunk]) -> (r: String)
    ensures
        r@ == content_hash(chunk_views(chunks@)),
        r@.len() == 64,
        all_hashable(chunks@),
        forall|other: Seq<Chunk>| #[trigger]
            all_hashable(other) && !same_contents(other, chunks@) && sha256(
                hash_input(records_of(chunk_views(other))),
            ) != sha256(hash_input(records_of(chunk_views(chunks@)))) ==> content_hash(
                chunk_views(other),
            ) != r@,
{
    let bytes = hash_bytes(chunks);
    proof {
        assert forall|other: Seq<Chunk>| #[trigger]
            all_hashable(other) && !same_contents(other, chunks@) && sha256(
                hash_input(records_of(chunk_views(other))),
            ) != sha256(hash_input(records_of(chunk_views(chunks@)))) implies content_hash(
            chunk_views(other),
        ) != content_hash(chunk_views(chunks@)) by {
            law_other_chunks_have_another_hash(other, chunks@);
        }
    }
    hex_encode(&sha256_digest(bytes.as_slice()))
}

/// What is hashed: a fixed text that ends with a zero, and then for each chunk its
/// position, its text, its headings and its metadata, the last two as JSON. Numbers
/// take eight bytes, the lowest first, and each text stands in UTF-8 behind the
/// number of its bytes.
pub proof fn law_every_chunk_is_hashed(chunks: Seq<ChunkView>, c: ChunkView)
    ensures
        hash_input(records_of(Seq::<ChunkView>::empty())) == encode_utf8(
            "context-server-file-v1\0"@,
        ),
        ({
            let headings = match json_text(string_list(c.headings)) {
                Some(text) => encode_utf8(text),
                None => encode_utf8("[]"@),
            };
            let metadata = match json_text(Json::Object(c.metadata)) {
                Some(text) => encode_utf8(text),
                None => encode_utf8("{}"@),
            };
            let text = encode_utf8(c.text);
            hash_input(records_of(chunks.push(c))) == hash_input(records_of(chunks))
                + spec_u64_to_le_bytes(c.chunk_index as u64) + spec_u64_to_le_bytes(
                text.len() as u64,
            ) + text + spec_u64_to_le_bytes(headings.len() as u64) + headings
                + spec_u64_to_le_bytes(metadata.len() as u64) + metadata
        }),
{
    let none = Seq::<ChunkView>::empty();
    assert(records_of(none) == Seq::<Record>::empty());
    assert(hash_input(records_of(none)) == encode_utf8(HASH_DOMAIN@));
    let all = records_of(chunks.push(c));
    assert(all == records_of(chunks).push(record_of(c)));
    assert(all.drop_last() == records_of(chunks));
    let r = record_of(c);
    let (text, headings) = (encode_utf8(r.text), encode_utf8(r.headings));
    let metadata = encode_utf8(r.metadata);
    assert(hash_input(all) == hash_input(records_of(chunks)) + framed(r));
    assert(hash_input(records_of(chunks)) + framed(r) == hash_input(records_of(chunks))
        + spec_u64_to_le_bytes(r.index) + spec_u64_to_le_bytes(text.len() as u64) + text
        + spec_u64_to_le_bytes(headings.len() as u64) + headings + spec_u64_to_le_bytes(
        metadata.len() as u64,
    ) + metadata);
}

/// The hash is the SHA-256 digest of what is hashed, two hexadecimal digits for each
/// byte, the high one first, with small letters.
pub proof fn law_hashes_are_hexadecimal_digests(chunks: Seq<ChunkView>, i: int)
    requires
        0 <= i < sha256(hash_input(records_of(chunks))).len(),
    ensures
        ({
            let digest = sha256(hash_input(records_of(chunks)));
            let digits = seq![
                '0',
                '1',
                '2',
                '3',
                '4',
                '5',
                '6',
                '7',
                '8',
                '9',
                'a',
                'b',
                'c',
                'd',
                'e',
                'f',
            ];
            &&& content_hash(chunks).len() == 2 * digest.len()
            &&& content_hash(chunks)[2 * i] == digits[digest[i] as int / 16]
            &&& content_hash(chunks)[2 * i + 1] == digits[digest[i] as int % 16]
        }),
{
    let digest = sha256(hash_input(records_of(chunks)));
    let (j, k) = (2 * i, 2 * i + 1);
    assert(j / 2 == i && j % 2 == 0);
    assert(k / 2 == i && k % 2 == 1);
    assert(content_hash(chunks)[j] == hex_digit(digest[i] / 16));
    assert(content_hash(chunks)[k] == hex_digit(digest[i] % 16));
}

} // verus!
