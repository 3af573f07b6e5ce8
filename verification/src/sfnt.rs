//! The sfnt table directory of a font file, and the name-table scrub the
//! library applies before handing bytes to the parser.
//!
//! A font file starts with a table directory (for a collection, the first
//! face's directory is found through the offset at byte 12): a 4-byte
//! magic, a 16-bit table count at offset 4, and 16-byte records from
//! offset 12, each holding a 4-byte tag, a checksum, an offset and a
//! length. fontdue decodes the face's embedded full name from the `name`
//! table when one is present, and its UTF-16 decoder reads past the end of
//! a malformed name record (one of odd length, or truncated inside a
//! surrogate pair) instead of failing. This library never uses the
//! embedded name — every font is registered under a caller-supplied name —
//! so [`scrub_name_records`] zeroes the length field of every `name`
//! directory record in a copy of the bytes. The parser then sees an empty
//! `name` table, decodes nothing, and everything else (glyph tables,
//! metrics) is untouched; the scrubbed bytes are what the library's font
//! model is stated over.

use vstd::prelude::*;

verus! {

/// The 16-bit big-endian value at offset `i`.
pub open spec fn be16_at(b: Seq<u8>, i: int) -> int {
    (b[i] as int) * 0x100 + (b[i + 1] as int)
}

/// The 32-bit big-endian value at offset `i`.
pub open spec fn be32_at(b: Seq<u8>, i: int) -> int {
    (b[i] as int) * 0x1000000 + (b[i + 1] as int) * 0x10000 + (b[i + 2] as int) * 0x100 + (b[i
        + 3] as int)
}

/// The bytes start with the font-collection magic `ttcf`.
pub open spec fn is_collection(b: Seq<u8>) -> bool {
    b.len() >= 16 && b[0] == 0x74u8 && b[1] == 0x74u8 && b[2] == 0x63u8 && b[3] == 0x66u8
}

/// Where the (first face's) table directory starts: a collection points at
/// it through the offset at byte 12; a plain font starts with it.
pub open spec fn face_base(b: Seq<u8>) -> int {
    if is_collection(b) {
        be32_at(b, 12)
    } else {
        0
    }
}

/// The directory's table count, when its header is in bounds.
pub open spec fn table_count(b: Seq<u8>) -> int {
    if face_base(b) + 6 <= b.len() {
        be16_at(b, face_base(b) + 4)
    } else {
        0
    }
}

/// Where the `k`-th 16-byte directory record starts.
pub open spec fn record_start(b: Seq<u8>, k: int) -> int {
    face_base(b) + 12 + 16 * k
}

/// The `k`-th directory record is in bounds and tagged `name`.
pub open spec fn name_record_at(b: Seq<u8>, k: int) -> bool {
    &&& 0 <= k < table_count(b)
    &&& record_start(b, k) + 16 <= b.len()
    &&& b[record_start(b, k)] == 0x6eu8
    &&& b[record_start(b, k) + 1] == 0x61u8
    &&& b[record_start(b, k) + 2] == 0x6du8
    &&& b[record_start(b, k) + 3] == 0x65u8
}

/// Byte `i` lies in the length field (the last 4 bytes) of some `name`
/// directory record.
pub open spec fn in_name_length_field(b: Seq<u8>, i: int) -> bool {
    exists|k: int|
        #[trigger] name_record_at(b, k) && record_start(b, k) + 12 <= i < record_start(b, k) + 16
}

/// Byte `i` lies in the length field of a `name` record with index below `k`.
pub open spec fn in_field_below(b: Seq<u8>, i: int, k: int) -> bool {
    exists|k2: int|
        #[trigger] name_record_at(b, k2) && k2 < k && record_start(b, k2) + 12 <= i < record_start(
            b,
            k2,
        ) + 16
}

/// The bytes with the length field of every `name` directory record
/// zeroed; everything else unchanged.
pub open spec fn scrub_names(b: Seq<u8>) -> Seq<u8> {
    Seq::new(
        b.len(),
        |i: int|
            if in_name_length_field(b, i) {
                0u8
            } else {
                b[i]
            },
    )
}

/// Every `name` directory record has a zero length: the parser then sees
/// an empty `name` table and never decodes an embedded name.
pub open spec fn names_scrubbed(b: Seq<u8>) -> bool {
    forall|k: int|
        #[trigger] name_record_at(b, k) ==> b[record_start(b, k) + 12] == 0 && b[record_start(b, k)
            + 13] == 0 && b[record_start(b, k) + 14] == 0 && b[record_start(b, k) + 15] == 0
}

/// Every name-length-field byte lies at or past byte 24 of the directory,
/// so the magic, the collection offset and the directory header are never
/// in one.
proof fn lemma_fields_start_late(b: Seq<u8>, i: int)
    requires
        in_name_length_field(b, i),
    ensures
        i >= 24,
        i >= face_base(b) + 24,
{
    let k = choose|k: int|
        #[trigger] name_record_at(b, k) && record_start(b, k) + 12 <= i < record_start(b, k) + 16;
    assert(16 * k >= 0) by (nonlinear_arith)
        requires k >= 0;
    assert(face_base(b) >= 0);
}

/// A directory record's tag bytes never lie in another record's length
/// field.
proof fn lemma_tag_not_in_field(b: Seq<u8>, k: int, t: int)
    requires
        0 <= k,
        record_start(b, k) <= t < record_start(b, k) + 4,
    ensures
        !in_name_length_field(b, t),
{
    if in_name_length_field(b, t) {
        let k2 = choose|k2: int|
            #[trigger] name_record_at(b, k2) && record_start(b, k2) + 12 <= t < record_start(b, k2)
                + 16;
        assert(16 * k2 + 12 <= 16 * k + 3 && 16 * k <= 16 * k2 + 15 ==> false) by (nonlinear_arith);
    }
}

/// Scrubbing really leaves every `name` record with a zero length: the
/// directory structure (magic, base, count, tags, bounds) reads the same
/// from the scrubbed bytes, and the length fields read zero.
pub proof fn lemma_scrub_names_scrubbed(b: Seq<u8>)
    ensures
        names_scrubbed(scrub_names(b)),
{
    let r = scrub_names(b);
    assert(r.len() == b.len());
    assert forall|i: int| 0 <= i < 16 && i < b.len() implies r[i] == b[i] by {
        if in_name_length_field(b, i) {
            lemma_fields_start_late(b, i);
        }
    }
    assert(is_collection(r) == is_collection(b));
    if is_collection(b) {
        assert(be32_at(r, 12) == be32_at(b, 12));
    }
    assert(face_base(r) == face_base(b));
    let base = face_base(b);
    if base + 6 <= b.len() {
        assert forall|i: int| base + 4 <= i < base + 6 implies r[i] == b[i] by {
            if in_name_length_field(b, i) {
                lemma_fields_start_late(b, i);
            }
        }
        assert(be16_at(r, base + 4) == be16_at(b, base + 4));
    }
    assert(table_count(r) == table_count(b));
    assert forall|k: int| #[trigger] name_record_at(r, k) implies name_record_at(b, k) && r[
        record_start(r, k) + 12
    ] == 0 && r[record_start(r, k) + 13] == 0 && r[record_start(r, k) + 14] == 0 && r[record_start(
        r,
        k,
    ) + 15] == 0 by {
        assert forall|t: int|
            record_start(b, k) <= t < record_start(b, k) + 4 implies r[t] == b[t] by {
            lemma_tag_not_in_field(b, k, t);
        }
        assert(name_record_at(b, k));
        assert forall|p: int|
            record_start(b, k) + 12 <= p < record_start(b, k) + 16 implies r[p] == 0u8 by {
            assert(in_name_length_field(b, p));
        }
    }
}

/// Copies the bytes and zeroes the length field of every `name` directory
/// record of the (first face's) table directory, so that the parser sees
/// an empty `name` table. Everything else is byte-for-byte unchanged.
pub fn scrub_name_records(data: &[u8]) -> (r: Vec<u8>)
    ensures
        r@ == scrub_names(data@),
        names_scrubbed(r@),
{
    let n = data.len();
    let mut out: Vec<u8> = Vec::new();
    let mut i: usize = 0;
    while i < n
        invariant
            n == data@.len(),
            i <= n,
            out@.len() == i,
            forall|j: int| 0 <= j < i ==> out@[j] == data@[j],
        decreases n - i,
    {
        out.push(data[i]);
        i = i + 1;
    }
    let is_ttc = n >= 16 && data[0] == 0x74 && data[1] == 0x74 && data[2] == 0x63 && data[3]
        == 0x66;
    let base: usize = if is_ttc {
        let b32: u32 = (data[12] as u32) * 0x1000000 + (data[13] as u32) * 0x10000 + (
        data[14] as u32) * 0x100 + (data[15] as u32);
        b32 as usize
    } else {
        0
    };
    proof {
        assert(base == face_base(data@));
    }
    let count: usize = if n >= 6 && base <= n - 6 {
        (data[base + 4] as usize) * 0x100 + (data[base + 5] as usize)
    } else {
        0
    };
    proof {
        assert(count == table_count(data@));
    }
    let mut k: usize = 0;
    while k < count
        invariant
            n == data@.len(),
            out@.len() == n,
            base == face_base(data@),
            base <= u32::MAX,
            count == table_count(data@),
            count <= 0xFFFF,
            k <= count,
            forall|j: int|
                0 <= j < n ==> out@[j] == (if in_field_below(data@, j, k as int) {
                    0u8
                } else {
                    data@[j]
                }),
        decreases count - k,
    {
        let start64: u64 = base as u64 + 12 + 16 * (k as u64);
        let ghost rs = record_start(data@, k as int);
        proof {
            assert(start64 == rs);
        }
        if start64 + 16 <= n as u64 {
            let start: usize = start64 as usize;
            if data[start] == 0x6e && data[start + 1] == 0x61 && data[start + 2] == 0x6d
                && data[start + 3] == 0x65 {
                proof {
                    assert(name_record_at(data@, k as int));
                }
                let ghost prev = out@;
                out[start + 12] = 0;
                out[start + 13] = 0;
                out[start + 14] = 0;
                out[start + 15] = 0;
                proof {
                    assert forall|j: int|
                        0 <= j < n implies out@[j] == (if in_field_below(data@, j, k as int + 1) {
                        0u8
                    } else {
                        data@[j]
                    }) by {
                        if rs + 12 <= j < rs + 16 {
                            assert(in_field_below(data@, j, k as int + 1));
                            assert(out@[j] == 0u8);
                        } else {
                            assert(out@[j] == prev[j]);
                            if in_field_below(data@, j, k as int + 1) {
                                let k2 = choose|k2: int|
                                    #[trigger] name_record_at(data@, k2) && k2 < k as int + 1
                                        && record_start(data@, k2) + 12 <= j < record_start(
                                        data@,
                                        k2,
                                    ) + 16;
                                assert(k2 < k as int);
                                assert(in_field_below(data@, j, k as int));
                            }
                        }
                    }
                }
            } else {
                proof {
                    assert(!name_record_at(data@, k as int));
                    assert forall|j: int|
                        0 <= j < n implies out@[j] == (if in_field_below(data@, j, k as int + 1) {
                        0u8
                    } else {
                        data@[j]
                    }) by {
                        if in_field_below(data@, j, k as int + 1) {
                            let k2 = choose|k2: int|
                                #[trigger] name_record_at(data@, k2) && k2 < k as int + 1
                                    && record_start(data@, k2) + 12 <= j < record_start(data@, k2)
                                    + 16;
                            assert(k2 < k as int);
                            assert(in_field_below(data@, j, k as int));
                        }
                    }
                }
            }
        } else {
            proof {
                assert(!name_record_at(data@, k as int));
                assert forall|j: int|
                    0 <= j < n implies out@[j] == (if in_field_below(data@, j, k as int + 1) {
                    0u8
                } else {
                    data@[j]
                }) by {
                    if in_field_below(data@, j, k as int + 1) {
                        let k2 = choose|k2: int|
                            #[trigger] name_record_at(data@, k2) && k2 < k as int + 1
                                && record_start(data@, k2) + 12 <= j < record_start(data@, k2)
                                + 16;
                        assert(k2 < k as int);
                        assert(in_field_below(data@, j, k as int));
                    }
                }
            }
        }
        k = k + 1;
    }
    proof {
        assert forall|j: int| 0 <= j < n implies out@[j] == scrub_names(data@)[j] by {
            if in_name_length_field(data@, j) {
                let k2 = choose|k2: int|
                    #[trigger] name_record_at(data@, k2) && record_start(data@, k2) + 12 <= j
                        < record_start(data@, k2) + 16;
                assert(k2 < count);
                assert(in_field_below(data@, j, count as int));
            } else {
                if in_field_below(data@, j, count as int) {
                    assert(in_name_length_field(data@, j));
                }
            }
        }
        assert(out@ =~= scrub_names(data@));
        lemma_scrub_names_scrubbed(data@);
    }
    out
}

} // verus!
