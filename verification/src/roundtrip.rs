//! Encoding a chunk list into the sparse stream format, and the
//! round-trip law: decoding an encoded stream succeeds and makes the
//! same bytes observable on the destination as the original chunks.

use vstd::prelude::*;

use vstd::arithmetic::div_mod::{lemma_div_denominator, lemma_fundamental_div_mod};

use crate::sparse::{le16_at, le32_at, le_byte, op_output, ops_output, spec_chunk_start,
    spec_decode, spec_decode_chunks, has_sparse_magic, lemma_zero_fill_is_hole, OpModel,
    CHUNK_DONT_CARE, CHUNK_FILL, CHUNK_RAW, SPARSE_MAGIC};

verus! {

/// A 16-bit value as two little-endian bytes.
pub open spec fn le16b(v: int) -> Seq<u8> {
    seq![le_byte(v, 0), le_byte(v, 1)]
}

/// A 32-bit value as four little-endian bytes.
pub open spec fn le32b(v: int) -> Seq<u8> {
    seq![le_byte(v, 0), le_byte(v, 1), le_byte(v, 2), le_byte(v, 3)]
}

proof fn lemma_read16(d: Seq<u8>, pos: int, v: int)
    requires
        0 <= v < 0x10000,
        0 <= pos,
        pos + 2 <= d.len(),
        d[pos] == le_byte(v, 0),
        d[pos + 1] == le_byte(v, 1),
    ensures
        le16_at(d, pos) == v,
{
    lemma_fundamental_div_mod(v, 256);
    assert((v / 256) % 256 == v / 256) by {
        assert(0 <= v / 256 < 256);
    }
}

proof fn lemma_read32(d: Seq<u8>, pos: int, v: int)
    requires
        0 <= v < 0x100000000,
        0 <= pos,
        pos + 4 <= d.len(),
        d[pos] == le_byte(v, 0),
        d[pos + 1] == le_byte(v, 1),
        d[pos + 2] == le_byte(v, 2),
        d[pos + 3] == le_byte(v, 3),
    ensures
        le32_at(d, pos) == v,
{
    lemma_fundamental_div_mod(v, 256);
    lemma_fundamental_div_mod(v / 256, 256);
    lemma_fundamental_div_mod(v / 65536, 256);
    lemma_div_denominator(v, 256, 256);
    lemma_div_denominator(v, 65536, 256);
    assert(65536 * 256 == 16777216);
    assert((v / 16777216) % 256 == v / 16777216) by {
        assert(0 <= v / 16777216 < 256);
    }
}

/// The encoding of one chunk: its 12-byte record header, then its
/// payload (the raw bytes, or the 4-byte fill pattern, or nothing).
pub open spec fn spec_encode_chunk(op: OpModel, blk: int) -> Seq<u8> {
    match op {
        OpModel::Write { data } => le16b(CHUNK_RAW as int) + le16b(0) + le32b(data.len() as int / blk)
            + le32b(12 + data.len() as int) + data,
        OpModel::Fill { pattern, blocks, block } => le16b(CHUNK_FILL as int) + le16b(0) + le32b(
            blocks,
        ) + le32b(16) + le32b(pattern),
        OpModel::Skip { len } => le16b(CHUNK_DONT_CARE as int) + le16b(0) + le32b(len / blk)
            + le32b(12),
    }
}

pub open spec fn spec_encode_chunks(ops: Seq<OpModel>, blk: int) -> Seq<u8>
    decreases ops.len(),
{
    if ops.len() == 0 {
        Seq::empty()
    } else {
        spec_encode_chunk(ops[0], blk) + spec_encode_chunks(ops.drop_first(), blk)
    }
}

/// The encoding of a whole stream: the 28-byte fixed header (major
/// version 1, no extra header bytes, 12-byte chunk headers, a zero
/// total-block field and checksum, both ignored by decoding), then the
/// chunks.
pub open spec fn spec_encode(blk: int, ops: Seq<OpModel>) -> Seq<u8> {
    le32b(SPARSE_MAGIC as int) + le16b(1) + le16b(0) + le16b(28) + le16b(12) + le32b(blk) + le32b(0)
        + le32b(ops.len() as int) + le32b(0) + spec_encode_chunks(ops, blk)
}

/// A chunk that the format can carry for block size `blk`: whole
/// blocks only, with counts and patterns that fit their 32-bit fields.
pub open spec fn wf_chunk(op: OpModel, blk: int) -> bool {
    match op {
        OpModel::Write { data } => data.len() as int % blk == 0 && data.len() as int / blk < 0x100000000,
        OpModel::Fill { pattern, blocks, block } => block == blk && 0 <= pattern < 0x100000000 && 0
            <= blocks < 0x100000000,
        OpModel::Skip { len } => 0 <= len && len % blk == 0 && len / blk < 0x100000000,
    }
}

/// A chunk list that the format can carry.
pub open spec fn wf_stream(blk: int, ops: Seq<OpModel>) -> bool {
    &&& 1 <= blk < 0x100000000
    &&& ops.len() < 0x100000000
    &&& forall|i: int| 0 <= i < ops.len() ==> wf_chunk(#[trigger] ops[i], blk)
}

/// The type and block-count fields of an encoded chunk record read
/// back as written.
proof fn lemma_chunk_header_reads(d: Seq<u8>, pos: int, ty: int, bf: int, tail: Seq<u8>)
    requires
        0 <= ty < 0x10000,
        0 <= bf < 0x100000000,
        0 <= pos,
        pos + 8 + tail.len() <= d.len(),
        forall|j: int|
            0 <= j < 8 + tail.len() ==> d[pos + j] == #[trigger] (le16b(ty) + le16b(0) + le32b(bf)
                + tail)[j],
    ensures
        le16_at(d, pos) == ty,
        le32_at(d, pos + 4) == bf,
{
    let enc = le16b(ty) + le16b(0) + le32b(bf) + tail;
    assert(enc[0] == le_byte(ty, 0));
    assert(enc[1] == le_byte(ty, 1));
    assert(enc[4] == le_byte(bf, 0));
    assert(enc[5] == le_byte(bf, 1));
    assert(enc[6] == le_byte(bf, 2));
    assert(enc[7] == le_byte(bf, 3));
    assert(d[pos + 0] == enc[0]);
    assert(d[pos + 1] == enc[1]);
    assert(d[pos + 4] == enc[4]);
    assert(d[pos + 5] == enc[5]);
    assert(d[pos + 6] == enc[6]);
    assert(d[pos + 7] == enc[7]);
    lemma_read16(d, pos, ty);
    lemma_read32(d, pos + 4, bf);
}

/// One decode step on an encoded raw chunk.
proof fn step_write(d: Seq<u8>, pos: int, data: Seq<u8>, blk: int, chs: int, m: nat, res_rest: Seq<OpModel>)
    requires
        1 <= blk < 0x100000000,
        wf_chunk(OpModel::Write { data }, blk),
        0 <= pos,
        pos + spec_encode_chunk(OpModel::Write { data }, blk).len() <= d.len(),
        forall|j: int|
            0 <= j < spec_encode_chunk(OpModel::Write { data }, blk).len() ==> d[pos + j]
                == #[trigger] spec_encode_chunk(OpModel::Write { data }, blk)[j],
        spec_decode_chunks(d, pos + spec_encode_chunk(OpModel::Write { data }, blk).len(), m, chs, blk)
            == Some(res_rest),
    ensures
        spec_decode_chunks(d, pos, (m + 1) as nat, chs, blk) == Some(
            seq![OpModel::Write { data }] + res_rest,
        ),
{
    let nblocks = data.len() as int / blk;
    proof_write_header(d, pos, data, blk);
    lemma_fundamental_div_mod(data.len() as int, blk);
    assert(nblocks * blk == data.len());
    assert forall|j: int|
        0 <= j < data.len() implies #[trigger] d.subrange(pos + 12, pos + 12 + data.len() as int)[j]
        == data[j] by {
        assert(d[pos + 12 + j] == data[j]);
    }
    assert(d.subrange(pos + 12, pos + 12 + data.len() as int) =~= data);
}

/// One decode step on an encoded fill chunk.
proof fn step_fill(d: Seq<u8>, pos: int, pattern: int, blocks: int, blk: int, chs: int, m: nat, res_rest: Seq<OpModel>)
    requires
        1 <= blk < 0x100000000,
        0 <= pattern < 0x100000000,
        0 <= blocks < 0x100000000,
        0 <= pos,
        pos + 16 <= d.len(),
        forall|j: int|
            0 <= j < spec_encode_chunk(OpModel::Fill { pattern, blocks, block: blk }, blk).len()
                ==> d[pos + j] == #[trigger] spec_encode_chunk(
                OpModel::Fill { pattern, blocks, block: blk },
                blk,
            )[j],
        spec_decode_chunks(d, pos + 16, m, chs, blk) == Some(res_rest),
    ensures
        pattern != 0 ==> spec_decode_chunks(d, pos, (m + 1) as nat, chs, blk) == Some(
            seq![OpModel::Fill { pattern, blocks, block: blk }] + res_rest,
        ),
        pattern == 0 ==> spec_decode_chunks(d, pos, (m + 1) as nat, chs, blk) == Some(
            seq![OpModel::Skip { len: blocks * blk }] + res_rest,
        ),
{
    proof_fill_header(d, pos, pattern, blocks, blk);
}

/// One decode step on an encoded don't-care chunk.
proof fn step_skip(d: Seq<u8>, pos: int, len: int, blk: int, chs: int, m: nat, res_rest: Seq<OpModel>)
    requires
        1 <= blk < 0x100000000,
        wf_chunk(OpModel::Skip { len }, blk),
        0 <= pos,
        pos + 12 <= d.len(),
        forall|j: int|
            0 <= j < spec_encode_chunk(OpModel::Skip { len }, blk).len() ==> d[pos + j]
                == #[trigger] spec_encode_chunk(OpModel::Skip { len }, blk)[j],
        spec_decode_chunks(d, pos + 12, m, chs, blk) == Some(res_rest),
    ensures
        spec_decode_chunks(d, pos, (m + 1) as nat, chs, blk) == Some(
            seq![OpModel::Skip { len }] + res_rest,
        ),
{
    let nblocks = len / blk;
    proof_skip_header(d, pos, len, blk);
    lemma_fundamental_div_mod(len, blk);
    assert(nblocks * blk == len);
}

/// Decoding the encoded chunks, wherever they stand at the end of a
/// stream, succeeds and yields operations with the same observable
/// output.
#[verifier::rlimit(100)]
proof fn lemma_decode_encoded_chunks(d: Seq<u8>, pos: int, ops: Seq<OpModel>, blk: int, chs: int)
    requires
        1 <= blk < 0x100000000,
        forall|i: int| 0 <= i < ops.len() ==> wf_chunk(#[trigger] ops[i], blk),
        0 <= pos <= d.len(),
        d.subrange(pos, d.len() as int) == spec_encode_chunks(ops, blk),
    ensures
        spec_decode_chunks(d, pos, ops.len(), chs, blk) is Some,
        ops_output(spec_decode_chunks(d, pos, ops.len(), chs, blk)->0) == ops_output(ops),
    decreases ops.len(),
{
    let sub = d.subrange(pos, d.len() as int);
    if ops.len() == 0 {
        assert(spec_decode_chunks(d, pos, 0, chs, blk) == Some(Seq::<OpModel>::empty()));
    } else {
        let head = ops[0];
        let enc = spec_encode_chunk(head, blk);
        let rest = ops.drop_first();
        let enc_rest = spec_encode_chunks(rest, blk);
        assert(sub == enc + enc_rest);
        assert(enc.len() >= 12);
        assert forall|j: int| 0 <= j < enc.len() implies d[pos + j] == #[trigger] enc[j] by {
            assert(sub[j] == d[pos + j]);
            assert((enc + enc_rest)[j] == enc[j]);
        }
        let next = pos + enc.len();
        assert(d.subrange(next, d.len() as int) =~= enc_rest) by {
            assert(forall|j: int|
                0 <= j < enc_rest.len() ==> #[trigger] d.subrange(next, d.len() as int)[j] == sub[
                    enc.len() + j]);
        }
        lemma_decode_encoded_chunks(d, next, rest, blk, chs);
        let res_rest = spec_decode_chunks(d, next, rest.len(), chs, blk)->0;
        let m = rest.len();
        assert(seq![head] + rest =~= ops);
        lemma_output_cons(head, rest);
        match head {
            OpModel::Write { data } => {
                step_write(d, pos, data, blk, chs, m, res_rest);
                lemma_output_cons(OpModel::Write { data }, res_rest);
            },
            OpModel::Fill { pattern, blocks, block } => {
                step_fill(d, pos, pattern, blocks, blk, chs, m, res_rest);
                if pattern == 0 {
                    lemma_zero_fill_is_hole(blocks, blk);
                    lemma_output_cons(OpModel::Skip { len: blocks * blk }, res_rest);
                } else {
                    lemma_output_cons(OpModel::Fill { pattern, blocks, block: blk }, res_rest);
                }
            },
            OpModel::Skip { len } => {
                step_skip(d, pos, len, blk, chs, m, res_rest);
                lemma_output_cons(OpModel::Skip { len }, res_rest);
            },
        }
    }
}

/// Header reads of an encoded raw chunk.
proof fn proof_write_header(d: Seq<u8>, pos: int, data: Seq<u8>, blk: int)
    requires
        1 <= blk < 0x100000000,
        data.len() as int / blk < 0x100000000,
        0 <= pos,
        pos + spec_encode_chunk(OpModel::Write { data }, blk).len() <= d.len(),
        forall|j: int|
            0 <= j < spec_encode_chunk(OpModel::Write { data }, blk).len() ==> d[pos + j]
                == #[trigger] spec_encode_chunk(OpModel::Write { data }, blk)[j],
    ensures
        le16_at(d, pos) == CHUNK_RAW as int,
        le32_at(d, pos + 4) == data.len() as int / blk,
        forall|j: int| 0 <= j < data.len() ==> #[trigger] d[pos + 12 + j] == data[j],
{
    let enc = spec_encode_chunk(OpModel::Write { data }, blk);
    let nblocks = data.len() as int / blk;
    let tail = le32b(12 + data.len() as int) + data;
    assert(enc =~= le16b(CHUNK_RAW as int) + le16b(0) + le32b(nblocks) + tail);
    assert(forall|j: int|
        0 <= j < 8 + tail.len() ==> d[pos + j] == #[trigger] (le16b(CHUNK_RAW as int) + le16b(0)
            + le32b(nblocks) + tail)[j]);
    lemma_chunk_header_reads(d, pos, CHUNK_RAW as int, nblocks, tail);
    assert forall|j: int| 0 <= j < data.len() implies #[trigger] d[pos + 12 + j] == data[j] by {
        assert(enc[12 + j] == data[j]);
        assert(d[pos + (12 + j)] == enc[12 + j]);
    }
}

/// Header and pattern reads of an encoded fill chunk.
proof fn proof_fill_header(d: Seq<u8>, pos: int, pattern: int, blocks: int, blk: int)
    requires
        0 <= pattern < 0x100000000,
        0 <= blocks < 0x100000000,
        0 <= pos,
        pos + 16 <= d.len(),
        forall|j: int|
            0 <= j < spec_encode_chunk(
                OpModel::Fill { pattern, blocks, block: blk },
                blk,
            ).len() ==> d[pos + j] == #[trigger] spec_encode_chunk(
                OpModel::Fill { pattern, blocks, block: blk },
                blk,
            )[j],
    ensures
        le16_at(d, pos) == CHUNK_FILL as int,
        le32_at(d, pos + 4) == blocks,
        le32_at(d, pos + 12) == pattern,
{
    let enc = spec_encode_chunk(OpModel::Fill { pattern, blocks, block: blk }, blk);
    let tail = le32b(16) + le32b(pattern);
    assert(enc =~= le16b(CHUNK_FILL as int) + le16b(0) + le32b(blocks) + tail);
    assert(forall|j: int|
        0 <= j < 8 + tail.len() ==> d[pos + j] == #[trigger] (le16b(CHUNK_FILL as int) + le16b(0)
            + le32b(blocks) + tail)[j]);
    lemma_chunk_header_reads(d, pos, CHUNK_FILL as int, blocks, tail);
    assert(enc[12] == le_byte(pattern, 0));
    assert(enc[13] == le_byte(pattern, 1));
    assert(enc[14] == le_byte(pattern, 2));
    assert(enc[15] == le_byte(pattern, 3));
    assert(d[pos + 12] == enc[12]);
    assert(d[pos + 13] == enc[13]);
    assert(d[pos + 14] == enc[14]);
    assert(d[pos + 15] == enc[15]);
    lemma_read32(d, pos + 12, pattern);
}

/// Header reads of an encoded don't-care chunk.
proof fn proof_skip_header(d: Seq<u8>, pos: int, len: int, blk: int)
    requires
        1 <= blk < 0x100000000,
        0 <= len,
        len / blk < 0x100000000,
        0 <= pos,
        pos + 12 <= d.len(),
        forall|j: int|
            0 <= j < spec_encode_chunk(OpModel::Skip { len }, blk).len() ==> d[pos + j]
                == #[trigger] spec_encode_chunk(OpModel::Skip { len }, blk)[j],
    ensures
        le16_at(d, pos) == CHUNK_DONT_CARE as int,
        le32_at(d, pos + 4) == len / blk,
{
    let enc = spec_encode_chunk(OpModel::Skip { len }, blk);
    let tail = le32b(12);
    assert(enc =~= le16b(CHUNK_DONT_CARE as int) + le16b(0) + le32b(len / blk) + tail);
    assert(forall|j: int|
        0 <= j < 8 + tail.len() ==> d[pos + j] == #[trigger] (le16b(CHUNK_DONT_CARE as int)
            + le16b(0) + le32b(len / blk) + tail)[j]);
    lemma_chunk_header_reads(d, pos, CHUNK_DONT_CARE as int, len / blk, tail);
}

proof fn lemma_output_cons(h: OpModel, t: Seq<OpModel>)
    ensures
        ops_output(seq![h] + t) == op_output(h) + ops_output(t),
{
    let s = seq![h] + t;
    assert(s[0] == h);
    assert(s.drop_first() =~= t);
}

/// Round trip: a well-formed chunk list, encoded into the sparse
/// stream format and decoded again, makes exactly the same bytes
/// observable on the destination — raw payloads and non-zero fill
/// expansions at their offsets, logical zeros everywhere else. In
/// particular decoding is deterministic: the stream alone fixes the
/// outcome.
pub proof fn lemma_encode_decode_round_trip(blk: int, ops: Seq<OpModel>)
    requires
        wf_stream(blk, ops),
    ensures
        spec_decode(spec_encode(blk, ops)) is Ok,
        ops_output(spec_decode(spec_encode(blk, ops))->Ok_0) == ops_output(ops),
{
    let d = spec_encode(blk, ops);
    let enc = spec_encode_chunks(ops, blk);
    assert(d.len() == 28 + enc.len());
    lemma_read32(d, 0, SPARSE_MAGIC as int);
    lemma_read16(d, 8, 28);
    lemma_read16(d, 10, 12);
    lemma_read32(d, 12, blk);
    lemma_read32(d, 20, ops.len() as int);
    assert(has_sparse_magic(d));
    assert(spec_chunk_start(d) == 28);
    assert(d.subrange(28, d.len() as int) =~= enc) by {
        assert(forall|j: int|
            0 <= j < enc.len() ==> #[trigger] d.subrange(28, d.len() as int)[j] == d[28 + j]);
    }
    lemma_decode_encoded_chunks(d, 28, ops, blk, 12);
}

} // verus!
