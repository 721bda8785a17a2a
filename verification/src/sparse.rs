//! The sparse-image decode engine: a byte-exact model of the binary
//! sparse format and a verified decoder from a stream to the sequence
//! of sink operations (verbatim writes, pattern fills, hole skips).

use vstd::prelude::*;

use crate::errors::UpdateError;

verus! {

pub const SPARSE_MAGIC: u32 = 0xED26FF3A;

pub const CHUNK_RAW: u16 = 0xCAC1;

pub const CHUNK_FILL: u16 = 0xCAC2;

pub const CHUNK_DONT_CARE: u16 = 0xCAC3;

pub const CHUNK_CRC32: u16 = 0xCAC4;

/// Fixed part of the file header: 28 bytes.
pub const FIXED_HEADER_LEN: usize = 28;

/// Bytes of one chunk record header as read from the stream.
pub const CHUNK_RECORD_LEN: usize = 12;

/// Little-endian 16-bit value at offset `i`.
pub open spec fn le16_at(d: Seq<u8>, i: int) -> int {
    d[i] + 0x100 * d[i + 1]
}

/// Little-endian 32-bit value at offset `i`.
pub open spec fn le32_at(d: Seq<u8>, i: int) -> int {
    d[i] + 0x100 * d[i + 1] + 0x10000 * d[i + 2] + 0x1000000 * d[i + 3]
}

/// Reads a little-endian 16-bit value.
pub fn rd_u16(d: &[u8], pos: usize) -> (r: u16)
    requires
        pos + 2 <= d@.len(),
    ensures
        r as int == le16_at(d@, pos as int),
{
    let b0 = d[pos];
    let b1 = d[pos + 1];
    (b0 as u16) + 0x100 * (b1 as u16)
}

/// Reads a little-endian 32-bit value.
pub fn rd_u32(d: &[u8], pos: usize) -> (r: u32)
    requires
        pos + 4 <= d@.len(),
    ensures
        r as int == le32_at(d@, pos as int),
{
    let b0 = d[pos];
    let b1 = d[pos + 1];
    let b2 = d[pos + 2];
    let b3 = d[pos + 3];
    (b0 as u32) + 0x100 * (b1 as u32) + 0x10000 * (b2 as u32) + 0x1000000 * (b3 as u32)
}

/// The fixed sparse file header fields.
#[derive(Debug, PartialEq, Eq)]
pub struct SparseHeader {
    pub major: u16,
    pub minor: u16,
    pub file_hdr_size: u16,
    pub chunk_hdr_size: u16,
    pub block_size: u32,
    pub total_blocks: u32,
    pub total_chunks: u32,
    pub checksum: u32,
}

/// Whether the stream begins with the sparse magic constant.
pub open spec fn has_sparse_magic(d: Seq<u8>) -> bool {
    d.len() >= 4 && le32_at(d, 0) == SPARSE_MAGIC
}

/// Parses the 28 fixed header bytes. Fails exactly when the stream is
/// shorter than the fixed header or the magic constant is wrong.
pub fn parse_header(d: &[u8]) -> (r: Result<SparseHeader, UpdateError>)
    ensures
        r is Ok <==> (has_sparse_magic(d@) && d@.len() >= FIXED_HEADER_LEN),
        r is Err ==> r->Err_0 == UpdateError::InvalidFormat,
        r matches Ok(h) ==> {
            &&& h.major as int == le16_at(d@, 4)
            &&& h.minor as int == le16_at(d@, 6)
            &&& h.file_hdr_size as int == le16_at(d@, 8)
            &&& h.chunk_hdr_size as int == le16_at(d@, 10)
            &&& h.block_size as int == le32_at(d@, 12)
            &&& h.total_blocks as int == le32_at(d@, 16)
            &&& h.total_chunks as int == le32_at(d@, 20)
            &&& h.checksum as int == le32_at(d@, 24)
        },
{
    if d.len() < 4 {
        return Err(UpdateError::InvalidFormat);
    }
    let magic = rd_u32(d, 0);
    if magic != SPARSE_MAGIC {
        return Err(UpdateError::InvalidFormat);
    }
    if d.len() < FIXED_HEADER_LEN {
        return Err(UpdateError::InvalidFormat);
    }
    Ok(SparseHeader {
        major: rd_u16(d, 4),
        minor: rd_u16(d, 6),
        file_hdr_size: rd_u16(d, 8),
        chunk_hdr_size: rd_u16(d, 10),
        block_size: rd_u32(d, 12),
        total_blocks: rd_u32(d, 16),
        total_chunks: rd_u32(d, 20),
        checksum: rd_u32(d, 24),
    })
}

/// Model of one decoded sink operation.
pub enum OpModel {
    /// Bytes copied verbatim to the sink.
    Write { data: Seq<u8> },
    /// A block-sized buffer built from a non-zero 4-byte pattern,
    /// written `blocks` times.
    Fill { pattern: int, blocks: int, block: int },
    /// A hole: the sink position advances, the covered range is
    /// logically zero.
    Skip { len: int },
}

/// One decoded sink operation, as handed to the caller.
#[derive(Debug, PartialEq, Eq)]
pub enum SinkOp {
    Write { data: Vec<u8> },
    FillBlocks { pattern: u32, blocks: u32, block_size: u32 },
    Skip { len: u64 },
}

impl View for SinkOp {
    type V = OpModel;

    open spec fn view(&self) -> OpModel {
        match self {
            SinkOp::Write { data } => OpModel::Write { data: data@ },
            SinkOp::FillBlocks { pattern, blocks, block_size } => OpModel::Fill {
                pattern: *pattern as int,
                blocks: *blocks as int,
                block: *block_size as int,
            },
            SinkOp::Skip { len } => OpModel::Skip { len: *len as int },
        }
    }
}

impl DeepView for SinkOp {
    type V = OpModel;

    open spec fn deep_view(&self) -> OpModel {
        self.view()
    }
}

/// Decodes `n` chunk records starting at `pos`. `chs` is the declared
/// chunk-header size (used only to size the payload of checksum and
/// unrecognized chunks, as the format defines it), `blk` the block
/// size. `None` is a structure error: a truncated record or a chunk
/// whose declared total size is smaller than its own header.
pub open spec fn spec_decode_chunks(d: Seq<u8>, pos: int, n: nat, chs: int, blk: int) -> Option<
    Seq<OpModel>,
>
    decreases n,
{
    if n == 0 {
        Some(Seq::empty())
    } else if pos + 12 > d.len() {
        None
    } else {
        let ty = le16_at(d, pos);
        let blocks = le32_at(d, pos + 4);
        let total = le32_at(d, pos + 8);
        let out_len = blocks * blk;
        if ty == CHUNK_RAW {
            if pos + 12 + out_len > d.len() {
                None
            } else {
                match spec_decode_chunks(d, pos + 12 + out_len, (n - 1) as nat, chs, blk) {
                    None => None,
                    Some(rest) => Some(
                        seq![OpModel::Write { data: d.subrange(pos + 12, pos + 12 + out_len) }]
                            + rest,
                    ),
                }
            }
        } else if ty == CHUNK_FILL {
            if pos + 16 > d.len() {
                None
            } else {
                let pattern = le32_at(d, pos + 12);
                let op = if pattern == 0 {
                    OpModel::Skip { len: out_len }
                } else {
                    OpModel::Fill { pattern: pattern, blocks: blocks, block: blk }
                };
                match spec_decode_chunks(d, pos + 16, (n - 1) as nat, chs, blk) {
                    None => None,
                    Some(rest) => Some(seq![op] + rest),
                }
            }
        } else if ty == CHUNK_DONT_CARE {
            match spec_decode_chunks(d, pos + 12, (n - 1) as nat, chs, blk) {
                None => None,
                Some(rest) => Some(seq![OpModel::Skip { len: out_len }] + rest),
            }
        } else {
            // Embedded checksum or unrecognized: its payload is
            // consumed and discarded, nothing reaches the sink.
            if total < chs || pos + 12 + (total - chs) > d.len() {
                None
            } else {
                spec_decode_chunks(d, pos + 12 + (total - chs), (n - 1) as nat, chs, blk)
            }
        }
    }
}

/// Where the chunk records begin: declared extra file-header bytes are
/// skipped.
pub open spec fn spec_chunk_start(d: Seq<u8>) -> int {
    if le16_at(d, 8) > 28 {
        le16_at(d, 8)
    } else {
        28
    }
}

/// The decoded operation sequence of a sparse stream.
pub open spec fn spec_decode(d: Seq<u8>) -> Result<Seq<OpModel>, UpdateError> {
    if !has_sparse_magic(d) {
        Err(UpdateError::InvalidFormat)
    } else if d.len() < 28 {
        Err(UpdateError::InvalidFormat)
    } else {
        match spec_decode_chunks(
            d,
            spec_chunk_start(d),
            le32_at(d, 20) as nat,
            le16_at(d, 10),
            le32_at(d, 12),
        ) {
            None => Err(UpdateError::InvalidFormat),
            Some(ops) => Ok(ops),
        }
    }
}

/// The decoding of the whole stream equals `prefix` followed by
/// whatever the remaining records decode to; a structure error in the
/// remainder is a structure error of the whole.
pub open spec fn decodes_to(
    whole: Option<Seq<OpModel>>,
    prefix: Seq<OpModel>,
    sub: Option<Seq<OpModel>>,
) -> bool {
    match sub {
        None => whole is None,
        Some(rest) => whole == Some(prefix + rest),
    }
}

/// Decodes a whole sparse stream into the sink operations it denotes,
/// in order. Fails with `InvalidFormat` exactly when the magic is
/// wrong or the structure is bad; nothing is handed to the sink then.
#[verifier::rlimit(100)]
pub fn decode_sparse(data: &[u8]) -> (r: Result<Vec<SinkOp>, UpdateError>)
    ensures
        (r is Ok) == (spec_decode(data@) is Ok),
        r matches Ok(ops) ==> Ok::<Seq<OpModel>, UpdateError>(ops.deep_view()) == spec_decode(
            data@,
        ),
        r matches Err(e) ==> e == UpdateError::InvalidFormat && spec_decode(data@) == Err::<
            Seq<OpModel>,
            UpdateError,
        >(e),
{
    let header = match parse_header(data) {
        Ok(h) => h,
        Err(e) => {
            return Err(e);
        },
    };
    let n = header.total_chunks;
    let chs = header.chunk_hdr_size;
    let blk = header.block_size;
    let start: usize = if header.file_hdr_size > 28 {
        header.file_hdr_size as usize
    } else {
        28
    };
    let ghost d = data@;
    let ghost whole = spec_decode_chunks(d, start as int, n as nat, chs as int, blk as int);
    proof {
        assert(start as int == spec_chunk_start(d));
        assert(whole is None ==> spec_decode(d) == Err::<Seq<OpModel>, UpdateError>(
            UpdateError::InvalidFormat,
        ));
        assert(forall|ops: Seq<OpModel>|
            whole == Some::<Seq<OpModel>>(ops) ==> spec_decode(d) == Ok::<
                Seq<OpModel>,
                UpdateError,
            >(ops));
    }
    let _dlen = data.len();
    let mut acc: Vec<SinkOp> = Vec::new();
    let mut pos: usize = start;
    let mut k: u32 = 0;
    proof {
        assert(acc.deep_view() =~= Seq::<OpModel>::empty());
        if whole is Some {
            assert(Seq::<OpModel>::empty() + whole->0 =~= whole->0);
        }
    }
    while k < n
        invariant
            d == data@,
            d.len() <= usize::MAX,
            0 <= k <= n,
            pos <= usize::MAX,
            whole == spec_decode_chunks(d, start as int, n as nat, chs as int, blk as int),
            whole is None ==> spec_decode(d) == Err::<Seq<OpModel>, UpdateError>(
                UpdateError::InvalidFormat,
            ),
            forall|ops: Seq<OpModel>|
                whole == Some::<Seq<OpModel>>(ops) ==> spec_decode(d) == Ok::<
                    Seq<OpModel>,
                    UpdateError,
                >(ops),
            decodes_to(
                whole,
                acc.deep_view(),
                spec_decode_chunks(d, pos as int, (n - k) as nat, chs as int, blk as int),
            ),
        decreases n - k,
    {
        let ghost m = (n - k) as nat;
        let ghost here = spec_decode_chunks(d, pos as int, m, chs as int, blk as int);
        if pos > data.len() || data.len() - pos < 12 {
            assert(here is None);
            return Err(UpdateError::InvalidFormat);
        }
        let ty = rd_u16(data, pos);
        let blocks = rd_u32(data, pos + 4);
        let total = rd_u32(data, pos + 8);
        proof {
            assert((blocks as int) * (blk as int) <= 0xFFFFFFFF * 0xFFFFFFFF) by (nonlinear_arith)
                requires
                    0 <= blocks as int <= 0xFFFFFFFF,
                    0 <= blk as int <= 0xFFFFFFFF,
            ;
        }
        let out_len: u64 = (blocks as u64) * (blk as u64);
        let avail: u64 = (data.len() - (pos + 12)) as u64;
        let ghost old_acc = acc.deep_view();
        if ty == CHUNK_RAW {
            if out_len > avail {
                assert(here is None);
                return Err(UpdateError::InvalidFormat);
            }
            let end = pos + 12 + (out_len as usize);
            let payload = vstd::slice::slice_to_vec(vstd::slice::slice_subrange(
                data,
                pos + 12,
                end,
            ));
            let ghost op = OpModel::Write { data: d.subrange(pos + 12, pos + 12 + out_len as int) };
            acc.push(SinkOp::Write { data: payload });
            proof {
                assert(acc.deep_view() =~~= old_acc.push(op));
                lemma_step_frame(d, pos as int, m, chs as int, blk as int, whole, old_acc, op, pos
                    + 12 + out_len as int);
            }
            pos = end;
        } else if ty == CHUNK_FILL {
            if avail < 4 {
                assert(here is None);
                return Err(UpdateError::InvalidFormat);
            }
            let pattern = rd_u32(data, pos + 12);
            let ghost op = if pattern == 0 {
                OpModel::Skip { len: (blocks as int) * (blk as int) }
            } else {
                OpModel::Fill { pattern: pattern as int, blocks: blocks as int, block: blk as int }
            };
            if pattern == 0 {
                acc.push(SinkOp::Skip { len: out_len });
            } else {
                acc.push(SinkOp::FillBlocks { pattern, blocks, block_size: blk });
            }
            proof {
                assert(acc.deep_view() =~~= old_acc.push(op));
                lemma_step_frame(d, pos as int, m, chs as int, blk as int, whole, old_acc, op, pos
                    + 16);
            }
            pos = pos + 16;
        } else if ty == CHUNK_DONT_CARE {
            let ghost op = OpModel::Skip { len: (blocks as int) * (blk as int) };
            acc.push(SinkOp::Skip { len: out_len });
            proof {
                assert(acc.deep_view() =~~= old_acc.push(op));
                lemma_step_frame(d, pos as int, m, chs as int, blk as int, whole, old_acc, op, pos
                    + 12);
            }
            pos = pos + 12;
        } else {
            if total < chs as u32 {
                assert(here is None);
                return Err(UpdateError::InvalidFormat);
            }
            let payload: u64 = (total - chs as u32) as u64;
            if payload > avail {
                assert(here is None);
                return Err(UpdateError::InvalidFormat);
            }
            proof {
                lemma_skip_frame(d, pos as int, m, chs as int, blk as int, whole, old_acc, pos + 12
                    + payload as int);
            }
            pos = pos + 12 + (payload as usize);
        }
        k = k + 1;
    }
    proof {
        let tail = spec_decode_chunks(d, pos as int, 0, chs as int, blk as int);
        assert(tail == Some(Seq::<OpModel>::empty()));
        assert(acc.deep_view() + Seq::<OpModel>::empty() =~= acc.deep_view());
    }
    Ok(acc)
}

/// A run of zero bytes.
pub open spec fn zeros(n: int) -> Seq<u8> {
    Seq::new(n as nat, |i: int| 0u8)
}

/// Byte `k` (0 to 3) of a 32-bit value in little-endian order.
pub open spec fn le_byte(v: int, k: int) -> u8 {
    if k == 0 {
        (v % 256) as u8
    } else if k == 1 {
        ((v / 256) % 256) as u8
    } else if k == 2 {
        ((v / 65536) % 256) as u8
    } else {
        ((v / 16777216) % 256) as u8
    }
}

/// One block built from a 4-byte fill pattern: the pattern repeated
/// across every whole 4-byte slot, any remainder bytes left zero.
pub open spec fn fill_block(pattern: int, block: int) -> Seq<u8> {
    Seq::new(
        block as nat,
        |j: int|
            if j < 4 * (block / 4) {
                le_byte(pattern, j % 4)
            } else {
                0u8
            },
    )
}

/// A byte sequence repeated a number of times.
pub open spec fn repeat_seq(b: Seq<u8>, times: int) -> Seq<u8>
    decreases times,
{
    if times <= 0 {
        Seq::empty()
    } else {
        b + repeat_seq(b, times - 1)
    }
}

/// The bytes one operation makes observable on the sink: a hole counts
/// as zeros, which is what the destination reads back there.
pub open spec fn op_output(op: OpModel) -> Seq<u8> {
    match op {
        OpModel::Write { data } => data,
        OpModel::Fill { pattern, blocks, block } => repeat_seq(fill_block(pattern, block), blocks),
        OpModel::Skip { len } => zeros(len),
    }
}

/// The observable destination content of an operation sequence.
pub open spec fn ops_output(ops: Seq<OpModel>) -> Seq<u8>
    decreases ops.len(),
{
    if ops.len() == 0 {
        Seq::empty()
    } else {
        op_output(ops[0]) + ops_output(ops.drop_first())
    }
}

pub proof fn lemma_ops_output_snoc(s: Seq<OpModel>)
    requires
        s.len() > 0,
    ensures
        ops_output(s) == ops_output(s.drop_last()) + op_output(s.last()),
    decreases s.len(),
{
    if s.len() == 1 {
        assert(s.drop_last() =~= Seq::<OpModel>::empty());
        assert(s.drop_first() =~= Seq::<OpModel>::empty());
        assert(ops_output(s.drop_last()) + op_output(s.last()) =~= op_output(s[0]) + ops_output(
            s.drop_first(),
        ));
    } else {
        let t = s.drop_first();
        lemma_ops_output_snoc(t);
        assert(t.drop_last() =~= s.drop_last().drop_first());
        assert(s.drop_last()[0] == s[0]);
        assert(op_output(s[0]) + (ops_output(t.drop_last()) + op_output(s.last())) =~= (op_output(
            s[0],
        ) + ops_output(s.drop_last().drop_first())) + op_output(s.last()));
    }
}

proof fn lemma_repeat_seq_snoc(b: Seq<u8>, times: int)
    requires
        times >= 0,
    ensures
        repeat_seq(b, times + 1) == repeat_seq(b, times) + b,
    decreases times,
{
    if times == 0 {
        assert(repeat_seq(b, 1) =~= repeat_seq(b, 0) + b);
    } else {
        lemma_repeat_seq_snoc(b, times - 1);
        assert(b + (repeat_seq(b, times - 1) + b) =~= (b + repeat_seq(b, times - 1)) + b);
    }
}

proof fn lemma_repeat_zeros(block: int, times: int)
    requires
        block >= 0,
        times >= 0,
    ensures
        repeat_seq(zeros(block), times) == zeros(times * block),
    decreases times,
{
    if times == 0 {
        assert(repeat_seq(zeros(block), 0) =~= zeros(0));
    } else {
        lemma_repeat_zeros(block, times - 1);
        assert((times - 1) * block == times * block - block) by (nonlinear_arith);
        assert(zeros(block) + zeros((times - 1) * block) =~= zeros(times * block));
    }
}

/// A fill chunk whose pattern is all zero bytes covers its range with
/// zeros: its observable content equals that of a hole skip of the
/// same length, and that of a verbatim write of that many zero bytes,
/// whether or not the sink supports hole-skipping.
pub proof fn lemma_zero_fill_is_hole(blocks: int, block: int)
    requires
        blocks >= 0,
        block >= 0,
    ensures
        op_output(OpModel::Fill { pattern: 0, blocks, block }) == op_output(
            OpModel::Skip { len: blocks * block },
        ),
        op_output(OpModel::Skip { len: blocks * block }) == zeros(blocks * block),
        op_output(OpModel::Write { data: zeros(blocks * block) }) == zeros(blocks * block),
{
    assert(fill_block(0, block) =~= zeros(block));
    lemma_repeat_zeros(block, blocks);
}

/// A stream that does not begin with the sparse magic constant always
/// fails with `InvalidFormat`; no operation reaches the sink.
pub proof fn lemma_bad_magic_rejected(d: Seq<u8>)
    requires
        !has_sparse_magic(d),
    ensures
        spec_decode(d) == Err::<Seq<OpModel>, UpdateError>(UpdateError::InvalidFormat),
{
}

/// Builds one fill block from a pattern, as the fill chunk semantics
/// define it.
pub fn fill_block_bytes(pattern: u32, block: u32) -> (r: Vec<u8>)
    ensures
        r@ == fill_block(pattern as int, block as int),
{
    let mut r: Vec<u8> = Vec::new();
    let pat: [u8; 4] = [
        (pattern % 256) as u8,
        ((pattern / 256) % 256) as u8,
        ((pattern / 65536) % 256) as u8,
        ((pattern / 16777216) % 256) as u8,
    ];
    let whole = 4 * (block / 4);
    let mut j: u32 = 0;
    while j < whole
        invariant
            whole == 4 * (block / 4),
            whole <= block,
            0 <= j <= whole,
            pat[0] == le_byte(pattern as int, 0),
            pat[1] == le_byte(pattern as int, 1),
            pat[2] == le_byte(pattern as int, 2),
            pat[3] == le_byte(pattern as int, 3),
            r@ == fill_block(pattern as int, block as int).subrange(0, j as int),
        decreases whole - j,
    {
        let k = (j % 4) as usize;
        r.push(pat[k]);
        proof {
            let f = fill_block(pattern as int, block as int);
            assert(f[j as int] == le_byte(pattern as int, (j as int) % 4));
            assert(f.subrange(0, j + 1) =~= f.subrange(0, j as int).push(f[j as int]));
        }
        j = j + 1;
    }
    let mut t: u32 = whole;
    while t < block
        invariant
            whole == 4 * (block / 4),
            whole <= t <= block,
            r@ == fill_block(pattern as int, block as int).subrange(0, t as int),
        decreases block - t,
    {
        r.push(0);
        proof {
            let f = fill_block(pattern as int, block as int);
            assert(f[t as int] == 0u8);
            assert(f.subrange(0, t + 1) =~= f.subrange(0, t as int).push(f[t as int]));
        }
        t = t + 1;
    }
    proof {
        assert(fill_block(pattern as int, block as int).subrange(
            0,
            block as int,
        ) =~= fill_block(pattern as int, block as int));
    }
    r
}

/// Appends a slice to a byte vector.
pub fn push_bytes(dst: &mut Vec<u8>, src: &[u8])
    ensures
        final(dst)@ == old(dst)@ + src@,
{
    let mut i: usize = 0;
    while i < src.len()
        invariant
            0 <= i <= src@.len(),
            dst@ == old(dst)@ + src@.subrange(0, i as int),
        decreases src@.len() - i,
    {
        dst.push(src[i]);
        proof {
            assert(old(dst)@ + src@.subrange(0, i + 1) =~= (old(dst)@ + src@.subrange(
                0,
                i as int,
            )).push(src@[i as int]));
        }
        i = i + 1;
    }
    proof {
        assert(src@.subrange(0, src@.len() as int) =~= src@);
    }
}

/// Materializes the observable destination content of a decoded
/// operation sequence: what a destination that starts all-zero holds
/// after the operations are applied in order.
pub fn render_ops(ops: &Vec<SinkOp>) -> (r: Vec<u8>)
    ensures
        r@ == ops_output(ops.deep_view()),
{
    let mut r: Vec<u8> = Vec::new();
    let mut i: usize = 0;
    proof {
        assert(ops.deep_view().subrange(0, 0) =~= Seq::<OpModel>::empty());
    }
    while i < ops.len()
        invariant
            0 <= i <= ops@.len(),
            ops.deep_view().len() == ops@.len(),
            r@ == ops_output(ops.deep_view().subrange(0, i as int)),
        decreases ops@.len() - i,
    {
        let ghost pre = ops.deep_view().subrange(0, i as int);
        let ghost cur = ops.deep_view()[i as int];
        let op = &ops[i];
        match op {
            SinkOp::Write { data } => {
                push_bytes(&mut r, data.as_slice());
                proof {
                    assert(op_output(cur) == data@);
                }
            },
            SinkOp::FillBlocks { pattern, blocks, block_size } => {
                let fb = fill_block_bytes(*pattern, *block_size);
                let mut b: u32 = 0;
                while b < *blocks
                    invariant
                        0 <= b <= *blocks,
                        fb@ == fill_block(*pattern as int, *block_size as int),
                        r@ == ops_output(pre) + repeat_seq(fb@, b as int),
                        pre == ops.deep_view().subrange(0, i as int),
                    decreases *blocks - b,
                {
                    push_bytes(&mut r, fb.as_slice());
                    proof {
                        lemma_repeat_seq_snoc(fb@, b as int);
                        assert(ops_output(pre) + repeat_seq(fb@, b + 1) =~= (ops_output(pre)
                            + repeat_seq(fb@, b as int)) + fb@);
                    }
                    b = b + 1;
                }
                proof {
                    assert(op_output(cur) == repeat_seq(fb@, *blocks as int));
                }
            },
            SinkOp::Skip { len } => {
                let mut z: u64 = 0;
                while z < *len
                    invariant
                        0 <= z <= *len,
                        r@ == ops_output(pre) + zeros(z as int),
                        pre == ops.deep_view().subrange(0, i as int),
                    decreases *len - z,
                {
                    r.push(0);
                    proof {
                        assert(ops_output(pre) + zeros(z + 1) =~= (ops_output(pre) + zeros(
                            z as int,
                        )).push(0u8));
                    }
                    z = z + 1;
                }
                proof {
                    assert(op_output(cur) == zeros(*len as int));
                }
            },
        }
        proof {
            let all = ops.deep_view();
            assert(all.subrange(0, i + 1).drop_last() =~= pre);
            assert(all.subrange(0, i + 1).last() == cur);
            lemma_ops_output_snoc(all.subrange(0, i + 1));
        }
        i = i + 1;
    }
    proof {
        assert(ops.deep_view().subrange(0, ops@.len() as int) =~= ops.deep_view());
    }
    r
}

/// Frame step: the chunk at `pos` decodes to `op` and the rest starts
/// at `next`; the accumulated prefix extends accordingly.
proof fn lemma_step_frame(
    d: Seq<u8>,
    pos: int,
    m: nat,
    chs: int,
    blk: int,
    whole: Option<Seq<OpModel>>,
    old_acc: Seq<OpModel>,
    op: OpModel,
    next: int,
)
    requires
        m > 0,
        spec_decode_chunks(d, pos, m, chs, blk) == (match spec_decode_chunks(
            d,
            next,
            (m - 1) as nat,
            chs,
            blk,
        ) {
            None => None::<Seq<OpModel>>,
            Some(rest) => Some(seq![op] + rest),
        }),
        decodes_to(whole, old_acc, spec_decode_chunks(d, pos, m, chs, blk)),
    ensures
        decodes_to(whole, old_acc.push(op), spec_decode_chunks(d, next, (m - 1) as nat, chs, blk)),
{
    let sub = spec_decode_chunks(d, next, (m - 1) as nat, chs, blk);
    if sub is Some {
        let rest = sub->0;
        assert(spec_decode_chunks(d, pos, m, chs, blk) == Some(seq![op] + rest));
        assert(whole == Some(old_acc + (seq![op] + rest)));
        assert(old_acc + (seq![op] + rest) =~= old_acc.push(op) + rest);
    }
}

/// Frame step for a chunk that produces no sink operation.
proof fn lemma_skip_frame(
    d: Seq<u8>,
    pos: int,
    m: nat,
    chs: int,
    blk: int,
    whole: Option<Seq<OpModel>>,
    old_acc: Seq<OpModel>,
    next: int,
)
    requires
        m > 0,
        spec_decode_chunks(d, pos, m, chs, blk) == spec_decode_chunks(
            d,
            next,
            (m - 1) as nat,
            chs,
            blk,
        ),
        decodes_to(whole, old_acc, spec_decode_chunks(d, pos, m, chs, blk)),
    ensures
        decodes_to(whole, old_acc, spec_decode_chunks(d, next, (m - 1) as nat, chs, blk)),
{
}

} // verus!
