//! A compressed sqpack file split into its parts: the uncompressed size, the
//! extra header and the blocks, each block still encoded.
use vstd::prelude::*;

use super::decoder::{
    extend_bytes, inflate, inflate_output, padded_header, spec_decode_block, spec_decode_blocks,
    spec_decode_compressed_data, BlockHeader, DecodeError, FILE_HEADER_SIZE, MODEL_HEADER_SIZE,
};
use crate::util::{read_u32_le, round_up, spec_round_up, spec_u32_le, spec_u32_le_bytes};

verus! {

/// The parts of a compressed file.
pub struct SqPackRawFile {
    uncompressed_size: u32,
    header: Vec<u8>,
    blocks: Vec<Vec<u8>>,
}

/// What a [`SqPackRawFile`] holds.
pub struct RawFileView {
    pub uncompressed_size: u32,
    pub header: Seq<u8>,
    pub blocks: Seq<Seq<u8>>,
}

impl View for SqPackRawFile {
    type V = RawFileView;

    closed spec fn view(&self) -> RawFileView {
        RawFileView {
            uncompressed_size: self.uncompressed_size,
            header: self.header@,
            blocks: self.blocks@.map_values(|b: Vec<u8>| b@),
        }
    }
}

/// The length of the block that starts `block`, from its header.
pub open spec fn spec_block_size(block: Seq<u8>) -> int {
    BlockHeader::spec_parse(block)->0.block_len()
}

/// The block at `offset`, cut to the length its header gives, and the offset
/// of the next block: the following multiple of four.
pub open spec fn spec_next_block(data: Seq<u8>, offset: int) -> Result<(Seq<u8>, int), DecodeError> {
    if offset + 16 > usize::MAX {
        Err(DecodeError::SizeOverflow)
    } else if offset + 16 > data.len() {
        Err(DecodeError::UnexpectedEnd)
    } else {
        let size = spec_block_size(data.subrange(offset, offset + 16));
        if size > usize::MAX || offset + size > usize::MAX {
            Err(DecodeError::SizeOverflow)
        } else if offset + size > data.len() {
            Err(DecodeError::UnexpectedEnd)
        } else {
            let step = spec_round_up(size, 4);
            if step > usize::MAX || offset + step > usize::MAX {
                Err(DecodeError::SizeOverflow)
            } else {
                Ok((data.subrange(offset, offset + size), offset + step))
            }
        }
    }
}

/// A block taken from a file is as long as its header says: the header
/// size plus the uncompressed length for a stored block (compressed length
/// 32000 or more), plus the compressed length otherwise; the next block
/// starts at the first multiple of four after it, counted from the block's
/// start.
pub proof fn lemma_next_block_layout(data: Seq<u8>, offset: int)
    requires
        0 <= offset,
    ensures
        spec_next_block(data, offset) matches Ok((block, next)) ==> {
            let h = spec_u32_le(data, offset) as int;
            let c = spec_u32_le(data, offset + 8) as int;
            let u = spec_u32_le(data, offset + 12) as int;
            let size = if c >= 32000 {
                h + u
            } else {
                h + c
            };
            &&& block == data.subrange(offset, offset + size)
            &&& next - offset == size + (4 - size % 4) % 4
            &&& (next - offset) % 4 == 0
        },
{
    if let Ok((block, next)) = spec_next_block(data, offset) {
        let hd = data.subrange(offset, offset + 16);
        assert forall|i: int| 0 <= i < 16 implies #[trigger] hd[i] == data[offset + i] by {}
        assert(hd[0] == data[offset] && hd[1] == data[offset + 1] && hd[2] == data[offset + 2] && hd[3]
            == data[offset + 3]);
        assert(hd[8] == data[offset + 8] && hd[9] == data[offset + 9] && hd[10] == data[offset + 10]
            && hd[11] == data[offset + 11]);
        assert(hd[12] == data[offset + 12] && hd[13] == data[offset + 13] && hd[14] == data[offset + 14]
            && hd[15] == data[offset + 15]);
        assert(spec_u32_le(hd, 0) == spec_u32_le(data, offset));
        assert(spec_u32_le(hd, 8) == spec_u32_le(data, offset + 8));
        assert(spec_u32_le(hd, 12) == spec_u32_le(data, offset + 12));
        let size = spec_block_size(hd);
        assert(spec_round_up(size, 4) == size + (4 - size % 4) % 4);
        assert((size + (4 - size % 4) % 4) % 4 == 0);
    }
}

/// The blocks from `offset` on, `count` of them.
pub open spec fn spec_slice_blocks(data: Seq<u8>, offset: int, count: nat) -> Result<
    Seq<Seq<u8>>,
    DecodeError,
>
    decreases count,
{
    if count == 0 {
        Ok(seq![])
    } else {
        match spec_next_block(data, offset) {
            Err(e) => Err(e),
            Ok((block, next)) => match spec_slice_blocks(data, next, (count - 1) as nat) {
                Err(e) => Err(e),
                Ok(rest) => Ok(seq![block] + rest),
            },
        }
    }
}

/// A compressed file split into its parts: the words at offsets 0, 4 and 8
/// give the uncompressed size, the length of the extra header and the number
/// of blocks; the extra header follows, then the blocks.
pub open spec fn spec_from_compressed_file(data: Seq<u8>) -> Result<RawFileView, DecodeError> {
    if data.len() < FILE_HEADER_SIZE {
        Err(DecodeError::UnexpectedEnd)
    } else {
        let header_end = FILE_HEADER_SIZE + spec_u32_le(data, 4);
        if header_end > usize::MAX {
            Err(DecodeError::SizeOverflow)
        } else if header_end > data.len() {
            Err(DecodeError::UnexpectedEnd)
        } else {
            match spec_slice_blocks(data, header_end, spec_u32_le(data, 8) as nat) {
                Err(e) => Err(e),
                Ok(blocks) => Ok(
                    RawFileView {
                        uncompressed_size: spec_u32_le(data, 0),
                        header: data.subrange(FILE_HEADER_SIZE as int, header_end),
                        blocks,
                    },
                ),
            }
        }
    }
}

/// One block decoded: its payload, inflated unless stored.
#[verifier::opaque]
pub open spec fn spec_decode_raw_block(block: Seq<u8>) -> Result<Seq<u8>, DecodeError> {
    match BlockHeader::spec_parse(block) {
        None => Err(DecodeError::UnexpectedEnd),
        Some(h) => {
            let end = h.block_len();
            if end > usize::MAX {
                Err(DecodeError::SizeOverflow)
            } else if end > block.len() {
                Err(DecodeError::UnexpectedEnd)
            } else {
                let payload = block.subrange(h.header_size as int, end);
                if h.is_stored() {
                    Ok(payload)
                } else {
                    match inflate_output(payload) {
                        Some(out) => Ok(out),
                        None => Err(DecodeError::Inflate),
                    }
                }
            }
        },
    }
}

/// The blocks decoded one after another onto `acc`.
pub open spec fn spec_decode_raw_blocks(blocks: Seq<Seq<u8>>, acc: Seq<u8>) -> Result<
    Seq<u8>,
    DecodeError,
>
    decreases blocks.len(),
{
    if blocks.len() == 0 {
        Ok(acc)
    } else {
        match spec_decode_raw_blocks(blocks.drop_last(), acc) {
            Err(e) => Err(e),
            Ok(prefix) => match spec_decode_raw_block(blocks.last()) {
                Err(e) => Err(e),
                Ok(out) => Ok(prefix + out),
            },
        }
    }
}

/// The decoded file: the padded extra header, then every block decoded.
pub open spec fn spec_into_decoded(f: RawFileView) -> Result<Seq<u8>, DecodeError> {
    spec_decode_raw_blocks(f.blocks, padded_header(f.header))
}

/// One block as it is written back: the bytes its header spans, padded with
/// zeros to a multiple of four.
#[verifier::opaque]
pub open spec fn spec_encode_block(block: Seq<u8>) -> Result<Seq<u8>, DecodeError> {
    if block.len() < 16 {
        Err(DecodeError::UnexpectedEnd)
    } else {
        let size = spec_block_size(block);
        if size > usize::MAX {
            Err(DecodeError::SizeOverflow)
        } else if size > block.len() {
            Err(DecodeError::UnexpectedEnd)
        } else if spec_round_up(size, 4) > usize::MAX {
            Err(DecodeError::SizeOverflow)
        } else {
            Ok(
                block.subrange(0, size) + Seq::new(
                    (spec_round_up(size, 4) - size) as nat,
                    |i: int| 0u8,
                ),
            )
        }
    }
}

/// The blocks written back one after another.
pub open spec fn spec_encode_blocks(blocks: Seq<Seq<u8>>) -> Result<Seq<u8>, DecodeError>
    decreases blocks.len(),
{
    if blocks.len() == 0 {
        Ok(seq![])
    } else {
        match spec_encode_blocks(blocks.drop_last()) {
            Err(e) => Err(e),
            Ok(prefix) => match spec_encode_block(blocks.last()) {
                Err(e) => Err(e),
                Ok(out) => Ok(prefix + out),
            },
        }
    }
}

/// The words that open a compressed file: the uncompressed size, the length
/// of the extra header and the number of blocks, each cut to 32 bits.
pub open spec fn spec_file_header(f: RawFileView) -> Seq<u8> {
    spec_u32_le_bytes(f.uncompressed_size) + spec_u32_le_bytes(f.header.len() as u32)
        + spec_u32_le_bytes(f.blocks.len() as u32)
}

/// The file written back: the three words, then the blocks. The bytes of the
/// extra header itself are not written.
pub open spec fn spec_into_compressed(f: RawFileView) -> Result<Seq<u8>, DecodeError> {
    match spec_encode_blocks(f.blocks) {
        Err(e) => Err(e),
        Ok(blocks) => Ok(spec_file_header(f) + blocks),
    }
}

/// The four little-endian bytes of `v`.
fn u32_le_bytes(v: u32) -> (r: [u8; 4])
    ensures
        r@ == spec_u32_le_bytes(v),
{
    let r = [(v % 0x100) as u8, ((v / 0x100) % 0x100) as u8, ((v / 0x1_0000) % 0x100) as u8, (v
        / 0x100_0000) as u8];
    assert(r@ =~= spec_u32_le_bytes(v));
    r
}

impl SqPackRawFile {
    /// Splits a compressed file into its parts.
    pub fn from_compressed_file(data: Vec<u8>) -> (r: Result<Self, DecodeError>)
        ensures
            match spec_from_compressed_file(data@) {
                Ok(f) => r matches Ok(x) && x@ == f,
                Err(e) => r matches Err(x) && x == e,
            },
    {
        if data.len() < FILE_HEADER_SIZE {
            return Err(DecodeError::UnexpectedEnd);
        }
        let d = data.as_slice();
        let uncompressed_size = read_u32_le(d, 0);
        let header_size = read_u32_le(d, 4);
        let block_count = read_u32_le(d, 8);
        let header_end = match FILE_HEADER_SIZE.checked_add(header_size as usize) {
            Some(e) => e,
            None => return Err(DecodeError::SizeOverflow),
        };
        if header_end > d.len() {
            return Err(DecodeError::UnexpectedEnd);
        }
        let mut header: Vec<u8> = Vec::new();
        extend_bytes(&mut header, &d[FILE_HEADER_SIZE..header_end]);
        let ghost total = spec_slice_blocks(d@, header_end as int, block_count as nat);
        let ghost expected = match total {
            Err(e) => Err(e),
            Ok(b) => Ok(RawFileView { uncompressed_size, header: header@, blocks: b }),
        };
        assert(spec_from_compressed_file(data@) == expected);
        let mut blocks: Vec<Vec<u8>> = Vec::new();
        let mut offset = header_end;
        let mut i: u32 = 0;
        while i < block_count
            invariant
                i <= block_count,
                d@ == data@,
                spec_from_compressed_file(data@) == expected,
                expected == match total {
                    Err(e) => Err(e),
                    Ok(b) => Ok(RawFileView { uncompressed_size, header: header@, blocks: b }),
                },
                total == spec_slice_blocks(d@, header_end as int, block_count as nat),
                total == prepend_blocks(
                    blocks@.map_values(|b: Vec<u8>| b@),
                    spec_slice_blocks(d@, offset as int, (block_count - i) as nat),
                ),
            decreases block_count - i,
        {
            let ghost prev = blocks@.map_values(|b: Vec<u8>| b@);
            let (block, next) = Self::next_block(d, offset)?;
            let ghost bv = block@;
            blocks.push(block);
            proof {
                assert(blocks@.map_values(|b: Vec<u8>| b@) =~= prev.push(bv));
                lemma_prepend_blocks(prev, bv, spec_slice_blocks(d@, next as int, (block_count - i - 1) as nat));
            }
            offset = next;
            i = i + 1;
        }
        proof {
            let bs = blocks@.map_values(|b: Vec<u8>| b@);
            assert(bs + Seq::<Seq<u8>>::empty() =~= bs);
        }
        Ok(SqPackRawFile { uncompressed_size, header, blocks })
    }

    /// The block at `offset` and the offset of the next one.
    fn next_block(d: &[u8], offset: usize) -> (r: Result<(Vec<u8>, usize), DecodeError>)
        ensures
            match spec_next_block(d@, offset as int) {
                Ok((b, next)) => r matches Ok((x, n)) && x@ == b && n == next,
                Err(e) => r matches Err(x) && x == e,
            },
    {
        if offset > usize::MAX - 16 {
            return Err(DecodeError::SizeOverflow);
        }
        if offset + 16 > d.len() {
            return Err(DecodeError::UnexpectedEnd);
        }
        let block_size = match Self::get_block_size(&d[offset..offset + 16]) {
            Some(s) => s,
            None => return Err(DecodeError::SizeOverflow),
        };
        let end = match offset.checked_add(block_size) {
            Some(e) => e,
            None => return Err(DecodeError::SizeOverflow),
        };
        if end > d.len() {
            return Err(DecodeError::UnexpectedEnd);
        }
        if block_size % 4 != 0 && block_size > usize::MAX - 4 {
            return Err(DecodeError::SizeOverflow);
        }
        let step = round_up(block_size, 4);
        let next = match offset.checked_add(step) {
            Some(o) => o,
            None => return Err(DecodeError::SizeOverflow),
        };
        let mut block: Vec<u8> = Vec::new();
        extend_bytes(&mut block, &d[offset..end]);
        Ok((block, next))
    }

    /// A file from its parts.
    pub fn from_blocks(uncompressed_size: u32, header: Vec<u8>, blocks: Vec<Vec<u8>>) -> (r: Self)
        ensures
            r@ == (RawFileView {
                uncompressed_size,
                header: header@,
                blocks: blocks@.map_values(|b: Vec<u8>| b@),
            }),
    {
        SqPackRawFile { uncompressed_size, header, blocks }
    }

    /// The uncompressed size the file declares.
    pub fn uncompressed_size(&self) -> (r: u32)
        ensures
            r == self@.uncompressed_size,
    {
        self.uncompressed_size
    }

    /// The decoded file: the padded extra header, then every block decoded.
    pub fn into_decoded(self) -> (r: Result<Vec<u8>, DecodeError>)
        ensures
            match spec_into_decoded(self@) {
                Ok(v) => r matches Ok(x) && x@ == v,
                Err(e) => r matches Err(x) && x == e,
            },
    {
        let mut result: Vec<u8> = Vec::new();
        extend_bytes(&mut result, self.header.as_slice());
        if result.len() == 4 {
            let mut k: usize = 0;
            let ghost h = result@;
            while k < MODEL_HEADER_SIZE
                invariant
                    k <= MODEL_HEADER_SIZE,
                    result@ =~= h + Seq::new(k as nat, |i: int| 0u8),
                decreases MODEL_HEADER_SIZE - k,
            {
                result.push(0);
                k = k + 1;
            }
        }
        Self::decode_blocks_into(&self.blocks, &mut result)?;
        Ok(result)
    }

    /// Decodes every block, in order, onto the end of `result`.
    fn decode_blocks_into(blocks: &Vec<Vec<u8>>, result: &mut Vec<u8>) -> (r: Result<(), DecodeError>)
        ensures
            match spec_decode_raw_blocks(blocks@.map_values(|b: Vec<u8>| b@), old(result)@) {
                Ok(v) => r is Ok && final(result)@ == v,
                Err(e) => r matches Err(x) && x == e,
            },
    {
        let ghost bs = blocks@.map_values(|b: Vec<u8>| b@);
        let ghost acc = result@;
        let mut i: usize = 0;
        while i < blocks.len()
            invariant
                bs == blocks@.map_values(|b: Vec<u8>| b@),
                acc == old(result)@,
                i <= bs.len(),
                spec_decode_raw_blocks(bs.take(i as int), acc) == Ok::<Seq<u8>, DecodeError>(result@),
            decreases bs.len() - i,
        {
            proof {
                lemma_decode_raw_step(bs, acc, i as int);
            }
            match Self::decode_block_into(blocks[i].as_slice(), result) {
                Ok(()) => {},
                Err(e) => {
                    proof {
                        lemma_decode_raw_blocks_err(bs, acc, (i + 1) as nat);
                    }
                    return Err(e);
                },
            }
            i = i + 1;
        }
        assert(bs.take(bs.len() as int) =~= bs);
        Ok(())
    }

    /// The file written back in compressed form: the three words, then each
    /// block padded to a multiple of four. The extra header is not written.
    pub fn into_compressed(self) -> (r: Result<Vec<u8>, DecodeError>)
        ensures
            match spec_into_compressed(self@) {
                Ok(v) => r matches Ok(x) && x@ == v,
                Err(e) => r matches Err(x) && x == e,
            },
    {
        let ghost bs = self@.blocks;
        let mut result: Vec<u8> = Vec::new();
        extend_bytes(&mut result, &u32_le_bytes(self.uncompressed_size));
        extend_bytes(&mut result, &u32_le_bytes(#[verifier::truncate] (self.header.len() as u32)));
        extend_bytes(&mut result, &u32_le_bytes(#[verifier::truncate] (self.blocks.len() as u32)));
        assert(result@ =~= spec_file_header(self@));
        Self::encode_blocks_into(&self.blocks, &mut result)?;
        Ok(result)
    }

    /// Writes every block back, in order, onto the end of `result`.
    fn encode_blocks_into(blocks: &Vec<Vec<u8>>, result: &mut Vec<u8>) -> (r: Result<(), DecodeError>)
        ensures
            match spec_encode_blocks(blocks@.map_values(|b: Vec<u8>| b@)) {
                Ok(v) => r is Ok && final(result)@ == old(result)@ + v,
                Err(e) => r matches Err(x) && x == e,
            },
    {
        let ghost bs = blocks@.map_values(|b: Vec<u8>| b@);
        let ghost head = result@;
        let mut i: usize = 0;
        assert(head + Seq::<u8>::empty() =~= head);
        while i < blocks.len()
            invariant
                bs == blocks@.map_values(|b: Vec<u8>| b@),
                head == old(result)@,
                i <= bs.len(),
                spec_encode_blocks(bs.take(i as int)) matches Ok(e) && result@ == head + e,
            decreases bs.len() - i,
        {
            proof {
                lemma_encode_step(bs, i as int);
            }
            let ghost before = result@;
            let ghost e = spec_encode_blocks(bs.take(i as int))->Ok_0;
            match Self::encode_block_into(blocks[i].as_slice(), result) {
                Ok(()) => {},
                Err(err) => {
                    proof {
                        lemma_encode_blocks_err(bs, (i + 1) as nat);
                    }
                    return Err(err);
                },
            }
            assert(result@ =~= head + (e + spec_encode_block(bs[i as int])->Ok_0));
            i = i + 1;
        }
        assert(bs.take(bs.len() as int) =~= bs);
        Ok(())
    }

    /// Writes one block back onto the end of `result`.
    fn encode_block_into(block: &[u8], result: &mut Vec<u8>) -> (r: Result<(), DecodeError>)
        ensures
            match spec_encode_block(block@) {
                Ok(v) => r is Ok && final(result)@ == old(result)@ + v,
                Err(e) => r matches Err(x) && x == e,
            },
    {
        reveal(spec_encode_block);
        if block.len() < 16 {
            return Err(DecodeError::UnexpectedEnd);
        }
        let block_size = match Self::get_block_size(block) {
            Some(s) => s,
            None => return Err(DecodeError::SizeOverflow),
        };
        if block_size > block.len() {
            return Err(DecodeError::UnexpectedEnd);
        }
        if block_size % 4 != 0 && block_size > usize::MAX - 4 {
            return Err(DecodeError::SizeOverflow);
        }
        let ghost before = result@;
        extend_bytes(result, &block[0..block_size]);
        let rounded_size = round_up(block_size, 4);
        let ghost mid = result@;
        let mut k: usize = block_size;
        while k < rounded_size
            invariant
                block_size <= k <= rounded_size,
                result@ =~= mid + Seq::new((k - block_size) as nat, |j: int| 0u8),
            decreases rounded_size - k,
        {
            result.push(0);
            k = k + 1;
        }
        assert(result@ =~= before + spec_encode_block(block@)->Ok_0);
        Ok(())
    }

    /// The length of the block that starts `block`; `None` when it does not fit in `usize`.
    fn get_block_size(block: &[u8]) -> (r: Option<usize>)
        requires
            block@.len() >= 16,
        ensures
            spec_block_size(block@) <= usize::MAX ==> r == Some(spec_block_size(block@) as usize),
            spec_block_size(block@) > usize::MAX ==> r is None,
    {
        let header = BlockHeader::parse(block).unwrap();
        let payload = if header.compressed_length >= super::decoder::UNCOMPRESSED_MARKER {
            header.uncompressed_length
        } else {
            header.compressed_length
        };
        (header.header_size as usize).checked_add(payload as usize)
    }

    /// Decodes one block onto the end of `result`.
    fn decode_block_into(block: &[u8], result: &mut Vec<u8>) -> (r: Result<(), DecodeError>)
        ensures
            match spec_decode_raw_block(block@) {
                Ok(out) => r is Ok && final(result)@ == old(result)@ + out,
                Err(e) => r matches Err(x) && x == e,
            },
    {
        reveal(spec_decode_raw_block);
        let header = match BlockHeader::parse(block) {
            Some(h) => h,
            None => return Err(DecodeError::UnexpectedEnd),
        };
        let payload_len = if header.compressed_length >= super::decoder::UNCOMPRESSED_MARKER {
            header.uncompressed_length
        } else {
            header.compressed_length
        };
        let start = header.header_size as usize;
        let end = match start.checked_add(payload_len as usize) {
            Some(e) => e,
            None => return Err(DecodeError::SizeOverflow),
        };
        if end > block.len() {
            return Err(DecodeError::UnexpectedEnd);
        }
        let payload = &block[start..end];
        if header.compressed_length >= super::decoder::UNCOMPRESSED_MARKER {
            extend_bytes(result, payload);
        } else {
            match inflate(payload) {
                Some(decoded) => extend_bytes(result, decoded.as_slice()),
                None => return Err(DecodeError::Inflate),
            }
        }
        Ok(())
    }

    /// A compressed file decoded: split into its parts, then decoded.
    /// Its result is [`spec_decode`] of the bytes.
    pub fn decode(data: Vec<u8>) -> (r: Result<Vec<u8>, DecodeError>)
        ensures
            match spec_decode(data@) {
                Ok(v) => r matches Ok(x) && x@ == v,
                Err(e) => r matches Err(x) && x == e,
            },
    {
        proof {
            reveal(spec_decode);
        }
        let file = Self::from_compressed_file(data)?;
        file.into_decoded()
    }
}

/// A compressed file split into its parts and decoded.
#[verifier::opaque]
pub open spec fn spec_decode(data: Seq<u8>) -> Result<Seq<u8>, DecodeError> {
    match spec_from_compressed_file(data) {
        Ok(f) => spec_into_decoded(f),
        Err(e) => Err(e),
    }
}

/// `r` with `prefix` put before its blocks.
pub open spec fn prepend_blocks(prefix: Seq<Seq<u8>>, r: Result<Seq<Seq<u8>>, DecodeError>) -> Result<
    Seq<Seq<u8>>,
    DecodeError,
> {
    match r {
        Ok(rest) => Ok(prefix + rest),
        Err(e) => Err(e),
    }
}

pub proof fn lemma_prepend_blocks(prefix: Seq<Seq<u8>>, b: Seq<u8>, r: Result<Seq<Seq<u8>>, DecodeError>)
    ensures
        prepend_blocks(prefix, prepend_blocks(seq![b], r)) == prepend_blocks(prefix.push(b), r),
{
    if let Ok(rest) = r {
        assert(prefix + (seq![b] + rest) =~= prefix.push(b) + rest);
    }
}

pub proof fn lemma_encode_step(blocks: Seq<Seq<u8>>, i: int)
    requires
        0 <= i < blocks.len(),
    ensures
        spec_encode_blocks(blocks.take(i + 1)) == match spec_encode_blocks(blocks.take(i)) {
            Err(e) => Err(e),
            Ok(prefix) => match spec_encode_block(blocks[i]) {
                Err(e) => Err(e),
                Ok(out) => Ok(prefix + out),
            },
        },
{
    assert(blocks.take(i + 1).drop_last() =~= blocks.take(i));
}

pub proof fn lemma_decode_raw_step(blocks: Seq<Seq<u8>>, acc: Seq<u8>, i: int)
    requires
        0 <= i < blocks.len(),
    ensures
        spec_decode_raw_blocks(blocks.take(i + 1), acc) == match spec_decode_raw_blocks(
            blocks.take(i),
            acc,
        ) {
            Err(e) => Err(e),
            Ok(prefix) => match spec_decode_raw_block(blocks[i]) {
                Err(e) => Err(e),
                Ok(out) => Ok(prefix + out),
            },
        },
{
    assert(blocks.take(i + 1).drop_last() =~= blocks.take(i));
}

pub proof fn lemma_decode_raw_blocks_err(blocks: Seq<Seq<u8>>, acc: Seq<u8>, i: nat)
    requires
        i <= blocks.len(),
        spec_decode_raw_blocks(blocks.take(i as int), acc) is Err,
    ensures
        spec_decode_raw_blocks(blocks, acc) == spec_decode_raw_blocks(blocks.take(i as int), acc),
    decreases blocks.len() - i,
{
    if i < blocks.len() {
        let next = blocks.take((i + 1) as int);
        assert(next.drop_last() =~= blocks.take(i as int));
        assert(next.take(i as int) =~= blocks.take(i as int));
        lemma_decode_raw_blocks_err(blocks, acc, i + 1);
    } else {
        assert(blocks.take(i as int) =~= blocks);
    }
}

pub proof fn lemma_encode_blocks_err(blocks: Seq<Seq<u8>>, i: nat)
    requires
        i <= blocks.len(),
        spec_encode_blocks(blocks.take(i as int)) is Err,
    ensures
        spec_encode_blocks(blocks) == spec_encode_blocks(blocks.take(i as int)),
    decreases blocks.len() - i,
{
    if i < blocks.len() {
        let next = blocks.take((i + 1) as int);
        assert(next.drop_last() =~= blocks.take(i as int));
        lemma_encode_blocks_err(blocks, i + 1);
    } else {
        assert(blocks.take(i as int) =~= blocks);
    }
}

} // verus!

verus! {

/// The little-endian word of four bytes written for `v` reads back as `v`.
pub proof fn lemma_u32_le_roundtrip(v: u32)
    ensures
        spec_u32_le(spec_u32_le_bytes(v), 0) == v,
{
    let b = spec_u32_le_bytes(v);
    assert(b[0] == (v % 0x100) as u8);
    assert(b[1] == ((v / 0x100) % 0x100) as u8);
    assert(b[2] == ((v / 0x1_0000) % 0x100) as u8);
    assert(b[3] == (v / 0x100_0000) as u8);
    assert((v % 0x100) as int + ((v / 0x100) % 0x100) as int * 0x100 + ((v / 0x1_0000) % 0x100) as int
        * 0x1_0000 + (v / 0x100_0000) as int * 0x100_0000 == v as int) by (bit_vector);
}

/// A block written back that is exactly as long as its header says.
pub open spec fn exact_block(b: Seq<u8>) -> bool {
    b.len() >= 16 && spec_block_size(b) == b.len()
}

/// The first 16 bytes of a block decide its size.
proof fn lemma_block_size_prefix(a: Seq<u8>, b: Seq<u8>)
    requires
        a.len() >= 16,
        b.len() >= 16,
        forall|k: int| 0 <= k < 16 ==> a[k] == b[k],
    ensures
        spec_block_size(a) == spec_block_size(b),
{
}

/// Writing back the blocks, seen from the first block.
proof fn lemma_encode_front(bs: Seq<Seq<u8>>)
    requires
        bs.len() > 0,
        spec_encode_blocks(bs) is Ok,
    ensures
        spec_encode_block(bs[0]) is Ok,
        spec_encode_blocks(bs.drop_first()) is Ok,
        spec_encode_blocks(bs)->Ok_0 == spec_encode_block(bs[0])->Ok_0 + spec_encode_blocks(
            bs.drop_first(),
        )->Ok_0,
    decreases bs.len(),
{
    if bs.len() == 1 {
        assert(bs.drop_last() =~= Seq::<Seq<u8>>::empty());
        assert(bs.drop_first() =~= Seq::<Seq<u8>>::empty());
        let x = spec_encode_block(bs[0])->Ok_0;
        assert(Seq::<u8>::empty() + x =~= x + Seq::<u8>::empty());
    } else {
        let init = bs.drop_last();
        lemma_encode_front(init);
        assert(init.drop_first() =~= bs.drop_first().drop_last());
        assert(bs.drop_first().last() == bs.last());
        assert(init[0] == bs[0]);
        let x = spec_encode_block(bs[0])->Ok_0;
        let y = spec_encode_blocks(init.drop_first())->Ok_0;
        let z = spec_encode_block(bs.last())->Ok_0;
        assert((x + y) + z =~= x + (y + z));
    }
}

/// The first block of bytes that start with a block written back.
proof fn lemma_next_block_encoded(b: Seq<u8>, data: Seq<u8>, offset: int)
    requires
        exact_block(b),
        spec_encode_block(b) is Ok,
        0 <= offset,
        offset + spec_encode_block(b)->Ok_0.len() <= data.len(),
        data.len() <= usize::MAX,
        forall|k: int|
            0 <= k < spec_encode_block(b)->Ok_0.len() ==> data[offset + k] == #[trigger] spec_encode_block(
                b,
            )->Ok_0[k],
    ensures
        spec_next_block(data, offset) == Ok::<(Seq<u8>, int), DecodeError>(
            (b, offset + spec_encode_block(b)->Ok_0.len()),
        ),
{
    reveal(spec_encode_block);
    let x = spec_encode_block(b)->Ok_0;
    let size = b.len() as int;
    assert(x.len() == spec_round_up(size, 4));
    assert forall|k: int| 0 <= k < size implies data[offset + k] == b[k] by {
        assert(x[k] == b[k]);
    }
    assert forall|k: int| 0 <= k < 16 implies data.subrange(offset, offset + 16)[k] == b[k] by {
        assert(data[offset + k] == b[k]);
    }
    lemma_block_size_prefix(data.subrange(offset, offset + 16), b);
    assert(data.subrange(offset, offset + size) =~= b);
}

/// Cutting the blocks out of bytes that hold them written back gives them again.
proof fn lemma_slice_encoded(bs: Seq<Seq<u8>>, data: Seq<u8>, offset: int)
    requires
        forall|i: int| 0 <= i < bs.len() ==> #[trigger] exact_block(bs[i]),
        spec_encode_blocks(bs) is Ok,
        0 <= offset,
        offset + spec_encode_blocks(bs)->Ok_0.len() <= data.len(),
        data.len() <= usize::MAX,
        forall|k: int|
            0 <= k < spec_encode_blocks(bs)->Ok_0.len() ==> data[offset + k]
                == #[trigger] spec_encode_blocks(bs)->Ok_0[k],
    ensures
        spec_slice_blocks(data, offset, bs.len()) == Ok::<Seq<Seq<u8>>, DecodeError>(bs),
    decreases bs.len(),
{
    if bs.len() > 0 {
        lemma_encode_front(bs);
        let b = bs[0];
        assert(exact_block(b));
        let x = spec_encode_block(b)->Ok_0;
        let rest = bs.drop_first();
        let y = spec_encode_blocks(rest)->Ok_0;
        let e = spec_encode_blocks(bs)->Ok_0;
        assert(e == x + y);
        assert forall|k: int| 0 <= k < x.len() implies data[offset + k] == #[trigger] x[k] by {
            assert(e[k] == x[k]);
        }
        lemma_next_block_encoded(b, data, offset);
        let step = x.len() as int;
        assert forall|i: int| 0 <= i < rest.len() implies #[trigger] exact_block(rest[i]) by {
            assert(rest[i] == bs[i + 1]);
        }
        assert forall|k: int| 0 <= k < y.len() implies data[offset + step + k] == #[trigger] y[k] by {
            assert(e[step + k] == y[k]);
        }
        lemma_slice_encoded(rest, data, offset + step);
        assert(rest.len() == (bs.len() - 1) as nat);
        assert(seq![b] + rest =~= bs);
    } else {
        assert(bs =~= Seq::<Seq<u8>>::empty());
    }
}

/// Writing a file back in compressed form and splitting it again gives the
/// same file, when it has no extra header (whose bytes are not written back)
/// and every block is exactly as long as its header says.
pub proof fn lemma_compressed_roundtrip(f: RawFileView)
    requires
        f.header.len() == 0,
        f.blocks.len() <= u32::MAX,
        forall|i: int| 0 <= i < f.blocks.len() ==> #[trigger] exact_block(f.blocks[i]),
        spec_into_compressed(f) is Ok,
        spec_into_compressed(f)->Ok_0.len() <= usize::MAX,
    ensures
        spec_from_compressed_file(spec_into_compressed(f)->Ok_0) == Ok::<RawFileView, DecodeError>(f),
{
    let data = spec_into_compressed(f)->Ok_0;
    let e = spec_encode_blocks(f.blocks)->Ok_0;
    let h = spec_file_header(f);
    assert(data == h + e);
    assert(h.len() == 12);
    lemma_u32_le_roundtrip(f.uncompressed_size);
    lemma_u32_le_roundtrip(f.header.len() as u32);
    lemma_u32_le_roundtrip(f.blocks.len() as u32);
    let w0 = spec_u32_le_bytes(f.uncompressed_size);
    let w1 = spec_u32_le_bytes(f.header.len() as u32);
    let w2 = spec_u32_le_bytes(f.blocks.len() as u32);
    assert(spec_u32_le(data, 0) == spec_u32_le(w0, 0));
    assert(spec_u32_le(data, 4) == spec_u32_le(w1, 0));
    assert(spec_u32_le(data, 8) == spec_u32_le(w2, 0));
    assert forall|k: int| 0 <= k < e.len() implies data[12 + k] == #[trigger] e[k] by {
        assert(data[12 + k] == (h + e)[12 + k]);
    }
    lemma_slice_encoded(f.blocks, data, 12);
    assert(data.subrange(12, 12) =~= f.header);
}

} // verus!

verus! {

/// Decoding blocks one after another, seen from the first block.
proof fn lemma_decode_raw_front(b: Seq<u8>, rest: Seq<Seq<u8>>, acc: Seq<u8>)
    ensures
        spec_decode_raw_blocks(seq![b] + rest, acc) == match spec_decode_raw_block(b) {
            Err(e) => Err(e),
            Ok(out) => spec_decode_raw_blocks(rest, acc + out),
        },
    decreases rest.len(),
{
    let all = seq![b] + rest;
    if rest.len() == 0 {
        assert(all.drop_last() =~= Seq::<Seq<u8>>::empty());
        assert(all.last() == b);
        if let Ok(out) = spec_decode_raw_block(b) {
            assert(spec_decode_raw_blocks(Seq::<Seq<u8>>::empty(), acc) == Ok::<Seq<u8>, DecodeError>(acc));
        }
    } else {
        lemma_decode_raw_front(b, rest.drop_last(), acc);
        assert(all.drop_last() =~= seq![b] + rest.drop_last());
        assert(all.last() == rest.last());
        if let Ok(out) = spec_decode_raw_block(b) {
            match spec_decode_raw_blocks(rest.drop_last(), acc + out) {
                Ok(prefix) => {},
                Err(e) => {},
            }
        } else {
            lemma_decode_raw_err_prefix(seq![b] + rest.drop_last(), rest.last(), acc);
        }
    }
}

proof fn lemma_decode_raw_err_prefix(init: Seq<Seq<u8>>, last: Seq<u8>, acc: Seq<u8>)
    requires
        spec_decode_raw_blocks(init, acc) is Err,
    ensures
        spec_decode_raw_blocks(init.push(last), acc) == spec_decode_raw_blocks(init, acc),
{
    assert(init.push(last).drop_last() =~= init);
}

/// One step of the two decoders: the block at `offset` read in place and
/// the block cut out of the bytes decode alike.
proof fn lemma_block_step(data: Seq<u8>, offset: int)
    requires
        0 <= offset <= data.len(),
        data.len() <= usize::MAX,
    ensures
        spec_next_block(data, offset) matches Ok((b, next)) ==> b.len() >= 16 ==> {
            &&& spec_decode_block(data.subrange(offset, data.len() as int)) matches Ok((end, out))
                ==> spec_decode_raw_block(b) == Ok::<Seq<u8>, DecodeError>(out) && next == offset
                + spec_round_up(end, 4)
            &&& spec_decode_block(data.subrange(offset, data.len() as int)) is Err ==> spec_decode_raw_block(b) is Err
        },
        spec_next_block(data, offset) is Err ==> {
            ||| spec_decode_block(data.subrange(offset, data.len() as int)) is Err
            ||| spec_decode_block(data.subrange(offset, data.len() as int)) matches Ok((end, out)) && (
            spec_round_up(end, 4) > usize::MAX || offset + spec_round_up(end, 4) > usize::MAX)
        },
{
    reveal(spec_decode_raw_block);
    let rest = data.subrange(offset, data.len() as int);
    if offset + 16 <= data.len() {
        let head = data.subrange(offset, offset + 16);
        assert forall|k: int| 0 <= k < 16 implies head[k] == rest[k] by {}
        lemma_block_size_prefix(head, rest);
        let h = BlockHeader::spec_parse(rest)->0;
        let size = h.block_len();
        if size <= usize::MAX && offset + size <= data.len() {
            let b = data.subrange(offset, offset + size);
            if size >= 16 {
                assert forall|k: int| 0 <= k < 16 implies b[k] == rest[k] by {}
                lemma_block_size_prefix(b, rest);
                assert(BlockHeader::spec_parse(b) == BlockHeader::spec_parse(rest)) by {
                    assert(b[0] == rest[0] && b[1] == rest[1] && b[2] == rest[2] && b[3] == rest[3]);
                    assert(b[8] == rest[8] && b[9] == rest[9] && b[10] == rest[10] && b[11] == rest[11]);
                    assert(b[12] == rest[12] && b[13] == rest[13] && b[14] == rest[14] && b[15] == rest[15]);
                }
                assert(b.subrange(h.header_size as int, size) =~= rest.subrange(h.header_size as int, size));
            }
        }
    }
}

/// Every block cut out is at least as long as a block header.
pub open spec fn blocks_hold_headers(r: Result<Seq<Seq<u8>>, DecodeError>) -> bool {
    r matches Ok(bs) ==> forall|i: int| 0 <= i < bs.len() ==> (#[trigger] bs[i]).len() >= 16
}

/// Decoding the blocks in place and decoding the blocks cut out agree.
proof fn lemma_blocks_agree(data: Seq<u8>, offset: int, count: nat, acc: Seq<u8>)
    requires
        0 <= offset,
        data.len() <= usize::MAX,
        blocks_hold_headers(spec_slice_blocks(data, offset, count)),
    ensures
        spec_decode_blocks(data, offset, count, acc) is Ok <==> (spec_slice_blocks(data, offset, count) matches Ok(bs)
            && spec_decode_raw_blocks(bs, acc) is Ok),
        spec_decode_blocks(data, offset, count, acc) matches Ok(v) ==> spec_decode_raw_blocks(
            spec_slice_blocks(data, offset, count)->Ok_0,
            acc,
        ) == Ok::<Seq<u8>, DecodeError>(v),
    decreases count,
{
    if count == 0 {
        assert(spec_slice_blocks(data, offset, count) == Ok::<Seq<Seq<u8>>, DecodeError>(seq![]));
    } else if offset > data.len() {
        assert(spec_next_block(data, offset) is Err);
    } else {
        lemma_block_step(data, offset);
        match spec_next_block(data, offset) {
            Ok((b, next)) => {
                match spec_decode_block(data.subrange(offset, data.len() as int)) {
                    Ok((end, out)) => {
                        match spec_slice_blocks(data, next, (count - 1) as nat) {
                            Ok(rest) => {
                                let all = seq![b] + rest;
                                assert forall|i: int| 0 <= i < rest.len() implies (#[trigger] rest[i]).len() >= 16 by {
                                    assert(rest[i] == all[i + 1]);
                                }
                                assert(all[0] == b);
                                lemma_blocks_agree(data, next, (count - 1) as nat, acc + out);
                                lemma_decode_raw_front(b, rest, acc);
                            },
                            Err(e) => {
                                lemma_blocks_agree(data, next, (count - 1) as nat, acc + out);
                            },
                        }
                    },
                    Err(e) => {
                        match spec_slice_blocks(data, next, (count - 1) as nat) {
                            Ok(rest) => {
                                assert((seq![b] + rest)[0] == b);
                                lemma_decode_raw_front(b, rest, acc);
                            },
                            Err(e) => {},
                        }
                    },
                }
            },
            Err(e) => {},
        }
    }
}

/// The one-pass decoder and the split-then-decode path give the same bytes:
/// one succeeds exactly when the other does, with the same result, for files
/// whose blocks are each at least as long as a block header.
pub proof fn lemma_decoders_agree(data: Seq<u8>)
    requires
        data.len() <= usize::MAX,
        spec_from_compressed_file(data) matches Ok(f) ==> forall|i: int|
            0 <= i < f.blocks.len() ==> (#[trigger] f.blocks[i]).len() >= 16,
    ensures
        spec_decode_compressed_data(data) is Ok <==> (spec_from_compressed_file(data) matches Ok(f)
            && spec_into_decoded(f) is Ok),
        spec_decode_compressed_data(data) matches Ok(v) ==> spec_into_decoded(
            spec_from_compressed_file(data)->Ok_0,
        ) == Ok::<Seq<u8>, DecodeError>(v),
{
    if data.len() >= FILE_HEADER_SIZE {
        let header_end = FILE_HEADER_SIZE + spec_u32_le(data, 4);
        if header_end <= data.len() {
            lemma_blocks_agree(
                data,
                header_end,
                spec_u32_le(data, 8) as nat,
                padded_header(data.subrange(FILE_HEADER_SIZE as int, header_end)),
            );
        }
    }
}

} // verus!
