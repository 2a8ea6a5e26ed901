//! Decodes a whole compressed sqpack file in one pass.
use vstd::prelude::*;

use crate::util::{read_u32_le, round_up, spec_round_up, spec_u32_le};

verus! {

/// Size of the header that opens every block.
pub const BLOCK_HEADER_SIZE: usize = 16;

/// Size of the header that opens a compressed file.
pub const FILE_HEADER_SIZE: usize = 12;

/// Zero bytes appended to an extra header of exactly four bytes (model files).
pub const MODEL_HEADER_SIZE: usize = 0x40;

/// A block whose compressed length is at least this is stored uncompressed.
pub const UNCOMPRESSED_MARKER: u32 = 32000;

/// Why a compressed file could not be decoded.
#[derive(Debug, Clone, Copy, PartialEq, Eq, Structural)]
pub enum DecodeError {
    /// A header, a block or a payload reaches past the end of the data.
    UnexpectedEnd,
    /// An offset or a size does not fit in `usize`.
    SizeOverflow,
    /// A compressed payload is not a valid deflate stream.
    Inflate,
}

/// The header of one block.
#[derive(Debug, Clone, Copy, PartialEq, Eq, Structural)]
pub struct BlockHeader {
    pub header_size: u32,
    /// [`UNCOMPRESSED_MARKER`] or more when the block is stored as is.
    pub compressed_length: u32,
    pub uncompressed_length: u32,
}

impl BlockHeader {
    /// The header held by the first 16 bytes: four little-endian words, the
    /// second of which is unused.
    pub open spec fn spec_parse(data: Seq<u8>) -> Option<BlockHeader> {
        if data.len() >= BLOCK_HEADER_SIZE {
            Some(
                BlockHeader {
                    header_size: spec_u32_le(data, 0),
                    compressed_length: spec_u32_le(data, 8),
                    uncompressed_length: spec_u32_le(data, 12),
                },
            )
        } else {
            None
        }
    }

    /// Whether the payload is stored uncompressed.
    pub open spec fn is_stored(self) -> bool {
        self.compressed_length >= UNCOMPRESSED_MARKER
    }

    /// Length of the payload in the block.
    pub open spec fn payload_len(self) -> int {
        if self.is_stored() {
            self.uncompressed_length as int
        } else {
            self.compressed_length as int
        }
    }

    /// Length of the whole block: its header and its payload.
    pub open spec fn block_len(self) -> int {
        self.header_size + self.payload_len()
    }

    /// Parses the header of the block that starts `data`; `None` when fewer
    /// than [`BLOCK_HEADER_SIZE`] bytes are given.
    pub fn parse(data: &[u8]) -> (r: Option<BlockHeader>)
        ensures
            r == Self::spec_parse(data@),
    {
        if data.len() < BLOCK_HEADER_SIZE {
            return None;
        }
        Some(
            BlockHeader {
                header_size: read_u32_le(data, 0),
                compressed_length: read_u32_le(data, 8),
                uncompressed_length: read_u32_le(data, 12),
            },
        )
    }
}

/// What `miniz_oxide` inflates from the given raw deflate stream.
pub uninterp spec fn inflate_output(data: Seq<u8>) -> Option<Seq<u8>>;

/// `miniz_oxide::inflate::decompress_to_vec`: the inflated bytes, or `None`
/// where it reports an error.
#[verifier::external_body]
pub(crate) fn inflate(data: &[u8]) -> (r: Option<Vec<u8>>)
    ensures
        r is Some <==> inflate_output(data@) is Some,
        r matches Some(v) ==> v@ == inflate_output(data@)->0,
{
    miniz_oxide::inflate::decompress_to_vec(data).ok()
}

/// Appends `bytes` to `result`.
pub fn extend_bytes(result: &mut Vec<u8>, bytes: &[u8])
    ensures
        final(result)@ == old(result)@ + bytes@,
{
    let ghost start = result@;
    let mut i: usize = 0;
    while i < bytes.len()
        invariant
            i <= bytes@.len(),
            result@ =~= start + bytes@.take(i as int),
        decreases bytes@.len() - i,
    {
        result.push(bytes[i]);
        i = i + 1;
    }
    assert(bytes@.take(bytes@.len() as int) =~= bytes@);
}

/// The block at the start of `data`: how many bytes it spans and what it
/// decodes to (the payload itself, or the payload inflated).
pub open spec fn spec_decode_block(data: Seq<u8>) -> Result<(int, Seq<u8>), DecodeError> {
    match BlockHeader::spec_parse(data) {
        None => Err(DecodeError::UnexpectedEnd),
        Some(h) => {
            let end = h.block_len();
            if end > usize::MAX {
                Err(DecodeError::SizeOverflow)
            } else if end > data.len() {
                Err(DecodeError::UnexpectedEnd)
            } else {
                let payload = data.subrange(h.header_size as int, end);
                if h.is_stored() {
                    Ok((end, payload))
                } else {
                    match inflate_output(payload) {
                        Some(out) => Ok((end, out)),
                        None => Err(DecodeError::Inflate),
                    }
                }
            }
        },
    }
}

/// Decodes the block at the start of `data` onto the end of `result`;
/// returns the number of bytes the block spans.
pub fn decode_block_into(data: &[u8], result: &mut Vec<u8>) -> (r: Result<usize, DecodeError>)
    ensures
        match spec_decode_block(data@) {
            Ok((end, out)) => r == Ok::<usize, DecodeError>(end as usize) && final(result)@ == old(
                result,
            )@ + out,
            Err(e) => r == Err::<usize, DecodeError>(e) && final(result)@ == old(result)@,
        },
{
    let header = match BlockHeader::parse(data) {
        Some(h) => h,
        None => return Err(DecodeError::UnexpectedEnd),
    };
    let payload_len = if header.compressed_length >= UNCOMPRESSED_MARKER {
        header.uncompressed_length
    } else {
        header.compressed_length
    };
    let start = header.header_size as usize;
    let end = match start.checked_add(payload_len as usize) {
        Some(e) => e,
        None => return Err(DecodeError::SizeOverflow),
    };
    if end > data.len() {
        return Err(DecodeError::UnexpectedEnd);
    }
    let payload = &data[start..end];
    if header.compressed_length >= UNCOMPRESSED_MARKER {
        extend_bytes(result, payload);
    } else {
        match inflate(payload) {
            Some(decoded) => extend_bytes(result, decoded.as_slice()),
            None => return Err(DecodeError::Inflate),
        }
    }
    Ok(end)
}

/// The extra header of a file: the bytes from offset 12 on, padded with
/// [`MODEL_HEADER_SIZE`] zeros when there are exactly four of them.
pub open spec fn padded_header(header: Seq<u8>) -> Seq<u8> {
    if header.len() == 4 {
        header + Seq::new(MODEL_HEADER_SIZE as nat, |i: int| 0u8)
    } else {
        header
    }
}

/// The blocks from `offset` on, `count` of them, decoded one after another
/// onto `acc`; each block starts at the next multiple of four after the last.
pub open spec fn spec_decode_blocks(data: Seq<u8>, offset: int, count: nat, acc: Seq<u8>) -> Result<
    Seq<u8>,
    DecodeError,
>
    decreases count,
{
    if count == 0 {
        Ok(acc)
    } else if offset > data.len() {
        Err(DecodeError::UnexpectedEnd)
    } else {
        match spec_decode_block(data.subrange(offset, data.len() as int)) {
            Err(e) => Err(e),
            Ok((consumed, out)) => {
                let step = spec_round_up(consumed, 4);
                if step > usize::MAX || offset + step > usize::MAX {
                    Err(DecodeError::SizeOverflow)
                } else {
                    spec_decode_blocks(data, offset + step, (count - 1) as nat, acc + out)
                }
            },
        }
    }
}

/// A whole compressed file: the uncompressed size, the size of the extra
/// header and the block count as little-endian words, the extra header, then
/// the blocks; the result is the padded extra header and the decoded blocks.
pub open spec fn spec_decode_compressed_data(data: Seq<u8>) -> Result<Seq<u8>, DecodeError> {
    if data.len() < FILE_HEADER_SIZE {
        Err(DecodeError::UnexpectedEnd)
    } else {
        let header_size = spec_u32_le(data, 4);
        let block_count = spec_u32_le(data, 8);
        let header_end = FILE_HEADER_SIZE + header_size;
        if header_end > usize::MAX {
            Err(DecodeError::SizeOverflow)
        } else if header_end > data.len() {
            Err(DecodeError::UnexpectedEnd)
        } else {
            spec_decode_blocks(
                data,
                header_end,
                block_count as nat,
                padded_header(data.subrange(FILE_HEADER_SIZE as int, header_end)),
            )
        }
    }
}

/// Decodes a compressed sqpack file.
pub fn decode_compressed_data(data: Vec<u8>) -> (r: Result<Vec<u8>, DecodeError>)
    ensures
        match spec_decode_compressed_data(data@) {
            Ok(v) => r matches Ok(x) && x@ == v,
            Err(e) => r == Err::<Vec<u8>, DecodeError>(e),
        },
{
    if data.len() < FILE_HEADER_SIZE {
        return Err(DecodeError::UnexpectedEnd);
    }
    let _uncompressed_size = read_u32_le(data.as_slice(), 0);
    let additional_header_size = read_u32_le(data.as_slice(), 4);
    let block_count = read_u32_le(data.as_slice(), 8);
    let header_end = match FILE_HEADER_SIZE.checked_add(additional_header_size as usize) {
        Some(e) => e,
        None => return Err(DecodeError::SizeOverflow),
    };
    if header_end > data.len() {
        return Err(DecodeError::UnexpectedEnd);
    }
    let mut result: Vec<u8> = Vec::new();
    extend_bytes(&mut result, &data.as_slice()[FILE_HEADER_SIZE..header_end]);
    if additional_header_size == 4 {
        let mut k: usize = 0;
        let ghost h = result@;
        while k < MODEL_HEADER_SIZE
            invariant
                k <= MODEL_HEADER_SIZE,
                result@ =~= h + Seq::new(k as nat, |i: int| 0u8),
            decreases MODEL_HEADER_SIZE - k,
        {
            result.push(0);
            k = k + 1;
        }
    }
    let ghost d = data@;
    let mut offset = header_end;
    let mut i: u32 = 0;
    while i < block_count
        invariant
            d == data@,
            i <= block_count,
            spec_decode_compressed_data(d) == spec_decode_blocks(
                d,
                offset as int,
                (block_count - i) as nat,
                result@,
            ),
        decreases block_count - i,
    {
        if offset > data.len() {
            return Err(DecodeError::UnexpectedEnd);
        }
        let consumed = decode_block_into(&data.as_slice()[offset..data.len()], &mut result)?;
        if consumed % 4 != 0 && consumed > usize::MAX - 4 {
            return Err(DecodeError::SizeOverflow);
        }
        let step = round_up(consumed, 4);
        offset = match offset.checked_add(step) {
            Some(o) => o,
            None => return Err(DecodeError::SizeOverflow),
        };
        i = i + 1;
    }
    Ok(result)
}

/// A block starts with a header of four little-endian words: the header
/// size, a word that is not used, the compressed length and the
/// uncompressed length. A compressed length of 32000 or more marks a stored
/// block, whose uncompressed length of bytes after the header is copied;
/// otherwise the compressed length of bytes after the header is inflated.
/// The block ends after those bytes.
pub proof fn lemma_block_layout(data: Seq<u8>)
    ensures
        spec_decode_block(data) matches Ok((end, out)) ==> {
            let h = spec_u32_le(data, 0) as int;
            let c = spec_u32_le(data, 8) as int;
            let u = spec_u32_le(data, 12) as int;
            &&& data.len() >= 16
            &&& c >= 32000 ==> end == h + u && out == data.subrange(h, end)
            &&& c < 32000 ==> end == h + c && Some(out) == inflate_output(data.subrange(h, end))
        },
        (data.len() >= 16 && spec_u32_le(data, 8) >= 32000 && spec_u32_le(data, 0) + spec_u32_le(data, 12)
            <= data.len() && spec_u32_le(data, 0) + spec_u32_le(data, 12) <= usize::MAX) ==> spec_decode_block(
            data,
        ) is Ok,
{
}

/// Decoding blocks after what was decoded so far keeps what was decoded so far.
proof fn lemma_blocks_keep_prefix(data: Seq<u8>, offset: int, count: nat, acc: Seq<u8>)
    ensures
        spec_decode_blocks(data, offset, count, acc) matches Ok(v) ==> v.len() >= acc.len() && v.subrange(
            0,
            acc.len() as int,
        ) == acc,
    decreases count,
{
    if count > 0 && offset <= data.len() {
        if let Ok((consumed, out)) = spec_decode_block(data.subrange(offset, data.len() as int)) {
            let step = spec_round_up(consumed, 4);
            lemma_blocks_keep_prefix(data, offset + step, (count - 1) as nat, acc + out);
            if let Ok(v) = spec_decode_blocks(data, offset, count, acc) {
                assert(v.subrange(0, acc.len() as int) =~= (v.subrange(0, (acc + out).len() as int)).subrange(
                    0,
                    acc.len() as int,
                ));
            }
        }
    }
}

/// A decoded file starts with the extra header that follows the 12-byte
/// file header; an extra header of 4 bytes is followed by 64 zero bytes,
/// the rest of a model file's header.
pub proof fn lemma_decoded_header(data: Seq<u8>)
    ensures
        spec_decode_compressed_data(data) matches Ok(v) ==> {
            let hs = spec_u32_le(data, 4) as int;
            &&& v.len() >= hs
            &&& v.subrange(0, hs) == data.subrange(12, 12 + hs)
            &&& hs == 4 ==> v.len() >= 68 && forall|i: int| 4 <= i < 68 ==> #[trigger] v[i] == 0
        },
{
    if data.len() >= FILE_HEADER_SIZE {
        let hs = spec_u32_le(data, 4) as int;
        let header_end = FILE_HEADER_SIZE + hs;
        if header_end <= usize::MAX && header_end <= data.len() {
            let header = data.subrange(FILE_HEADER_SIZE as int, header_end);
            let acc = padded_header(header);
            lemma_blocks_keep_prefix(data, header_end, spec_u32_le(data, 8) as nat, acc);
            if let Ok(v) = spec_decode_compressed_data(data) {
                assert(v.subrange(0, acc.len() as int) == acc);
                assert(v.subrange(0, hs) =~= acc.subrange(0, hs));
                assert(acc.subrange(0, hs) =~= header);
                if hs == 4 {
                    assert forall|i: int| 4 <= i < 68 implies #[trigger] v[i] == 0 by {
                        assert(v[i] == v.subrange(0, acc.len() as int)[i]);
                    }
                }
            }
        }
    }
}

} // verus!
