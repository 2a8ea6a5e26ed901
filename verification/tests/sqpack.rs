use ffxiv_tools::sqpack::decoder::{decode_block_into, decode_compressed_data, BlockHeader, DecodeError};
use ffxiv_tools::sqpack::raw_file::SqPackRawFile;
use ffxiv_tools::sqpack::reader::{decode_files, SqPackFileHash, SqPackReaderExtractedFile, SqPackReaderFile};

fn le(v: u32) -> Vec<u8> {
    v.to_le_bytes().to_vec()
}

/// A block: 16-byte header, then the payload, with `compressed_length` as given.
fn block(compressed_length: u32, uncompressed_length: u32, payload: &[u8]) -> Vec<u8> {
    let mut b = Vec::new();
    b.extend(le(16));
    b.extend(le(0));
    b.extend(le(compressed_length));
    b.extend(le(uncompressed_length));
    b.extend_from_slice(payload);
    b
}

fn stored_block(payload: &[u8]) -> Vec<u8> {
    block(32000, payload.len() as u32, payload)
}

/// Raw deflate of "hello".
const HELLO_DEFLATED: [u8; 7] = [0xcb, 0x48, 0xcd, 0xc9, 0xc9, 0x07, 0x00];

/// A deflate stream made of one stored block holding "abc".
const ABC_STORED_DEFLATE: [u8; 8] = [0x01, 0x03, 0x00, 0xfc, 0xff, b'a', b'b', b'c'];

fn file(header: &[u8], blocks: &[Vec<u8>]) -> Vec<u8> {
    file_with_size(1234, header, blocks)
}

fn file_with_size(size: u32, header: &[u8], blocks: &[Vec<u8>]) -> Vec<u8> {
    let mut d = Vec::new();
    d.extend(le(size));
    d.extend(le(header.len() as u32));
    d.extend(le(blocks.len() as u32));
    d.extend_from_slice(header);
    for b in blocks {
        d.extend_from_slice(b);
        while d.len() % 4 != 0 {
            d.push(0);
        }
    }
    d
}

#[test]
fn block_header_parses_four_words() {
    let b = block(100, 200, &[]);
    let h = BlockHeader::parse(&b).unwrap();
    assert_eq!(h, BlockHeader { header_size: 16, compressed_length: 100, uncompressed_length: 200 });
    assert!(BlockHeader::parse(&b[..15]).is_none());
}

#[test]
fn stored_block_is_copied() {
    let b = stored_block(b"hello!");
    let mut out = vec![9u8];
    let consumed = decode_block_into(&b, &mut out).unwrap();
    assert_eq!(consumed, 22);
    assert_eq!(out, b"\x09hello!".to_vec());
}

#[test]
fn compressed_block_is_inflated() {
    let b = block(HELLO_DEFLATED.len() as u32, 5, &HELLO_DEFLATED);
    let mut out = Vec::new();
    let consumed = decode_block_into(&b, &mut out).unwrap();
    assert_eq!(consumed, 16 + HELLO_DEFLATED.len());
    assert_eq!(out, b"hello".to_vec());

    let b = block(ABC_STORED_DEFLATE.len() as u32, 3, &ABC_STORED_DEFLATE);
    let mut out = Vec::new();
    decode_block_into(&b, &mut out).unwrap();
    assert_eq!(out, b"abc".to_vec());
}

#[test]
fn block_errors() {
    let mut out = vec![1u8, 2];
    assert_eq!(decode_block_into(&[0u8; 10], &mut out), Err(DecodeError::UnexpectedEnd));
    let mut b = stored_block(b"abcd");
    b.truncate(18);
    assert_eq!(decode_block_into(&b, &mut out), Err(DecodeError::UnexpectedEnd));
    let bad = block(3, 3, &[0xff, 0xff, 0xff]);
    assert_eq!(decode_block_into(&bad, &mut out), Err(DecodeError::Inflate));
    assert_eq!(out, vec![1u8, 2]);
}

#[test]
fn decode_whole_file() {
    let blocks = vec![stored_block(b"abc"), block(HELLO_DEFLATED.len() as u32, 5, &HELLO_DEFLATED)];
    let data = file(b"HEAD", &blocks);
    let mut expected = b"HEAD".to_vec();
    expected.extend(vec![0u8; 0x40]);
    expected.extend(b"abchello");
    assert_eq!(decode_compressed_data(data.clone()).unwrap(), expected);
    assert_eq!(SqPackRawFile::decode(data).unwrap(), expected);
}

#[test]
fn decode_file_without_model_padding() {
    let blocks = vec![stored_block(b"xyz")];
    let data = file(b"HEAD1", &blocks);
    assert_eq!(decode_compressed_data(data.clone()).unwrap(), b"HEAD1xyz".to_vec());
    assert_eq!(SqPackRawFile::decode(data).unwrap(), b"HEAD1xyz".to_vec());
}

#[test]
fn decode_file_errors() {
    assert_eq!(decode_compressed_data(vec![0u8; 11]), Err(DecodeError::UnexpectedEnd));
    let mut data = file(b"", &[stored_block(b"abc")]);
    data[8] = 2;
    assert_eq!(decode_compressed_data(data.clone()), Err(DecodeError::UnexpectedEnd));
    assert!(SqPackRawFile::from_compressed_file(data).is_err());
    let mut data = file(b"", &[]);
    data[4] = 1;
    assert_eq!(decode_compressed_data(data.clone()), Err(DecodeError::UnexpectedEnd));
    assert!(SqPackRawFile::from_compressed_file(data).is_err());
}

#[test]
fn raw_file_roundtrip() {
    let blocks = vec![stored_block(b"abcde"), block(HELLO_DEFLATED.len() as u32, 5, &HELLO_DEFLATED)];
    let f = SqPackRawFile::from_blocks(77, Vec::new(), blocks.clone());
    let bytes = f.into_compressed().unwrap();
    assert_eq!(bytes, file_with_size(77, b"", &blocks));
    let back = SqPackRawFile::from_compressed_file(bytes).unwrap();
    assert_eq!(back.uncompressed_size(), 77);
    assert_eq!(back.into_decoded().unwrap(), b"abcdehello".to_vec());
}

#[test]
fn into_compressed_leaves_out_header_bytes() {
    let f = SqPackRawFile::from_blocks(5, b"XY".to_vec(), vec![stored_block(b"q")]);
    let bytes = f.into_compressed().unwrap();
    assert_eq!(&bytes[0..12], &[5, 0, 0, 0, 2, 0, 0, 0, 1, 0, 0, 0]);
    assert_eq!(bytes.len(), 12 + 20);
    assert_eq!(&bytes[12..29], stored_block(b"q").as_slice());
}

#[test]
fn into_compressed_rejects_short_block() {
    let f = SqPackRawFile::from_blocks(0, Vec::new(), vec![vec![1, 2, 3]]);
    assert_eq!(f.into_compressed(), Err(DecodeError::UnexpectedEnd));
}

#[test]
fn readers_keep_their_provider() {
    let r = SqPackReaderFile::new(42u32).unwrap();
    assert_eq!(*r.get_provider(), 42);
    let e = SqPackReaderExtractedFile::new("web").unwrap();
    assert_eq!(*e.get_provider(), "web");
}

fn hash(n: u32) -> SqPackFileHash {
    SqPackFileHash { folder: n, file: n + 1, path: n + 2 }
}

#[test]
fn batch_files_are_paired_with_their_request_and_decoded() {
    let hashes = vec![hash(1), hash(10), hash(20)];
    let files = vec![
        (hash(20), file(&[], &[block(HELLO_DEFLATED.len() as u32, 5, &HELLO_DEFLATED)])),
        (hash(1), file(&[], &[stored_block(b"abc")])),
    ];
    let out = decode_files(&hashes, files).unwrap();
    assert_eq!(out, vec![(2, b"hello".to_vec()), (0, b"abc".to_vec())]);
}

#[test]
fn batch_stops_at_the_first_file_that_does_not_decode() {
    let hashes = vec![hash(1), hash(10)];
    let files = vec![(hash(10), file(&[], &[stored_block(b"ok")])), (hash(1), vec![1, 2, 3])];
    assert_eq!(decode_files(&hashes, files), Err(DecodeError::UnexpectedEnd));
    assert_eq!(decode_files(&hashes, Vec::new()), Ok(Vec::new()));
}
