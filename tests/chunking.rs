use chunked_hasher::hashers::sha2::{Sha256Hasher, Sha512Hasher};
use chunked_hasher::hashers::Hasher;
use chunked_hasher::source::MemorySource;
use chunked_hasher::{Chunk, ChunkError, ChunkedHasher};

// Ten-letter lower-case words joined into one line; the second text has two
// of the words replaced by 'x'.
const WORDSTRING: &str = "brainstormremuneratedisabilityexperiment\
                          goalkeepervegetarianattachmentsystematic\
                          relaxationpermissiondifficultyconference\
                          revolutionassumptionallocationliterature\
                          inhabitantdependenceoccupationprotection\
                          hypothesisdisappointexcitementunpleasant\
                          temptationassessmentthoughtfulpresidency\
                          censorshipwildernessreluctanceacceptable\
                          houseplantinstrumentoverchargeconvulsion\
                          acceptancefastidiousredundancydecorative\
                          attractiontechnologyvegetationmotorcycle\
                          curriculumhypnothizestereotypefederation";

const WORDSTRING_DIFF: &str = "brainstormremuneratedisabilityexperiment\
                               goalkeepervegetarianxxxxxxxxxxsystematic\
                               relaxationpermissiondifficultyconference\
                               revolutionassumptionallocationliterature\
                               inhabitantdependenceoccupationprotection\
                               hypothesisdisappointexcitementxxxxxxxxxx\
                               temptationassessmentthoughtfulpresidency\
                               censorshipwildernessreluctanceacceptable\
                               houseplantinstrumentoverchargeconvulsion\
                               acceptancefastidiousredundancydecorative\
                               attractiontechnologyvegetationmotorcycle\
                               curriculumhypnothizestereotypefederation";

const SHA256_ABC: &str = "ba7816bf8f01cfea414140de5dae2223b00361a396177a9cb410ff61f20015ad";
const SHA256_EMPTY: &str = "e3b0c44298fc1c149afbf4c8996fb92427ae41e4649b934ca495991b7852b855";
const SHA512_ABC: &str = "ddaf35a193617abacc417349ae20413112e6fa4e89a97ea20a9eeee64b55d39a\
                          2192992a274fc1a836ba3c23a3feebbd454d4423643ce80e2a9ac94fa54ca49f";

fn fixed<H: Hasher>(text: &[u8], size: u64) -> Vec<Chunk> {
    let source = MemorySource::new(text.to_vec());
    let mut hasher =
        ChunkedHasher::<MemorySource, H>::fixed_chunks(source, text.len() as u64, size).unwrap();
    hasher.collect_chunks()
}

fn dynamic<H: Hasher>(text: &[u8], amount: u64) -> Vec<Chunk> {
    let source = MemorySource::new(text.to_vec());
    let mut hasher =
        ChunkedHasher::<MemorySource, H>::dynamic_chunks(source, text.len() as u64, amount)
            .unwrap();
    hasher.collect_chunks()
}

fn hex(bytes: &[u8]) -> String {
    bytes.iter().map(|b| format!("{:02x}", b)).collect()
}

fn assert_two_words_differ(first_chunks: Vec<Chunk>, edited_chunks: Vec<Chunk>) {
    assert!(first_chunks != edited_chunks);
    assert_eq!(first_chunks.len(), edited_chunks.len());
    let diffed_ones = first_chunks
        .iter()
        .filter(|element| !edited_chunks.contains(element))
        .collect::<Vec<&Chunk>>();
    assert_eq!(diffed_ones.len(), 2);
    assert_eq!(diffed_ones.get(0).unwrap().index, 1);
    assert_eq!(diffed_ones.get(1).unwrap().index, 5);
}

#[test]
fn compare_two_strings_fixed_sha256() {
    assert_two_words_differ(
        fixed::<Sha256Hasher>(WORDSTRING.as_bytes(), 40),
        fixed::<Sha256Hasher>(WORDSTRING_DIFF.as_bytes(), 40),
    );
}

#[test]
fn compare_two_strings_dynamic_sha256() {
    assert_two_words_differ(
        dynamic::<Sha256Hasher>(WORDSTRING.as_bytes(), 12),
        dynamic::<Sha256Hasher>(WORDSTRING_DIFF.as_bytes(), 12),
    );
}

#[test]
fn compare_two_strings_fixed_sha512() {
    assert_two_words_differ(
        fixed::<Sha512Hasher>(WORDSTRING.as_bytes(), 40),
        fixed::<Sha512Hasher>(WORDSTRING_DIFF.as_bytes(), 40),
    );
}

#[test]
fn compare_two_strings_dynamic_sha512() {
    assert_two_words_differ(
        dynamic::<Sha512Hasher>(WORDSTRING.as_bytes(), 12),
        dynamic::<Sha512Hasher>(WORDSTRING_DIFF.as_bytes(), 12),
    );
}

#[test]
fn stream_of_492_bytes_in_chunks_of_40() {
    let text: Vec<u8> = (0..492u32).map(|i| (i % 251) as u8).collect();
    let source = MemorySource::new(text.clone());
    let hasher = ChunkedHasher::<MemorySource, Sha256Hasher>::fixed_chunks(source, 492, 40).unwrap();
    assert_eq!(hasher.chunk_size(), 40);
    assert_eq!(hasher.chunk_count(), 13);
    let chunks = fixed::<Sha256Hasher>(&text, 40);
    assert_eq!(chunks.len(), 13);
    for (i, c) in chunks.iter().enumerate() {
        assert_eq!(c.index, i as u64);
        assert_eq!(c.size, if i < 12 { 40 } else { 12 });
    }
    let mut edited = text.clone();
    edited[45] ^= 0xff;
    edited[210] ^= 0xff;
    let other = fixed::<Sha256Hasher>(&edited, 40);
    let changed: Vec<u64> = chunks
        .iter()
        .zip(other.iter())
        .filter(|(a, b)| a != b)
        .map(|(a, _)| a.index)
        .collect();
    assert_eq!(changed, vec![1, 5]);
}

#[test]
fn stream_of_492_bytes_in_13_chunks_by_count() {
    let text: Vec<u8> = (0..492u32).map(|i| (i % 251) as u8).collect();
    // 492 / 13 rounds down to 37: 13 full chunks and a trailing one of 11.
    let chunks = dynamic::<Sha512Hasher>(&text, 13);
    assert_eq!(chunks.len(), 14);
    assert!(chunks[..13].iter().all(|c| c.size == 37));
    assert_eq!(chunks[13].size, 11);
    let mut edited = text.clone();
    edited[40] = edited[40].wrapping_add(1);
    edited[190] = edited[190].wrapping_add(1);
    let other = dynamic::<Sha512Hasher>(&edited, 13);
    let changed: Vec<u64> = chunks
        .iter()
        .zip(other.iter())
        .filter(|(a, b)| a != b)
        .map(|(a, _)| a.index)
        .collect();
    assert_eq!(changed, vec![1, 5]);
}

#[test]
fn fixed_size_larger_than_stream_gives_one_chunk() {
    let source = MemorySource::new(b"abc".to_vec());
    let mut hasher =
        ChunkedHasher::<MemorySource, Sha256Hasher>::fixed_chunks(source, 3, 1000).unwrap();
    assert_eq!(hasher.chunk_size(), 3);
    assert_eq!(hasher.chunk_count(), 1);
    let chunks = hasher.collect_chunks();
    assert_eq!(chunks.len(), 1);
    assert_eq!(chunks[0].size, 3);
    assert_eq!(hex(&chunks[0].hash), SHA256_ABC);
}

#[test]
fn dynamic_count_above_stream_gives_one_chunk() {
    let source = MemorySource::new(b"abc".to_vec());
    let hasher = ChunkedHasher::<MemorySource, Sha256Hasher>::dynamic_chunks(source, 3, 7).unwrap();
    assert_eq!(hasher.chunk_size(), 3);
    assert_eq!(hasher.chunk_count(), 1);
}

#[test]
fn dynamic_remainder_is_not_spread() {
    let source = MemorySource::new(b"0123456789".to_vec());
    let mut hasher =
        ChunkedHasher::<MemorySource, Sha256Hasher>::dynamic_chunks(source, 10, 4).unwrap();
    assert_eq!(hasher.chunk_size(), 2);
    assert_eq!(hasher.chunk_count(), 5);
    let sizes: Vec<u64> = hasher.collect_chunks().iter().map(|c| c.size).collect();
    assert_eq!(sizes, vec![2, 2, 2, 2, 2]);
    let sizes: Vec<u64> = dynamic::<Sha256Hasher>(b"0123456789a", 4).iter().map(|c| c.size).collect();
    assert_eq!(sizes, vec![2, 2, 2, 2, 2, 1]);
}

#[test]
fn zero_stream_size_is_rejected() {
    let r = ChunkedHasher::<MemorySource, Sha256Hasher>::fixed_chunks(MemorySource::new(vec![]), 0, 4);
    assert!(matches!(r, Err(ChunkError::InvalidArgument)));
    let r = ChunkedHasher::<MemorySource, Sha256Hasher>::dynamic_chunks(MemorySource::new(vec![]), 0, 4);
    assert!(matches!(r, Err(ChunkError::InvalidArgument)));
}

#[test]
fn zero_sizing_parameter_is_rejected() {
    let r = ChunkedHasher::<MemorySource, Sha256Hasher>::fixed_chunks(MemorySource::new(vec![1]), 1, 0);
    assert!(matches!(r, Err(ChunkError::InvalidArgument)));
    let r = ChunkedHasher::<MemorySource, Sha256Hasher>::dynamic_chunks(MemorySource::new(vec![1]), 1, 0);
    assert!(matches!(r, Err(ChunkError::InvalidArgument)));
}

#[test]
fn sizes_add_up_and_indices_count_on() {
    for size in 1..=50u64 {
        let chunks = fixed::<Sha256Hasher>(WORDSTRING.as_bytes(), size);
        let total: u64 = chunks.iter().map(|c| c.size).sum();
        assert_eq!(total, WORDSTRING.len() as u64);
        let expected = (WORDSTRING.len() as u64 + size - 1) / size;
        assert_eq!(chunks.len() as u64, expected);
        for (i, c) in chunks.iter().enumerate() {
            assert_eq!(c.index, i as u64);
        }
    }
}

#[test]
fn rerun_gives_identical_chunks() {
    let first = dynamic::<Sha512Hasher>(WORDSTRING.as_bytes(), 7);
    let second = dynamic::<Sha512Hasher>(WORDSTRING.as_bytes(), 7);
    assert!(first == second);
}

#[test]
fn single_byte_edit_changes_only_its_chunk() {
    let text = WORDSTRING.as_bytes().to_vec();
    let mut edited = text.clone();
    edited[333] = b'#';
    let a = fixed::<Sha256Hasher>(&text, 64);
    let b = fixed::<Sha256Hasher>(&edited, 64);
    assert_eq!(a.len(), b.len());
    for i in 0..a.len() {
        assert_eq!(a[i].index, b[i].index);
        assert_eq!(a[i].size, b[i].size);
        assert_eq!(a[i].hash == b[i].hash, i != 333 / 64);
    }
}

#[test]
fn last_chunk_hashes_zero_padded_buffer() {
    let chunks = fixed::<Sha256Hasher>(b"abcd", 3);
    assert_eq!(chunks.len(), 2);
    assert_eq!(chunks[1].size, 1);
    assert_eq!(chunks[1].hash, Sha256Hasher::hash_bytes(&[b'd', 0, 0]));
    assert_eq!(chunks[0].hash, Sha256Hasher::hash_bytes(b"abc"));
}

#[test]
fn step_by_step_then_end() {
    let source = MemorySource::new(b"abcde".to_vec());
    let mut hasher =
        ChunkedHasher::<MemorySource, Sha256Hasher>::fixed_chunks(source, 5, 2).unwrap();
    let mut sizes = vec![];
    while let Some(c) = hasher.next() {
        sizes.push(c.size);
    }
    assert_eq!(sizes, vec![2, 2, 1]);
    assert!(hasher.next().is_none());
    assert!(matches!(hasher.try_next(), Ok(None)));
}

#[test]
fn digests_of_known_inputs() {
    assert_eq!(hex(&Sha256Hasher::hash_bytes(b"abc")), SHA256_ABC);
    assert_eq!(hex(&Sha256Hasher::hash_bytes(b"")), SHA256_EMPTY);
    assert_eq!(hex(&Sha512Hasher::hash_bytes(b"abc")), SHA512_ABC);
    assert_eq!(Sha512Hasher::hash_bytes(b"").len(), 64);
}

#[test]
fn chunk_text_form() {
    let chunks = fixed::<Sha256Hasher>(b"abc", 3);
    assert_eq!(chunks[0].to_string(), format!("0/3/{}", SHA256_ABC));
    let c = Chunk { index: 12, size: 40, hash: vec![0x00, 0xab, 0x0f, 0xf0] };
    assert_eq!(c.to_string(), "12/40/00ab0ff0");
}

#[test]
fn memory_source_reads_past_end() {
    let chunks = fixed::<Sha256Hasher>(b"xy", 2);
    assert_eq!(chunks.len(), 1);
    let source = MemorySource::new(b"xy".to_vec());
    assert_eq!(source.len(), 2);
    // A stream size hint shorter than the source stops after the hinted bytes.
    let mut hasher = ChunkedHasher::<MemorySource, Sha256Hasher>::fixed_chunks(source, 1, 1).unwrap();
    let chunks = hasher.collect_chunks();
    assert_eq!(chunks.len(), 1);
    assert_eq!(chunks[0].size, 1);
}

#[test]
fn second_pass_over_returned_source_matches() {
    let source = MemorySource::new(WORDSTRING.as_bytes().to_vec());
    let mut hasher =
        ChunkedHasher::<MemorySource, Sha256Hasher>::fixed_chunks(source, 480, 33).unwrap();
    let first = hasher.collect_chunks();
    let source = hasher.into_source();
    let mut again =
        ChunkedHasher::<MemorySource, Sha256Hasher>::fixed_chunks(source, 480, 33).unwrap();
    let second = again.collect_chunks();
    assert_eq!(first.len(), 15);
    assert!(first == second);
}

#[test]
fn short_source_stops_at_chunk_count() {
    let source = MemorySource::new(vec![7u8]);
    let mut hasher =
        ChunkedHasher::<MemorySource, Sha256Hasher>::fixed_chunks(source, 3, 1).unwrap();
    assert_eq!(hasher.chunk_count(), 3);
    let chunks = hasher.collect_chunks();
    let sizes: Vec<u64> = chunks.iter().map(|c| c.size).collect();
    assert_eq!(sizes, vec![1, 0, 0]);
    let indices: Vec<u64> = chunks.iter().map(|c| c.index).collect();
    assert_eq!(indices, vec![0, 1, 2]);
    assert_eq!(chunks[1].hash, Sha256Hasher::hash_bytes(&[0]));
    assert!(hasher.next().is_none());
    assert!(matches!(hasher.try_next(), Ok(None)));
}
