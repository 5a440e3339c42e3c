use fbhash::chunker::{bytes_to_chunks, chunk_sequence, ChunkContent, BASE, MODULUS, WINDOW};

const YES_EVEN: u64 = 33279275454869446;
const YES_ODD: u64 = 2879926931474365;

fn zero_file() -> Vec<u8> {
    vec![0u8; 512]
}

fn yes_file() -> Vec<u8> {
    let mut v = Vec::new();
    for _ in 0..256 {
        v.push(b'y');
        v.push(b'\n');
    }
    v
}

fn direct_digest(window: &[u8]) -> u64 {
    let mut h: u128 = 0;
    for b in window {
        h = h * (BASE as u128) + (*b as u128);
    }
    (h % (MODULUS as u128)) as u64
}

#[test]
fn chunker_test_litmus() {
    assert_eq!(1, 1)
}

#[test]
fn test_litmus2() {
    assert!(((2.0_f32 - 1.0) - 1.0).abs() <= 0.00001);
}

#[test]
fn test_first_chunk_from_file() {
    let chunks = chunk_sequence(&zero_file());
    let chunk = chunks[0];
    assert_eq!(chunk.number, 0);
    assert_eq!(chunk.digest, 0);
}

#[test]
fn test_get_all_chunks_from_file() {
    let chunks = chunk_sequence(&zero_file());
    assert_eq!(chunks.len(), 512 - 6);
    for (i, chunk) in chunks.iter().enumerate() {
        assert_eq!(chunk.number, i);
        assert_eq!(chunk.digest, 0);
    }
}

#[test]
fn test_first_chunk_from_zero_file() {
    let chunks = chunk_sequence(&zero_file());
    let chunk = chunks[0];
    assert_eq!(chunk.number, 0);
    assert_eq!(chunk.digest, 0);
}

#[test]
fn test_get_all_chunks_from_zero_file() {
    let chunks = chunk_sequence(&zero_file());
    assert_eq!(chunks.len(), 512 - 6);
    for (i, chunk) in chunks.iter().enumerate() {
        assert_eq!(chunk.number, i);
        assert_eq!(chunk.digest, 0);
    }
}

#[test]
fn test_zero_length_file() {
    let chunks = chunk_sequence(&[]);
    assert_eq!(chunks.len(), 1);
    for (i, chunk) in chunks.iter().enumerate() {
        assert_eq!(chunk.number, i);
        assert_eq!(chunk.digest, 0);
    }
}

#[test]
fn test_get_three_chunks_from_yes_file() {
    let chunks = chunk_sequence(&yes_file());
    assert_eq!(chunks[0].number, 0);
    assert_eq!(chunks[0].digest, 33279275454869446);
    assert_eq!(chunks[1].number, 1);
    assert_eq!(chunks[1].digest, 2879926931474365);
    assert_eq!(chunks[2].number, 2);
    assert_eq!(chunks[2].digest, 33279275454869446);
}

#[test]
fn test_get_all_chunks_from_yes_file() {
    let chunks = chunk_sequence(&yes_file());
    assert_eq!(chunks.len(), 512 - 6);
    for (i, chunk) in chunks.iter().enumerate() {
        assert_eq!(chunk.number, i);
        if i % 2 == 0 {
            assert_eq!(chunk.digest, 33279275454869446);
        } else {
            assert_eq!(chunk.digest, 2879926931474365);
        }
    }
}

#[test]
fn yes_file_digests_alternate() {
    let digests = bytes_to_chunks(&yes_file());
    assert_eq!(digests.len(), 506);
    for (i, d) in digests.iter().enumerate() {
        assert_eq!(*d, if i % 2 == 0 { YES_EVEN } else { YES_ODD });
    }
}

#[test]
fn empty_file_has_one_zero_chunk() {
    assert_eq!(bytes_to_chunks(&[]), vec![0u64]);
}

#[test]
fn short_file_is_padded_with_zeros() {
    // 1 * 255^6 + 2 * 255^5
    assert_eq!(bytes_to_chunks(&[1, 2]), vec![277098404709375u64]);
    assert_eq!(bytes_to_chunks(&[1, 2, 3, 4, 5, 6]), vec![direct_digest(&[1, 2, 3, 4, 5, 6, 0])]);
}

#[test]
fn window_sized_file_has_one_chunk() {
    let data = [9u8, 8, 7, 6, 5, 4, 3];
    assert_eq!(bytes_to_chunks(&data), vec![direct_digest(&data)]);
}

#[test]
fn rolling_digests_match_direct_formula() {
    let mut data = Vec::new();
    let mut x: u32 = 12345;
    for _ in 0..300 {
        x = x.wrapping_mul(1103515245).wrapping_add(12345);
        data.push((x >> 16) as u8);
    }
    let digests = bytes_to_chunks(&data);
    assert_eq!(digests.len(), data.len() - WINDOW + 1);
    for i in 0..digests.len() {
        assert_eq!(digests[i], direct_digest(&data[i..i + WINDOW]));
    }
}

#[test]
fn largest_bytes_do_not_overflow() {
    let data = vec![255u8; 20];
    let digests = bytes_to_chunks(&data);
    assert_eq!(digests.len(), 14);
    let expected = direct_digest(&[255u8; 7]);
    assert_eq!(expected, 70386233652806655);
    for d in digests {
        assert_eq!(d, expected);
    }
}

#[test]
fn hashing_twice_gives_the_same_sequence() {
    let data = yes_file();
    assert_eq!(bytes_to_chunks(&data), bytes_to_chunks(&data));
}

#[test]
fn chunk_content_setup_and_update() {
    let mut content = ChunkContent::new();
    let first = content.setup(&[b'y', b'\n', b'y', b'\n', b'y', b'\n', b'y']);
    assert_eq!(first.number, 0);
    assert_eq!(first.digest, YES_EVEN);
    let second = content.update(first.digest, b'\n');
    assert_eq!(second.number, 1);
    assert_eq!(second.digest, YES_ODD);
    let third = content.update(second.digest, b'y');
    assert_eq!(third.number, 2);
    assert_eq!(third.digest, YES_EVEN);
}
