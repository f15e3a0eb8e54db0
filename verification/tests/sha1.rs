use torrent_rs::sha1::sha1;

fn hex(bytes: &[u8]) -> String {
    bytes.iter().map(|b| format!("{:02x}", b)).collect()
}

#[test]
fn test_sha1() {
    let cases = [
        (
            "The quick brown fox jumps over the lazy dog",
            "2fd4e1c67a2d28fced849ee1bb76e7391b93eb12",
        ),
        (
            "The quick brown fox jumps over the lazy cog",
            "de9f2c7fd25e1b3afad3e85a0bd17d9b100db4b3",
        ),
        ("", "da39a3ee5e6b4b0d3255bfef95601890afd80709"),
    ];

    for (input, output) in cases.into_iter() {
        let bytes = sha1(input.as_bytes());
        let out: String = bytes
            .iter()
            .map(|b| format!("{:02x}", b).to_string())
            .collect();
        assert_eq!(out, output);
    }
}

#[test]
fn sha1_of_abc() {
    assert_eq!(hex(&sha1(b"abc")), "a9993e364706816aba3e25717850c26c9cd0d89d");
}

#[test]
fn sha1_of_two_blocks() {
    let input = b"abcdbcdecdefdefgefghfghighijhijkijkljklmklmnlmnomnopnopq";
    assert_eq!(hex(&sha1(input)), "84983e441c3bd26ebaae4aa1f95129e5e54670f1");
}

#[test]
fn sha1_padding_edges() {
    // 55, 56 and 64 bytes: the padding fits the block, needs a second one,
    // and follows a full block.
    assert_eq!(hex(&sha1(&[b'a'; 55])), "c1c8bbdc22796e28c0e15163d20899b65621d65a");
    assert_eq!(hex(&sha1(&[b'a'; 56])), "c2db330f6083854c99d4b5bfb6e8f29f201be699");
    assert_eq!(hex(&sha1(&[b'a'; 64])), "0098ba824b5c16427bd7a1122a5a442a25ec644d");
}

#[test]
fn sha1_is_stable_and_twenty_bytes() {
    let input = b"d1:ad1:ai25eee".to_vec();
    let copy = input.clone();
    let first = sha1(&input);
    let second = sha1(&copy);
    assert_eq!(first, second);
    assert_eq!(first.len(), 20);
    assert_eq!(sha1(b"").len(), 20);
}

#[test]
fn sha1_of_a_million_a() {
    let input = vec![b'a'; 1_000_000];
    assert_eq!(hex(&sha1(&input)), "34aa973cd4c4daa4f61eeb2bdbad27316534016f");
}
