use heavykeeper::murmur3::murmur3_32;

#[test]
fn test_murmur3() {
    let x = murmur3_32("hello world".as_bytes(), 0);
    assert_eq!(x, 1586663183);
}

#[test]
fn test_hash_deterministic() {
    let inputs: [&[u8]; 6] = [b"", b"a", b"ab", b"abc", b"abcd", b"abcdefghij"];
    for inp in inputs {
        for seed in [0u32, 1, 2, 0xdead_beef] {
            assert_eq!(murmur3_32(inp, seed), murmur3_32(inp, seed));
        }
    }
}

#[test]
fn test_hash_separates_keys() {
    // distinct short keys used by the sketch tests spread apart
    let a = murmur3_32(b"a", 0);
    let b = murmur3_32(b"b", 0);
    let c = murmur3_32(b"c", 0);
    assert!(a != b && b != c && a != c);
}
