use pmxcfs::logger::hash::{fnv_64a, fnv_64a_str, FNV1A_64_INIT};

#[test]
fn test_fnv1a_init() {
    assert_eq!(FNV1A_64_INIT, 0xcbf29ce484222325);
}

#[test]
fn test_fnv1a_empty() {
    let hash = fnv_64a(&[0], FNV1A_64_INIT);
    assert_ne!(hash, FNV1A_64_INIT);
}

#[test]
fn test_fnv1a_consistency() {
    let data = b"test";
    let hash1 = fnv_64a(data, FNV1A_64_INIT);
    let hash2 = fnv_64a(data, FNV1A_64_INIT);
    assert_eq!(hash1, hash2);
}

#[test]
fn test_fnv1a_different_data() {
    let hash1 = fnv_64a(b"test1", FNV1A_64_INIT);
    let hash2 = fnv_64a(b"test2", FNV1A_64_INIT);
    assert_ne!(hash1, hash2);
}

#[test]
fn test_fnv1a_str() {
    let hash1 = fnv_64a_str("node1");
    let hash2 = fnv_64a_str("node1");
    let hash3 = fnv_64a_str("node2");
    assert_eq!(hash1, hash2);
    assert_ne!(hash1, hash3);
}

#[test]
fn test_fnv1a_node_names() {
    let nodes = vec!["pve1", "pve2", "pve3"];
    let mut hashes = Vec::new();
    for node in &nodes {
        hashes.push(fnv_64a_str(node));
    }
    for i in 0..hashes.len() {
        for j in (i + 1)..hashes.len() {
            assert_ne!(hashes[i], hashes[j], "Hashes for {} and {} should differ", nodes[i], nodes[j]);
        }
    }
}

#[test]
fn test_fnv1a_chaining() {
    let data1 = b"first";
    let data2 = b"second";
    let hash1 = fnv_64a(data1, FNV1A_64_INIT);
    let hash2 = fnv_64a(data2, hash1);
    let hash1_again = fnv_64a(data1, FNV1A_64_INIT);
    let hash2_again = fnv_64a(data2, hash1_again);
    assert_eq!(hash2, hash2_again);
}

#[test]
fn fnv_known_value_of_single_byte() {
    // FNV-1a of one zero byte: (init ^ 0) * prime mod 2^64
    let expected = 0xcbf29ce484222325u64.wrapping_mul(0x100000001b3);
    assert_eq!(fnv_64a(&[0], FNV1A_64_INIT), expected);
}

#[test]
fn fnv_str_is_bytes_with_terminator() {
    let mut bytes = b"node1".to_vec();
    bytes.push(0);
    assert_eq!(fnv_64a_str("node1"), fnv_64a(&bytes, FNV1A_64_INIT));
}

#[test]
fn fnv_chaining_equals_concatenation() {
    let h = fnv_64a(b"second", fnv_64a(b"first", FNV1A_64_INIT));
    assert_eq!(h, fnv_64a(b"firstsecond", FNV1A_64_INIT));
}
