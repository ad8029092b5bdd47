use mailarch::hash::{compute_msg_hash, hash_to_hex, HASH_LEN};

#[test]
fn known_digests() {
    assert_eq!(HASH_LEN, 28);
    assert_eq!(
        hash_to_hex(&compute_msg_hash(b"")),
        "6b4e03423667dbb73b6e15454f0eb1abd4597f9a1b078e3f5b5a6bc7"
    );
    assert_eq!(
        hash_to_hex(&compute_msg_hash(b"abc")),
        "e642824c3f8cf24ad09234ee7d3c766fc9a3a5168d0c94ad73b46fdf"
    );
}

#[test]
fn hex_of_hash() {
    let mut hash = [0u8; 28];
    hash[0] = 0xab;
    hash[27] = 0x01;
    let hex = hash_to_hex(&hash);
    assert_eq!(hex.len(), 56);
    assert_eq!(hex, format!("ab{}01", "00".repeat(26)));
}
