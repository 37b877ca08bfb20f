use e9571_str_lib::hash_address_n_token_id;
use e9571_str_lib::hashing::id_from_digest;

#[test]
fn identifier_of_a_known_pair() {
    // Keccak-256("0xabc1") begins 1a 6c 7a e5 28 bb 2b b4.
    assert_eq!(hash_address_n_token_id("0xabc", "1"), 1904031867120331700);
    assert_eq!(hash_address_n_token_id("0xabc", "1"), 0x1a6c_7ae5_28bb_2bb4);
}

#[test]
fn identifier_of_the_empty_pair() {
    // Keccak-256("") begins c5 d2 46 01 86 f7 23 3c.
    assert_eq!(hash_address_n_token_id("", ""), 0xc5d2_4601_86f7_233c);
    assert_eq!(hash_address_n_token_id("", ""), 14254532742954296124);
}

#[test]
fn same_pair_same_identifier() {
    let first = hash_address_n_token_id("0xdeadbeef", "42");
    let second = hash_address_n_token_id("0xdeadbeef", "42");
    assert_eq!(first, second);
}

#[test]
fn different_pairs_give_different_identifiers() {
    assert_eq!(hash_address_n_token_id("0xabc", "2"), 3154985269194660680);
    assert_ne!(
        hash_address_n_token_id("0xabc", "1"),
        hash_address_n_token_id("0xabc", "2")
    );
    assert_ne!(
        hash_address_n_token_id("0xabc", "1"),
        hash_address_n_token_id("1", "0xabc")
    );
}

#[test]
fn only_the_concatenation_counts() {
    assert_eq!(hash_address_n_token_id("ab", "1"), 11675720664815818140);
    assert_eq!(hash_address_n_token_id("a", "b1"), 11675720664815818140);
    assert_eq!(hash_address_n_token_id("", "ab1"), 11675720664815818140);
    assert_eq!(hash_address_n_token_id("ab1", ""), 11675720664815818140);
}

#[test]
fn texts_are_hashed_as_utf8() {
    assert_eq!(hash_address_n_token_id("é", ""), 16791507538725071932);
}

#[test]
fn long_input_spans_several_blocks() {
    let long = "x".repeat(300);
    assert_eq!(hash_address_n_token_id(&long, ""), 10765984448994297624);
    assert_eq!(
        hash_address_n_token_id(&long[..100], &long[100..]),
        10765984448994297624
    );
}

#[test]
fn identifier_reads_eight_bytes_big_endian() {
    let mut digest = [0u8; 32];
    digest[6] = 1;
    digest[7] = 2;
    digest[8] = 0xff;
    assert_eq!(id_from_digest(&digest), 258);
    assert_eq!(id_from_digest(&[1, 0, 0, 0, 0, 0, 0, 0, 9, 9]), 1 << 56);
    assert_eq!(
        id_from_digest(&[0x01, 0x23, 0x45, 0x67, 0x89, 0xab, 0xcd, 0xef]),
        0x0123_4567_89ab_cdef
    );
    assert_eq!(id_from_digest(&[0xff; 32]), u64::MAX);
    assert_eq!(id_from_digest(&[0; 32]), 0);
}

#[test]
fn identifier_of_a_short_digest_reads_all_of_it() {
    assert_eq!(id_from_digest(&[]), 0);
    assert_eq!(id_from_digest(&[7]), 7);
    assert_eq!(id_from_digest(&[1, 2]), 258);
    assert_eq!(id_from_digest(&[1, 2, 3, 4, 5, 6, 7]), 0x01_0203_0405_0607);
}
