use kmer_count::alphabet;
use kmer_count::compress::{compress_seq, decode_seq, encode_char};

#[test]
fn alphabet_test_encode_char() {
    let low_a = alphabet::encode_char('a');
    assert_eq!(low_a, 0);

    let cap_a = alphabet::encode_char('A');
    assert_eq!(cap_a, 0);
}

#[test]
fn compress_test_encode_char() {
    for (index, character) in ['A', 'C', 'G', 'T'].iter().enumerate() {
        assert_eq!(encode_char(*character), index as u64);
    }

    for (index, character) in ['a', 'c', 'g', 't'].iter().enumerate() {
        assert_eq!(encode_char(*character), index as u64);
    }
}

#[test]
fn test_encode_invalid_char() {
    for character in &['N', 'F', 'K', 'z', 'y'] {
        assert_eq!(encode_char(*character), 255);
    }
}

#[test]
fn test_compress_seq() {
    let res = compress_seq("A");
    assert!(res.is_none());

    let res = compress_seq(&"A".repeat(32));
    assert_eq!(res, Some(0));

    let res = compress_seq(&"a".repeat(32));
    assert_eq!(res, Some(0));

    let res = compress_seq(&"C".repeat(32));
    assert_eq!(res, Some(0x5555555555555555));

    let res = compress_seq(&"G".repeat(32));
    assert_eq!(res, Some(0xaaaaaaaaaaaaaaaa));

    let res = compress_seq(&"T".repeat(32));
    println!("{:#x}", res.unwrap());
    assert_eq!(res, Some(0xffffffffffffffff));

    // An ambiguous symbol makes compression fail rather than being packed
    // with a legitimate bit pattern.
    let res = compress_seq(&"N".repeat(32));
    assert!(res.is_none());

    let res = compress_seq(&"ACGT".repeat(8));
    assert_eq!(res, Some(0x1b1b1b1b1b1b1b1b));

    let res = compress_seq(&"TGCA".repeat(8));
    assert_eq!(res, Some(0xe4e4e4e4e4e4e4e4));
}

#[test]
fn test_compress_rejects_wrong_lengths() {
    assert!(compress_seq("").is_none());
    assert!(compress_seq(&"A".repeat(31)).is_none());
    assert!(compress_seq(&"A".repeat(33)).is_none());
}

#[test]
fn test_compress_rejects_one_bad_symbol() {
    let mut s = "A".repeat(31);
    s.push('N');
    assert!(compress_seq(&s).is_none());
}

#[test]
fn test_compress_case_insensitive() {
    let upper = "ACGTACGTACGTACGTACGTACGTACGTACGT";
    let lower = "acgtacgtacgtacgtacgtacgtacgtacgt";
    let mixed = "AcGtaCgTACGTacgtACGTacgtACGTacgt";
    let k = compress_seq(upper).unwrap();
    assert_eq!(compress_seq(lower), Some(k));
    assert_eq!(compress_seq(mixed), Some(k));
}

#[test]
fn test_decode_round_trip() {
    let original = "AACCGGTTACGTTGCAAACCGGTTACGTTGCA";
    let key = compress_seq(original).unwrap();
    let symbols = decode_seq(key);
    let decoded: String = symbols.iter().collect();
    assert_eq!(decoded, original);
    assert_eq!(compress_seq(&decoded), Some(key));
}

#[test]
fn test_decode_gives_canonical_form() {
    let key = compress_seq(&"tgca".repeat(8)).unwrap();
    let symbols = decode_seq(key);
    let decoded: String = symbols.iter().collect();
    assert_eq!(decoded, "TGCA".repeat(8));
}

#[test]
fn test_compress_injective_on_samples() {
    let a = compress_seq(&"A".repeat(32)).unwrap();
    let b = compress_seq(&"ACGT".repeat(8)).unwrap();
    let c = compress_seq(&"TGCA".repeat(8)).unwrap();
    assert_ne!(a, b);
    assert_ne!(a, c);
    assert_ne!(b, c);
}
