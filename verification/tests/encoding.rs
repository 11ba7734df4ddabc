use pintail_exec::digest::md5_hex;
use pintail_exec::encoding::{base64_decode, base64_encode, hex_upper, to_base64, unhex};

#[test]
fn unhex_returns_null_for_non_hex_instead_of_panicking() {
    assert_eq!(unhex("ff"), Some(vec![0xFF]));
    assert_eq!(unhex("FF"), Some(vec![0xFF]));
    // Odd length left-pads with a zero nibble, matching MySQL.
    assert_eq!(unhex("aab"), Some(vec![0x0A, 0xAB]));
    assert_eq!(unhex(""), Some(Vec::new()));
    // The panic cases.
    assert_eq!(unhex("\u{e9}a"), None);
    assert_eq!(unhex("\u{e9}"), None);
    assert_eq!(unhex("a\u{e9}"), None);
    assert_eq!(unhex("\u{4e16}\u{754c}"), None);
    // Ordinary non-hex text.
    assert_eq!(unhex("zz"), None);
    assert_eq!(unhex("g"), None);
}

#[test]
fn hex_is_upper_case_and_round_trips() {
    assert_eq!(hex_upper(b"\x00\xffab"), "00FF6162");
    assert_eq!(unhex(&hex_upper(b"pintail")), Some(b"pintail".to_vec()));
}

#[test]
fn base64_wraps_lines_and_decodes_back() {
    assert_eq!(base64_encode(b"abc"), "YWJj");
    assert_eq!(base64_encode(b"ab"), "YWI=");
    assert_eq!(base64_encode("a".repeat(58).as_bytes()).chars().count(), 80);
    // TO_BASE64 wraps every 76 characters: 58 bytes -> 81 characters.
    let encoded = to_base64("a".repeat(58).as_bytes());
    assert_eq!(encoded.chars().count(), 81);
    assert!(encoded.contains('\n'));
    assert_eq!(base64_decode(&encoded), Some("a".repeat(58).into_bytes()));
    assert_eq!(base64_decode("YWI="), Some(b"ab".to_vec()));
    assert_eq!(base64_decode("Y"), None);
}

#[test]
fn md5_matches_mysql_known_vectors() {
    assert_eq!(md5_hex(b""), "d41d8cd98f00b204e9800998ecf8427e");
    assert_eq!(md5_hex(b"abc"), "900150983cd24fb0d6963f7d28e17f72");
}

#[test]
fn unhex_reads_back_what_hex_wrote() {
    let bytes: Vec<u8> = (0..=255u8).collect();
    let text = hex_upper(&bytes);
    assert_eq!(unhex(&text), Some(bytes));
}

#[test]
fn from_base64_reads_back_wrapped_to_base64_output() {
    let bytes: Vec<u8> = (0..200u32).map(|i| (i * 37 % 256) as u8).collect();
    let text = to_base64(&bytes);
    assert!(text.contains('\n'));
    assert_eq!(base64_decode(&text), Some(bytes.clone()));
    assert_eq!(base64_decode(&base64_encode(&bytes[..2])), Some(bytes[..2].to_vec()));
}
