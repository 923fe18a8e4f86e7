use direlera_rs::handlers::util::{bytes_for_log, bytes_to_string, try_decode_bytes};

#[test]
fn empty_bytes() {
    assert_eq!(try_decode_bytes(&[]), (String::new(), "empty"));
}

#[test]
fn utf8_with_non_ascii_text() {
    assert_eq!(try_decode_bytes("héllo".as_bytes()), ("héllo".to_string(), "UTF-8"));
}

#[test]
fn plain_ascii_reads_as_lossy_utf8() {
    assert_eq!(try_decode_bytes(b"hello"), ("hello".to_string(), "UTF-8 (lossy)"));
}

#[test]
fn korean_in_euc_kr() {
    let (bytes, _, _) = encoding_rs::EUC_KR.encode("안녕하세요");
    assert_eq!(try_decode_bytes(&bytes), ("안녕하세요".to_string(), "EUC-KR"));
    assert_eq!(bytes_for_log(&bytes), "안녕하세요".to_string());
}

#[test]
fn equal_scores_keep_the_earlier_encoding() {
    // these Shift-JIS bytes also read as five Hangul syllables in EUC-KR;
    // both readings score the same and EUC-KR is tried first
    let (bytes, _, _) = encoding_rs::SHIFT_JIS.encode("こんにちは");
    let (text, name) = try_decode_bytes(&bytes);
    assert_eq!(name, "EUC-KR");
    assert_eq!(text.chars().count(), 5);
    assert_eq!(bytes_to_string(&bytes), text);
}

#[test]
fn japanese_in_shift_jis() {
    // half-width katakana are single bytes in Shift-JIS and malformed in EUC-KR
    let (bytes, _, _) = encoding_rs::SHIFT_JIS.encode("ｱｲｳｴｵ");
    assert_eq!(try_decode_bytes(&bytes).1, "Shift-JIS");
}

#[test]
fn control_bytes_as_hex() {
    assert_eq!(try_decode_bytes(&[0x01, 0x41, 0x02]).1, "UTF-8 (lossy)");
    assert_eq!(try_decode_bytes(&[0x01, 0x02]), ("\\x01\\x02".to_string(), "hex"));
    assert_eq!(try_decode_bytes(&[0xff]), ("\\xff".to_string(), "hex"));
}
