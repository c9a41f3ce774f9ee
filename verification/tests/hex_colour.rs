use fe_ui_core::hex::{expand_nibble, hex_byte, hex_nibble, parse_trimmed_hex, try_hex, HexError};

// ── Colour strings ───────────────────────────────────────────────────────

#[test]
fn hex_rrggbb_opaque() {
    assert_eq!(try_hex("#ff0000").unwrap(), [255, 0, 0, 255]);
}

#[test]
fn hex_rrggbb_no_hash() {
    assert_eq!(try_hex("00ff00").unwrap(), [0, 255, 0, 255]);
}

#[test]
fn hex_rrggbbaa_with_alpha() {
    assert_eq!(try_hex("#ffffff80").unwrap(), [255, 255, 255, 128]);
}

#[test]
fn hex_rrggbbaa_fully_transparent() {
    assert_eq!(try_hex("#00000000").unwrap(), [0, 0, 0, 0]);
}

#[test]
fn hex_shorthand_rgb() {
    // #f00 → #ff0000
    assert_eq!(try_hex("#f00").unwrap(), [255, 0, 0, 255]);
}

#[test]
fn hex_shorthand_rgba() {
    // #f00f → #ff0000ff
    assert_eq!(try_hex("#f00f").unwrap(), [255, 0, 0, 255]);
}

#[test]
fn hex_shorthand_rgba_transparent() {
    // #0000 → fully transparent black
    assert_eq!(try_hex("#0000").unwrap(), [0, 0, 0, 0]);
}

#[test]
fn hex_mixed_case() {
    let lower = try_hex("#7c3aed").unwrap();
    let upper = try_hex("#7C3AED").unwrap();
    assert_eq!(lower, upper);
}

#[test]
fn hex_whitespace_trimmed() {
    assert_eq!(try_hex("  #ffffff  ").unwrap(), [255, 255, 255, 255]);
}

#[test]
fn hex_black() {
    assert_eq!(try_hex("#000000").unwrap(), [0, 0, 0, 255]);
}

#[test]
fn hex_white() {
    assert_eq!(try_hex("#ffffff").unwrap(), [255, 255, 255, 255]);
}

#[test]
fn hex_ferrum_accent() {
    // #7c3aed — Ferrum's brand purple
    let [r, g, b, a] = try_hex("#7c3aed").unwrap();
    assert_eq!(r, 0x7c);
    assert_eq!(g, 0x3a);
    assert_eq!(b, 0xed);
    assert_eq!(a, 255);
}

#[test]
fn hex_try_hex_invalid_char() {
    assert!(try_hex("#zzzzzz").is_err());
}

#[test]
fn hex_try_hex_invalid_length() {
    assert!(try_hex("#12345").is_err()); // 5 chars — invalid
    assert!(try_hex("#1234567").is_err()); // 7 chars — invalid
    assert!(try_hex("#").is_err()); // empty after #
}

#[test]
fn hex_try_hex_valid_returns_ok() {
    assert!(try_hex("#abc").is_ok());
    assert!(try_hex("#abcd").is_ok());
    assert!(try_hex("#aabbcc").is_ok());
    assert!(try_hex("#aabbccdd").is_ok());
}

// ── Errors, exactly ──────────────────────────────────────────────────────

#[test]
fn hex_error_names_first_bad_digit() {
    assert_eq!(try_hex("#12g4z6"), Err(HexError::InvalidDigit('g')));
    assert_eq!(try_hex("#zzzzzz"), Err(HexError::InvalidDigit('z')));
}

#[test]
fn hex_error_reports_length_after_hash() {
    assert_eq!(try_hex("#12345"), Err(HexError::InvalidLength(5)));
    assert_eq!(try_hex("#1234567"), Err(HexError::InvalidLength(7)));
    assert_eq!(try_hex("#"), Err(HexError::InvalidLength(0)));
    assert_eq!(try_hex(""), Err(HexError::InvalidLength(0)));
    assert_eq!(try_hex("   "), Err(HexError::InvalidLength(0)));
}

#[test]
fn hex_length_counts_bytes_not_characters() {
    // 'é' is two bytes: "é12" is four bytes long, read as the rgba form,
    // and its first character is no hex digit.
    assert_eq!(try_hex("é12"), Err(HexError::InvalidDigit('é')));
    // "éé" is four bytes too.
    assert_eq!(try_hex("#éé"), Err(HexError::InvalidDigit('é')));
    // Five bytes: no form has that length.
    assert_eq!(try_hex("é123"), Err(HexError::InvalidLength(5)));
}

#[test]
fn hex_only_one_hash_is_stripped() {
    assert_eq!(try_hex("##abc"), Err(HexError::InvalidDigit('#')));
}

#[test]
fn hex_inner_whitespace_is_not_trimmed() {
    assert_eq!(try_hex("# abc"), Err(HexError::InvalidDigit(' ')));
}

// ── Laws on concrete values ──────────────────────────────────────────────

#[test]
fn hex_law_hash_is_optional() {
    for s in ["f0a", "f0a8", "7c3aed", "7c3aed80", "zz", "12345"] {
        let with_hash = format!("#{s}");
        assert_eq!(try_hex(&with_hash), try_hex(s));
    }
}

#[test]
fn hex_law_shorthand_doubles_each_digit() {
    assert_eq!(try_hex("#f0a"), try_hex("#ff00aa"));
    assert_eq!(try_hex("#f0a8"), try_hex("#ff00aa88"));
    assert_eq!(try_hex("#f0a").unwrap(), [0xff, 0x00, 0xaa, 0xff]);
    assert_eq!(try_hex("#f0z"), try_hex("#ff00zz"));
    assert_eq!(try_hex("#f0z"), Err(HexError::InvalidDigit('z')));
}

#[test]
fn hex_law_case_is_ignored() {
    assert_eq!(try_hex("#AbCdEf"), try_hex("#abcdef"));
    assert_eq!(try_hex("#ABCD"), try_hex("#abcd"));
    assert_eq!(try_hex("#ABCDEz"), try_hex("#abcdez"));
}

#[test]
fn hex_law_missing_alpha_is_opaque() {
    assert_eq!(try_hex("#123").unwrap()[3], 255);
    assert_eq!(try_hex("#123456").unwrap()[3], 255);
}

#[test]
fn hex_law_never_out_of_bounds() {
    for s in ["é", "éé", "aé", "abé", "éabc", "#ééé", "日本", "a日"] {
        assert!(!matches!(try_hex(s), Err(HexError::IndexOutOfBounds(_))));
    }
}

// ── Digit helpers ────────────────────────────────────────────────────────

#[test]
fn hex_nibble_reads_by_character_index() {
    assert_eq!(hex_nibble("a9F", 0), Ok(10));
    assert_eq!(hex_nibble("a9F", 1), Ok(9));
    assert_eq!(hex_nibble("a9F", 2), Ok(15));
    assert_eq!(hex_nibble("éa", 1), Ok(10));
    assert_eq!(hex_nibble("a9F", 3), Err(HexError::IndexOutOfBounds(3)));
    assert_eq!(hex_nibble("xa", 0), Err(HexError::InvalidDigit('x')));
}

#[test]
fn hex_byte_joins_two_digits() {
    assert_eq!(hex_byte("7c3aed", 0), Ok(0x7c));
    assert_eq!(hex_byte("7c3aed", 4), Ok(0xed));
    assert_eq!(hex_byte("7c3aed", 5), Err(HexError::IndexOutOfBounds(6)));
    assert_eq!(hex_byte("7q", 0), Err(HexError::InvalidDigit('q')));
}

#[test]
fn expand_nibble_repeats_the_digit() {
    assert_eq!(expand_nibble(0x0), 0x00);
    assert_eq!(expand_nibble(0xa), 0xaa);
    assert_eq!(expand_nibble(0xf), 0xff);
}

#[test]
fn parse_trimmed_hex_does_not_trim() {
    assert_eq!(parse_trimmed_hex("#abc"), Ok([0xaa, 0xbb, 0xcc, 0xff]));
    assert_eq!(parse_trimmed_hex(" abc"), Err(HexError::InvalidDigit(' ')));
}
