use dirhash::codec::{
    check_for_invalid_characters, encode_check_line, escape, filepath_to_string, hash_line, parse_check_line,
    unescape, CheckLineError,
};
use dirhash::hexdigits::hex_half_byte;

fn digest() -> Vec<u8> {
    (0u8..32).map(|i| i.wrapping_mul(37).wrapping_add(5)).collect()
}

fn hex_line(prefix: &str, hex: &str, sep: &str, path: &str) -> String {
    format!("{}{}{}{}\n", prefix, hex, sep, path)
}

const DEADBEEF: &str = "deadbeefdeadbeefdeadbeefdeadbeefdeadbeefdeadbeefdeadbeefdeadbeef";

#[test]
fn plain_path_round_trips() {
    let d = digest();
    let line = encode_check_line(&d, "dir/file.txt", false);
    assert!(!line.starts_with('\\'));
    assert!(line.ends_with("  dir/file.txt\n"));
    let p = parse_check_line(&line, false).unwrap();
    assert_eq!(p.expected_hash, d);
    assert_eq!(p.file_path, "dir/file.txt");
    assert_eq!(p.file_string, "dir/file.txt");
    assert!(!p.is_escaped);
}

#[test]
fn escaped_path_round_trips() {
    let d = digest();
    let path = "odd\\name\nwith newline";
    let line = encode_check_line(&d, path, false);
    assert!(line.starts_with('\\'));
    assert!(line.ends_with("  odd\\\\name\\nwith newline\n"));
    let p = parse_check_line(&line, false).unwrap();
    assert_eq!(p.expected_hash, d);
    assert_eq!(p.file_path, path);
    assert!(p.is_escaped);
}

#[test]
fn newline_only_path_escapes_on_backslash_platforms() {
    let d = digest();
    let line = encode_check_line(&d, "a\nb", true);
    assert!(line.starts_with('\\'));
    let p = parse_check_line(&line, true).unwrap();
    assert_eq!(p.file_path, "a\nb");
}

#[test]
fn encoding_normalizes_backslash_separators() {
    let d = digest();
    let line = encode_check_line(&d, "dir\\file", true);
    assert!(!line.starts_with('\\'));
    assert!(line.ends_with("  dir/file\n"));
    assert_eq!(filepath_to_string("dir\\file", true), ("dir/file".to_string(), false));
    assert_eq!(filepath_to_string("dir\\file", false), ("dir\\file".to_string(), true));
    assert_eq!(filepath_to_string("a\nb", false), ("a\nb".to_string(), true));
    assert_eq!(filepath_to_string("plain", false), ("plain".to_string(), false));
}

#[test]
fn encoded_digest_is_lowercase_hex() {
    let d = vec![0xabu8; 32];
    let line = encode_check_line(&d, "x", false);
    assert_eq!(line, format!("{}  x\n", "ab".repeat(32)));
}

#[test]
fn escaped_backslash_scenario() {
    let line = format!("\\{}  a\\\\b.txt", DEADBEEF);
    let p = parse_check_line(&line, false).unwrap();
    assert_eq!(p.file_path, "a\\b.txt");
    assert_eq!(p.file_string, "a\\\\b.txt");
    assert!(p.is_escaped);
    assert_eq!(p.expected_hash, [0xde, 0xad, 0xbe, 0xef].repeat(8));
}

#[test]
fn uppercase_hex_is_refused() {
    let line = hex_line("", &DEADBEEF.to_uppercase(), "  ", "f");
    assert_eq!(parse_check_line(&line, false).err(), Some(CheckLineError::InvalidHex));
}

#[test]
fn non_hex_digit_is_refused() {
    let hex = format!("{}g", &DEADBEEF[..63]);
    let line = hex_line("", &hex, "  ", "f");
    assert_eq!(parse_check_line(&line, false).err(), Some(CheckLineError::InvalidHex));
}

#[test]
fn wrong_digest_length_is_refused() {
    let short = hex_line("", &DEADBEEF[..62], "  ", "file");
    assert_eq!(parse_check_line(&short, false).err(), Some(CheckLineError::InvalidSpace));
    let long = hex_line("", &format!("{}aa", DEADBEEF), "  ", "file");
    assert_eq!(parse_check_line(&long, false).err(), Some(CheckLineError::InvalidSpace));
}

#[test]
fn single_space_is_refused() {
    let line = hex_line("", DEADBEEF, " ", "file");
    assert_eq!(parse_check_line(&line, false).err(), Some(CheckLineError::InvalidSpace));
}

#[test]
fn dangling_escape_is_refused() {
    let line = hex_line("\\", DEADBEEF, "  ", "abc\\");
    assert_eq!(parse_check_line(&line, false).err(), Some(CheckLineError::InvalidEscape));
    let unknown = hex_line("\\", DEADBEEF, "  ", "a\\tb");
    assert_eq!(parse_check_line(&unknown, false).err(), Some(CheckLineError::InvalidEscape));
}

#[test]
fn empty_and_short_lines_are_refused() {
    assert_eq!(parse_check_line("", false).err(), Some(CheckLineError::EmptyLine));
    assert_eq!(parse_check_line("\n\n", false).err(), Some(CheckLineError::EmptyLine));
    let no_path = hex_line("", DEADBEEF, "  ", "");
    assert_eq!(parse_check_line(&no_path, false).err(), Some(CheckLineError::ShortLine));
}

#[test]
fn non_ascii_prefix_is_refused() {
    let hex = format!("{}é", &DEADBEEF[..63]);
    let line = hex_line("", &hex, "  ", "file");
    assert_eq!(parse_check_line(&line, false).err(), Some(CheckLineError::NonAsciiPrefix));
}

#[test]
fn null_and_replacement_characters_are_refused() {
    let nul = hex_line("", DEADBEEF, "  ", "a\0b");
    assert_eq!(parse_check_line(&nul, false).err(), Some(CheckLineError::NullCharacter));
    let nul_escaped = hex_line("\\", DEADBEEF, "  ", "a\\\\\0b");
    assert_eq!(parse_check_line(&nul_escaped, false).err(), Some(CheckLineError::NullCharacter));
    let repl = hex_line("", DEADBEEF, "  ", "a\u{FFFD}b");
    assert_eq!(parse_check_line(&repl, false).err(), Some(CheckLineError::ReplacementCharacter));
    let repl_escaped = hex_line("\\", DEADBEEF, "  ", "a\\n\u{FFFD}");
    assert_eq!(
        parse_check_line(&repl_escaped, false).err(),
        Some(CheckLineError::ReplacementCharacter)
    );
}

#[test]
fn backslash_refused_where_it_separates() {
    let line = format!("\\{}  a\\\\b.txt", DEADBEEF);
    assert_eq!(parse_check_line(&line, true).err(), Some(CheckLineError::Backslash));
    assert_eq!(check_for_invalid_characters("a\\b", true), Err(CheckLineError::Backslash));
    assert_eq!(check_for_invalid_characters("a\\b", false), Ok(()));
    assert_eq!(check_for_invalid_characters("a\0\u{FFFD}", false), Err(CheckLineError::NullCharacter));
    assert_eq!(check_for_invalid_characters("ok/path", true), Ok(()));
}

#[test]
fn unescape_cases() {
    assert_eq!(unescape("a\\nb\\\\c").unwrap(), "a\nb\\c");
    assert_eq!(unescape("plain").unwrap(), "plain");
    assert_eq!(unescape("").unwrap(), "");
    assert_eq!(unescape("end\\"), Err(CheckLineError::InvalidEscape));
    assert_eq!(unescape("\\x"), Err(CheckLineError::InvalidEscape));
}

#[test]
fn escape_cases() {
    assert_eq!(escape("a\nb\\c"), "a\\nb\\\\c");
    assert_eq!(escape("plain"), "plain");
    assert_eq!(unescape(&escape("x\\\n\\y")).unwrap(), "x\\\n\\y");
}

#[test]
fn hex_half_byte_cases() {
    assert_eq!(hex_half_byte('0'), Some(0));
    assert_eq!(hex_half_byte('9'), Some(9));
    assert_eq!(hex_half_byte('a'), Some(10));
    assert_eq!(hex_half_byte('f'), Some(15));
    assert_eq!(hex_half_byte('A'), None);
    assert_eq!(hex_half_byte('g'), None);
    assert_eq!(hex_half_byte(' '), None);
}

#[test]
fn trailing_newlines_are_stripped() {
    let line = format!("{}  name\n\n", DEADBEEF);
    let p = parse_check_line(&line, false).unwrap();
    assert_eq!(p.file_path, "name");
}

#[test]
fn error_messages() {
    assert_eq!(CheckLineError::InvalidHex.message(), "Invalid hex");
    assert_eq!(CheckLineError::NullCharacter.message(), "Null character in path");
}

#[test]
fn hash_output_lines() {
    assert_eq!(hash_line("abcd", "f.txt", false), "abcd  f.txt\n");
    assert_eq!(hash_line("abcd", "a\\b", false), "\\abcd  a\\\\b\n");
    assert_eq!(hash_line("abcd", "a\\b", true), "abcd  a/b\n");
}

#[test]
fn canonical_lines_encode_back() {
    let plain = format!("{}  dir/x.txt\n", DEADBEEF);
    let p = parse_check_line(&plain, false).unwrap();
    assert_eq!(encode_check_line(&p.expected_hash, &p.file_path, false), plain);
    let escaped = format!("\\{}  a\\\\b\\nc\n", DEADBEEF);
    let p = parse_check_line(&escaped, false).unwrap();
    assert_eq!(encode_check_line(&p.expected_hash, &p.file_path, false), escaped);
}
