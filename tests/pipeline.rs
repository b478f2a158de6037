use dirhash::check::check_one_line;
use dirhash::codec::parse_check_line;
use dirhash::input::{
    copy_step, maybe_memmap_len, select_source, CopyAction, InputError, InputSource, ReadOutcome,
    BUFFER_LEN,
};
use dirhash::pipeline::{
    absorb, absorb_mapped, base_hasher, digests_equal, finish, key_from_bytes, output_bytes,
    start_input, write_hex_output, HashMode, KeyError,
};

const EMPTY_DIGEST: &str = "af1349b9f5f9a1a6a0404dea36dcc9499bcb25c9adc112b7cc9a93cae41f3262";

fn hex_of_input(mode: &HashMode, data: &[u8], mapped: bool, len: u64) -> String {
    let base = base_hasher(mode);
    let mut h = start_input(&base);
    if mapped {
        absorb_mapped(&mut h, data);
    } else {
        for chunk in data.chunks(BUFFER_LEN) {
            absorb(&mut h, chunk);
        }
    }
    let mut reader = finish(&h);
    write_hex_output(&mut reader, len)
}

#[test]
fn digest_of_empty_input() {
    assert_eq!(hex_of_input(&HashMode::Plain, b"", false, 32), EMPTY_DIGEST);
}

#[test]
fn mapped_and_buffered_agree_on_20_kib() {
    let data: Vec<u8> = (0..20 * 1024).map(|i| (i % 251) as u8).collect();
    let mapped = hex_of_input(&HashMode::Plain, &data, true, 32);
    let base = base_hasher(&HashMode::Plain);
    let mut h = start_input(&base);
    for chunk in data.chunks(4096) {
        absorb(&mut h, chunk);
    }
    let buffered = write_hex_output(&mut finish(&h), 32);
    assert_eq!(mapped, buffered);
    assert_eq!(mapped.len(), 64);
}

#[test]
fn output_length_is_configurable() {
    let long = hex_of_input(&HashMode::Plain, b"", false, 100);
    assert_eq!(long.len(), 200);
    assert!(long.starts_with(EMPTY_DIGEST));
    assert_eq!(hex_of_input(&HashMode::Plain, b"", false, 0), "");
    assert_eq!(hex_of_input(&HashMode::Plain, b"", false, 3), &EMPTY_DIGEST[..6]);
}

#[test]
fn modes_give_different_digests() {
    let plain = hex_of_input(&HashMode::Plain, b"abc", false, 32);
    let keyed = hex_of_input(&HashMode::Keyed(vec![7u8; 32]), b"abc", false, 32);
    let derived = hex_of_input(&HashMode::DeriveKey("ctx".to_string()), b"abc", false, 32);
    assert_ne!(plain, keyed);
    assert_ne!(plain, derived);
    assert_ne!(keyed, derived);
}

#[test]
fn digest_comparison() {
    let a = vec![1u8; 32];
    let mut first = a.clone();
    first[0] = 2;
    let mut last = a.clone();
    last[31] = 2;
    assert!(digests_equal(&a, &a.clone()));
    assert!(!digests_equal(&a, &first));
    assert!(!digests_equal(&a, &last));
}

#[test]
fn key_length_is_exact() {
    assert_eq!(key_from_bytes(&vec![0u8; 31]), Err(KeyError::TooShort(31)));
    assert_eq!(key_from_bytes(&vec![0u8; 33]), Err(KeyError::TooLong(33)));
    assert_eq!(key_from_bytes(&vec![9u8; 32]), Ok(vec![9u8; 32]));
    assert_eq!(key_from_bytes(&Vec::new()), Err(KeyError::TooShort(0)));
}

#[test]
fn source_selection() {
    assert_eq!(select_source("-", false), Ok(InputSource::Stdin));
    assert_eq!(select_source("-", true), Err(InputError::StdinInKeyedMode));
    assert_eq!(select_source("--", true), Ok(InputSource::File));
    assert_eq!(select_source("file", true), Ok(InputSource::File));
}

#[test]
fn mapping_decision() {
    assert_eq!(maybe_memmap_len(true, true, 20 * 1024), Some(20 * 1024));
    assert_eq!(maybe_memmap_len(true, true, 16 * 1024), Some(16 * 1024));
    assert_eq!(maybe_memmap_len(true, true, 16 * 1024 - 1), None);
    assert_eq!(maybe_memmap_len(true, true, 0), None);
    assert_eq!(maybe_memmap_len(false, true, 20 * 1024), None);
    assert_eq!(maybe_memmap_len(true, false, 20 * 1024), None);
    assert_eq!(maybe_memmap_len(true, true, u64::MAX), None);
}

#[test]
fn read_loop_decisions() {
    assert_eq!(copy_step(10, ReadOutcome::Data(5)), CopyAction::Feed { n: 5, total: 15 });
    assert_eq!(copy_step(10, ReadOutcome::Data(0)), CopyAction::Finish { total: 10 });
    assert_eq!(copy_step(10, ReadOutcome::EndOfInput), CopyAction::Finish { total: 10 });
    assert_eq!(copy_step(10, ReadOutcome::Interrupted), CopyAction::Retry);
    assert_eq!(copy_step(10, ReadOutcome::Failed), CopyAction::Fail);
}

#[test]
fn check_reports() {
    let base = base_hasher(&HashMode::Plain);
    let h = start_input(&base);
    let found = output_bytes(&mut finish(&h), 32);
    let line = format!("{}  some file\n", EMPTY_DIGEST);
    let parsed = parse_check_line(&line, false).unwrap();
    let ok = check_one_line(&parsed, &Ok(found.clone()), false);
    assert!(ok.ok);
    assert_eq!(ok.line.as_deref(), Some("some file: OK"));
    let quiet = check_one_line(&parsed, &Ok(found), true);
    assert!(quiet.ok && quiet.line.is_none());
    let bad = check_one_line(&parsed, &Ok(vec![0u8; 32]), false);
    assert!(!bad.ok);
    assert_eq!(bad.line.as_deref(), Some("some file: FAILED"));
    let err = check_one_line(&parsed, &Err("not found".to_string()), false);
    assert!(!err.ok);
    assert_eq!(err.line.as_deref(), Some("some file: FAILED (not found)"));
    let escaped = format!("\\{}  a\\nb\n", EMPTY_DIGEST);
    let parsed = parse_check_line(&escaped, false).unwrap();
    let bad = check_one_line(&parsed, &Ok(vec![0u8; 32]), false);
    assert_eq!(bad.line.as_deref(), Some("\\a\\nb: FAILED"));
}
