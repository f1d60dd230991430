use sigpatch::engine::{apply, apply_patch, apply_patches, PatchDirective};
use sigpatch::errors::{PatchError, PatchFailure};
use sigpatch::pattern::{find_pattern, parse_hex_bytes, Pattern};

fn directive(sig: &str, with: Vec<u8>, with_offset: Option<isize>) -> PatchDirective {
    PatchDirective { name: None, sig: sig.to_string(), with, with_offset }
}

#[test]
fn wildcard_patch_at_match() {
    // buffer AA BB CC DD, signature "BB ?", replacement [0x11], offset 0:
    // match at 1, write 0x11 there.
    let mut buf = vec![0xAA, 0xBB, 0xCC, 0xDD];
    let r = apply_patch(&mut buf, "BB ?", &[0x11], 0);
    assert_eq!(r, Ok(1));
    assert_eq!(buf, vec![0xAA, 0x11, 0xCC, 0xDD]);
}

#[test]
fn invalid_hex_token_rejected() {
    // "GG" is not hex, so compilation fails.
    assert!(matches!(Pattern::compile("GG"), Err(PatchError::InvalidPattern)));
    let mut buf = vec![0x00, 0x11];
    let r = apply_patch(&mut buf, "GG", &[0x22], 0);
    assert_eq!(r, Err(PatchError::InvalidPattern));
    assert_eq!(buf, vec![0x00, 0x11]);
}

#[test]
fn pattern_longer_than_buffer_not_found() {
    let mut buf = vec![0xAA, 0xBB, 0xCC, 0xDD];
    let r = apply_patch(&mut buf, "AA BB CC DD EE", &[0x00], 0);
    assert_eq!(r, Err(PatchError::PatternNotFound));
    assert_eq!(buf, vec![0xAA, 0xBB, 0xCC, 0xDD]);
    assert_eq!(find_pattern(&buf, "AA BB CC DD EE"), None);
}

#[test]
fn second_directive_matches_only_after_first() {
    // The second signature "AB 03" occurs only once the first directive
    // has written 0xAB; the search must see the evolving buffer.
    let mut buf = vec![0x01, 0x02, 0x03];
    assert_eq!(find_pattern(&buf, "AB 03"), None);
    let patches = vec![
        directive("02", vec![0xAB], None),
        directive("AB 03", vec![0x7F], Some(1)),
    ];
    let r = apply_patches(&mut buf, &patches);
    assert_eq!(r, Ok(()));
    assert_eq!(buf, vec![0x01, 0xAB, 0x7F]);
}

#[test]
fn negative_offset_before_buffer_start() {
    // Match at offset 2, then offset -10: the patch position would be
    // negative, reported as overflow rather than wrapping.
    let mut buf = vec![0x00, 0x00, 0x55];
    let r = apply_patch(&mut buf, "55", &[0x01], -10);
    assert_eq!(r, Err(PatchError::OffsetOverflow));
    assert_eq!(buf, vec![0x00, 0x00, 0x55]);
}

#[test]
fn replacement_may_end_exactly_at_buffer_end() {
    // patch_start + replacement.len() == buffer.len() succeeds ...
    let mut buf = vec![0x01, 0x02, 0x03, 0x04];
    let r = apply_patch(&mut buf, "02", &[0x09, 0x09, 0x09], 0);
    assert_eq!(r, Ok(1));
    assert_eq!(buf, vec![0x01, 0x09, 0x09, 0x09]);
}

#[test]
fn replacement_past_buffer_end_is_out_of_bounds() {
    // ... and one byte further fails, leaving the buffer untouched.
    let mut buf = vec![0x01, 0x02, 0x03, 0x04];
    let r = apply_patch(&mut buf, "02", &[0x09, 0x09, 0x09], 1);
    assert_eq!(r, Err(PatchError::OutOfBounds));
    assert_eq!(buf, vec![0x01, 0x02, 0x03, 0x04]);
}

#[test]
fn huge_positive_offset_is_out_of_bounds() {
    let mut buf = vec![0x10, 0x20];
    let r = apply_patch(&mut buf, "10", &[0x01], isize::MAX);
    assert_eq!(r, Err(PatchError::OutOfBounds));
    assert_eq!(buf, vec![0x10, 0x20]);
}

#[test]
fn leftmost_match_wins() {
    // Several occurrences: the scan returns the smallest offset, and a
    // wildcard position accepts arbitrary bytes.
    let data = vec![0xCC, 0xAA, 0xBB, 0xAA, 0xBB];
    assert_eq!(find_pattern(&data, "AA BB"), Some(1));
    assert_eq!(find_pattern(&data, "AA ?"), Some(1));
    assert_eq!(find_pattern(&data, "? BB"), Some(1));
}

#[test]
fn exact_pattern_is_substring_search() {
    // A signature with zero wildcards finds exactly what a plain
    // byte-substring search finds.
    let data = vec![0x00, 0xBB, 0xCC, 0xBB, 0xCC, 0xDD];
    let needle = [0xBB, 0xCC, 0xDD];
    let expected = data.windows(needle.len()).position(|w| w == &needle[..]);
    assert_eq!(find_pattern(&data, "BB CC DD"), expected);
    assert_eq!(expected, Some(3));
    let absent = data.windows(2).position(|w| w == &[0xDD, 0x00][..]);
    assert_eq!(find_pattern(&data, "DD 00"), absent);
    assert_eq!(absent, None);
}

#[test]
fn reapplication_is_noop_when_match_survives() {
    // The replacement lands after the matched region, so the match is
    // still there: a second application rewrites the same bytes.
    let mut buf = vec![0x10, 0x20, 0x30];
    assert_eq!(apply_patch(&mut buf, "10", &[0x99], 1), Ok(0));
    assert_eq!(buf, vec![0x10, 0x99, 0x30]);
    let snapshot = buf.clone();
    assert_eq!(apply_patch(&mut buf, "10", &[0x99], 1), Ok(0));
    assert_eq!(buf, snapshot);
}

#[test]
fn reapplication_fails_when_match_destroyed() {
    let mut buf = vec![0x10, 0x20];
    assert_eq!(apply_patch(&mut buf, "10", &[0x55], 0), Ok(0));
    assert_eq!(buf, vec![0x55, 0x20]);
    assert_eq!(apply_patch(&mut buf, "10", &[0x55], 0), Err(PatchError::PatternNotFound));
    assert_eq!(buf, vec![0x55, 0x20]);
}

#[test]
fn reapplication_finds_a_later_match() {
    let mut buf = vec![0x10, 0x10];
    assert_eq!(apply_patch(&mut buf, "10", &[0x55], 0), Ok(0));
    assert_eq!(buf, vec![0x55, 0x10]);
    assert_eq!(apply_patch(&mut buf, "10", &[0x55], 0), Ok(1));
    assert_eq!(buf, vec![0x55, 0x55]);
}

#[test]
fn empty_and_blank_signatures_are_invalid() {
    assert!(matches!(Pattern::compile(""), Err(PatchError::InvalidPattern)));
    assert!(matches!(Pattern::compile("   "), Err(PatchError::InvalidPattern)));
    assert_eq!(find_pattern(&[0x00], ""), None);
}

#[test]
fn tokens_take_one_or_two_hex_digits() {
    let data = vec![0x0F, 0xFF];
    assert_eq!(find_pattern(&data, "F"), Some(0));
    assert_eq!(find_pattern(&data, "0F FF"), Some(0));
    assert!(matches!(Pattern::compile("123"), Err(PatchError::InvalidPattern)));
    assert!(matches!(Pattern::compile("AA ??"), Err(PatchError::InvalidPattern)));
}

#[test]
fn hex_is_case_insensitive() {
    let data = vec![0xAB, 0xCD];
    assert_eq!(find_pattern(&data, "ab cd"), Some(0));
    assert_eq!(find_pattern(&data, "Ab cD"), Some(0));
    let p = Pattern::compile("fF").unwrap();
    assert_eq!(p.token_count(), 1);
    assert_eq!(p.find(&[0x00, 0xFF]), Some(1));
}

#[test]
fn wildcard_only_signature_matches_anywhere() {
    let p = Pattern::compile("?").unwrap();
    assert_eq!(p.find(&[0x00]), Some(0));
    assert_eq!(p.find(&[]), None);
}

#[test]
fn scan_on_binary_content() {
    // Null bytes and high-bit bytes are ordinary bytes.
    let data = vec![0x00, 0x00, 0xFE, 0x00, 0x80];
    assert_eq!(find_pattern(&data, "00 FE ? 80"), Some(1));
}

#[test]
fn apply_with_precompiled_pattern() {
    let p = Pattern::compile("BB CC").unwrap();
    let mut buf = vec![0xAA, 0xBB, 0xCC];
    assert_eq!(apply(&mut buf, &p, &[0x01, 0x02], 0), Ok(1));
    assert_eq!(buf, vec![0xAA, 0x01, 0x02]);
    assert_eq!(apply(&mut buf, &p, &[0x01], 0), Err(PatchError::PatternNotFound));
}

#[test]
fn empty_replacement_writes_nothing() {
    let p = Pattern::compile("AA").unwrap();
    let mut buf = vec![0xAA, 0xBB];
    assert_eq!(apply(&mut buf, &p, &[], 0), Ok(0));
    assert_eq!(buf, vec![0xAA, 0xBB]);
}

#[test]
fn parse_hex_bytes_reads_byte_lists() {
    assert_eq!(parse_hex_bytes("AA BB"), Ok(vec![0xAA, 0xBB]));
    assert_eq!(parse_hex_bytes("a 0b  C"), Ok(vec![0x0A, 0x0B, 0x0C]));
    assert_eq!(parse_hex_bytes(""), Ok(vec![]));
    assert_eq!(parse_hex_bytes("G"), Err(PatchError::InvalidPattern));
    assert_eq!(parse_hex_bytes("AA ?"), Err(PatchError::InvalidPattern));
}

#[test]
fn failed_directive_reports_index_and_keeps_earlier_patches() {
    let mut buf = vec![0x01, 0x02];
    let patches = vec![
        directive("01", vec![0xEE], None),
        directive("03", vec![0xFF], None),
    ];
    let r = apply_patches(&mut buf, &patches);
    assert_eq!(r, Err(PatchFailure { index: 1, error: PatchError::PatternNotFound }));
    // The first directive is applied in memory; persisting is the
    // caller's business and must not happen after a failure.
    assert_eq!(buf, vec![0xEE, 0x02]);
}

#[test]
fn no_directives_change_nothing() {
    let mut buf = vec![0x42];
    assert_eq!(apply_patches(&mut buf, &Vec::new()), Ok(()));
    assert_eq!(buf, vec![0x42]);
}

#[test]
fn directive_offset_defaults_to_zero() {
    let mut with_none = vec![0xAA, 0xBB];
    let mut with_zero = with_none.clone();
    let r1 = apply_patches(&mut with_none, &vec![directive("BB", vec![0x11], None)]);
    let r2 = apply_patches(&mut with_zero, &vec![directive("BB", vec![0x11], Some(0))]);
    assert_eq!(r1, Ok(()));
    assert_eq!(r2, Ok(()));
    assert_eq!(with_none, with_zero);
    assert_eq!(with_none, vec![0xAA, 0x11]);
}
