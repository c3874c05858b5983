use embedded_sdmmc::fat::lfn::{LfnEntry, LfnVisitor};
use embedded_sdmmc::filesystem::ShortFileName;

/// An entry holding `text`, terminated by NUL and padded as FAT pads it.
fn entry(is_start: bool, sequence: u8, checksum: u8, text: &str) -> LfnEntry {
    let mut buffer = ['\u{FFFF}'; 13];
    let mut n = 0;
    for c in text.chars() {
        buffer[n] = c;
        n += 1;
    }
    if n < 13 {
        buffer[n] = '\0';
    }
    LfnEntry {
        is_start,
        sequence,
        checksum,
        buffer,
    }
}

fn short(name: &[u8; 11]) -> ShortFileName {
    ShortFileName { contents: *name }
}

#[test]
fn lfn_checksum_of_short_names() {
    assert_eq!(short(b"ABCDEF~1TXT").lfn_checksum(), 39);
    assert_eq!(short(b"PRIVET~1TXT").lfn_checksum(), 73);
    assert_eq!(short(b"README  TXT").lfn_checksum(), 115);
    assert_eq!(short(b"EMOJI~1 TXT").lfn_checksum(), 247);
}

#[test]
fn two_entry_name_is_read_in_order() {
    let mut v = LfnVisitor::default();
    v.visit(&entry(true, 2, 39, "nopqrstu.txt"));
    v.visit(&entry(false, 1, 39, "abcdefghijklm"));
    assert_eq!(
        v.take(&short(b"ABCDEF~1TXT")),
        Some("abcdefghijklmnopqrstu.txt")
    );
}

#[test]
fn single_entry_name() {
    let mut v = LfnVisitor::default();
    v.visit(&entry(true, 1, 115, "readme.txt"));
    assert_eq!(v.take(&short(b"README  TXT")), Some("readme.txt"));
}

#[test]
fn name_filling_whole_entries_has_no_nul() {
    let mut v = LfnVisitor::default();
    v.visit(&entry(true, 2, 39, "NOPQRSTUVWXYZ"));
    v.visit(&entry(false, 1, 39, "ABCDEFGHIJKLM"));
    assert_eq!(
        v.take(&short(b"ABCDEF~1TXT")),
        Some("ABCDEFGHIJKLMNOPQRSTUVWXYZ")
    );
}

#[test]
fn multibyte_characters_survive() {
    let mut v = LfnVisitor::default();
    v.visit(&entry(true, 2, 73, "р.txt"));
    v.visit(&entry(false, 1, 73, "Привет, мир и"));
    assert_eq!(v.take(&short(b"PRIVET~1TXT")), Some("Привет, мир ир.txt"));
}

#[test]
fn four_byte_characters_survive() {
    let mut v = LfnVisitor::default();
    v.visit(&entry(true, 1, 247, "a😀b.txt"));
    assert_eq!(v.take(&short(b"EMOJI~1 TXT")), Some("a😀b.txt"));
}

#[test]
fn wrong_checksum_yields_nothing() {
    let mut v = LfnVisitor::default();
    v.visit(&entry(true, 1, 39, "readme.txt"));
    assert_eq!(v.take(&short(b"README  TXT")), None);
}

#[test]
fn entry_with_other_checksum_drops_the_run() {
    let mut v = LfnVisitor::default();
    v.visit(&entry(true, 2, 39, "nopqrstu.txt"));
    v.visit(&entry(false, 1, 40, "abcdefghijklm"));
    assert_eq!(v.take(&short(b"ABCDEF~1TXT")), None);
}

#[test]
fn skipped_sequence_number_drops_the_run() {
    let mut v = LfnVisitor::default();
    v.visit(&entry(true, 3, 39, "xyz"));
    v.visit(&entry(false, 1, 39, "abcdefghijklm"));
    assert_eq!(v.take(&short(b"ABCDEF~1TXT")), None);
}

#[test]
fn incomplete_run_yields_nothing() {
    let mut v = LfnVisitor::default();
    v.visit(&entry(true, 2, 39, "nopqrstu.txt"));
    assert_eq!(v.take(&short(b"ABCDEF~1TXT")), None);
}

#[test]
fn start_entry_beyond_twenty_is_ignored() {
    let mut v = LfnVisitor::default();
    v.visit(&entry(true, 21, 39, "abc"));
    v.visit(&entry(false, 20, 39, "abc"));
    assert_eq!(v.take(&short(b"ABCDEF~1TXT")), None);
}

#[test]
fn new_start_entry_replaces_the_run() {
    let mut v = LfnVisitor::default();
    v.visit(&entry(true, 2, 39, "stale"));
    v.visit(&entry(true, 1, 115, "readme.txt"));
    assert_eq!(v.take(&short(b"README  TXT")), Some("readme.txt"));
}

#[test]
fn continuation_without_start_is_ignored() {
    let mut v = LfnVisitor::default();
    v.visit(&entry(false, 1, 115, "readme.txt"));
    assert_eq!(v.take(&short(b"README  TXT")), None);
}

#[test]
fn take_ends_the_run() {
    let mut v = LfnVisitor::default();
    v.visit(&entry(true, 1, 115, "readme.txt"));
    assert_eq!(v.take(&short(b"README  TXT")), Some("readme.txt"));
    assert_eq!(v.take(&short(b"README  TXT")), None);
}

#[test]
fn longest_run_of_twenty_entries() {
    let mut v = LfnVisitor::default();
    let mut expected = String::new();
    for seq in (1..=20u8).rev() {
        let text: String = std::iter::repeat((b'a' + seq) as char).take(13).collect();
        v.visit(&entry(seq == 20, seq, 39, &text));
    }
    for seq in 1..=20u8 {
        let text: String = std::iter::repeat((b'a' + seq) as char).take(13).collect();
        expected.push_str(&text);
    }
    assert_eq!(v.take(&short(b"ABCDEF~1TXT")), Some(expected.as_str()));
}

#[test]
fn longest_run_of_three_byte_characters_fits() {
    // twenty entries of thirteen three-byte characters, followed by an
    // entry numbered zero: 21 * 13 * 3 = 819 bytes, within the buffer
    let mut v = LfnVisitor::default();
    v.visit(&entry(true, 20, 39, "€€€€€€€€€€€€€"));
    for sequence in (0..20u8).rev() {
        v.visit(&entry(false, sequence, 39, "€€€€€€€€€€€€€"));
    }
    // the run went one entry past number one, so it yields nothing
    assert_eq!(v.take(&short(b"ABCDEF~1TXT")), None);

    let mut v = LfnVisitor::default();
    v.visit(&entry(true, 20, 39, "€€€€€€€€€€€€€"));
    for sequence in (1..20u8).rev() {
        v.visit(&entry(false, sequence, 39, "€€€€€€€€€€€€€"));
    }
    let name = v.take(&short(b"ABCDEF~1TXT")).map(|s| s.chars().count());
    assert_eq!(name, Some(20 * 13));
}
