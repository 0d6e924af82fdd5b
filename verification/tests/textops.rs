//! Byte-level text utilities: positions, trimming, lowercasing.
use parsec::text::{
    bytes_eq, line_col_of_match, lowercase_bytes, starts_with_bytes, trim_bytes, LineIndex,
};

#[test]
fn line_index_maps_offsets_to_positions() {
    let text = b"ab\ncde\n\nf".to_vec();
    let li = LineIndex::new(&text);
    assert_eq!(li.starts, vec![0, 3, 7, 8]);
    let cases = [
        (0usize, (0u32, 0u32)),
        (1, (0, 1)),
        (2, (0, 2)),  // the newline itself belongs to its line
        (3, (1, 0)),
        (6, (1, 3)),
        (7, (2, 0)),
        (8, (3, 0)),
        (9, (3, 1)),  // one past the end still resolves
    ];
    for (off, (line, character)) in cases {
        let p = li.to_pos(off);
        assert_eq!((p.line, p.character), (line, character), "offset {off}");
    }
}

#[test]
fn line_col_counts_newlines_before_the_offset() {
    let text = b"ab\ncde\nf".to_vec();
    assert_eq!(line_col_of_match(&text, 0), (0, 0));
    assert_eq!(line_col_of_match(&text, 4), (1, 1));
    assert_eq!(line_col_of_match(&text, 7), (2, 0));
}

#[test]
fn trim_strips_ascii_whitespace_on_both_ends() {
    assert_eq!(trim_bytes(&b"  a b \t\n".to_vec()), b"a b".to_vec());
    assert_eq!(trim_bytes(&b"\r\n\t ".to_vec()), Vec::<u8>::new());
    assert_eq!(trim_bytes(&b"x".to_vec()), b"x".to_vec());
}

#[test]
fn lowercase_touches_ascii_letters_only() {
    assert_eq!(lowercase_bytes(&b"AbC_1-Z".to_vec()), b"abc_1-z".to_vec());
}

#[test]
fn byte_string_helpers() {
    assert!(bytes_eq(&b"same".to_vec(), &b"same".to_vec()));
    assert!(!bytes_eq(&b"same".to_vec(), &b"Same".to_vec()));
    assert!(starts_with_bytes(&b"prefix/rest".to_vec(), &b"prefix".to_vec()));
    assert!(!starts_with_bytes(&b"pre".to_vec(), &b"prefix".to_vec()));
}
