use contextmink::encoding::{
    decode_file_lines, decode_text, detect_encoding, DecodeFault, TextEncoding,
};
use contextmink::encoding_suspects::{
    scan_encoding_suspects, scan_encoding_suspects_from_line, EncodingSuspects,
};

fn utf16(text: &str, big: bool) -> Vec<u8> {
    let mut bytes = if big { vec![0xFE, 0xFF] } else { vec![0xFF, 0xFE] };
    for unit in text.encode_utf16() {
        bytes.extend(if big { unit.to_be_bytes() } else { unit.to_le_bytes() });
    }
    bytes
}

#[test]
fn the_mark_decides_the_encoding() {
    assert_eq!(detect_encoding(b"plain"), Ok((TextEncoding::Utf8, 0)));
    assert_eq!(detect_encoding(b"\xEF\xBB\xBFplain"), Ok((TextEncoding::Utf8, 3)));
    assert_eq!(detect_encoding(b"\xFF\xFEa\0"), Ok((TextEncoding::Utf16Le, 2)));
    assert_eq!(detect_encoding(b"\xFE\xFF\0a"), Ok((TextEncoding::Utf16Be, 2)));
    assert_eq!(detect_encoding(b"\xFF\xFE\0\0"), Err(DecodeFault::Utf32));
    assert_eq!(detect_encoding(b"\0\0\xFE\xFF"), Err(DecodeFault::Utf32));
    assert_eq!(detect_encoding(b"a\0b"), Err(DecodeFault::Binary));
    assert!(DecodeFault::Utf32.message("a.txt").contains("UTF-32"));
    assert_eq!(
        DecodeFault::Binary.message("a.bin"),
        "a.bin contains NUL bytes and does not decode as text"
    );
}

#[test]
fn marked_text_is_decoded_without_its_mark() {
    let text = "h\u{e9}\u{3bb} \u{1F600} end";
    for big in [false, true] {
        let (decoded, encoding) = decode_text(&utf16(text, big)).unwrap();
        assert_eq!(decoded, text);
        assert_eq!(encoding.name(), if big { "utf16be" } else { "utf16le" });
    }
    let mut marked = vec![0xEF, 0xBB, 0xBF];
    marked.extend_from_slice(text.as_bytes());
    assert_eq!(decode_text(&marked).unwrap().0, text);
    assert_eq!(decode_text(b"bad \xff").unwrap().0, "bad \u{fffd}");
}

#[test]
fn halves_of_pairs_are_replaced() {
    let (decoded, _) = decode_text(b"\xFF\xFE\x00\xD8a\0b").unwrap();
    assert_eq!(decoded, "\u{fffd}a\u{fffd}");
}

#[test]
fn every_line_ending_counts() {
    let (lines, _) = decode_file_lines(b"one\r\ntwo\rthree\nfour").unwrap();
    assert_eq!(lines, vec!["one", "two", "three", "four"]);
    assert_eq!(decode_file_lines(b"a\0"), Err(DecodeFault::Binary));
}

#[test]
fn utf8_that_was_read_as_code_page_1252_is_found() {
    // An em dash, and an e with an accent.
    let found = scan_encoding_suspects_from_line("a \u{e2}\u{20ac}\u{201d} b \u{c3}\u{a9}", false, 7);
    assert_eq!(found.double_encoded, 2);
    assert_eq!((found.replacement_characters, found.c1_controls), (0, 0));
    assert_eq!(found.sample.as_ref().unwrap().line, 7);
    // Text in that page is nothing of the kind.
    assert!(scan_encoding_suspects("caf\u{e9} \u{201c}na\u{ef}ve\u{201d}", false).is_empty());
    assert!(scan_encoding_suspects("plain\n", false).is_empty());
}

#[test]
fn replaced_bytes_and_controls_are_found_unless_left_aside() {
    let text = "ok\nbad \u{fffd}\u{85}\nlast \u{fffd}\n";
    let found = scan_encoding_suspects(text, false);
    assert_eq!((found.replacement_characters, found.c1_controls), (2, 1));
    assert_eq!(found.sample.as_ref().unwrap().line, 2);
    assert!(scan_encoding_suspects(text, true).is_empty());
    let value = found.receipt_value().to_compact();
    assert!(value.contains("\"replacement_characters\":2"), "{value}");
    assert!(found.human_note().contains("c1_controls=1"));
    let none = EncodingSuspects {
        double_encoded: 0,
        replacement_characters: 0,
        c1_controls: 0,
        sample: None,
    };
    let both = none.merge(found);
    assert_eq!(both.replacement_characters, 2);
    assert_eq!(both.sample.unwrap().line, 2);
}
