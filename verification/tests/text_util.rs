use markdown_editor::text_util::{byte_to_char, char_to_byte};

#[test]
fn round_trips_multibyte_text() {
    let s = "あiうeお";
    for (i, _) in s.char_indices() {
        assert_eq!(char_to_byte(s, byte_to_char(s, i)), i);
    }
}

#[test]
fn clamps_past_the_end() {
    let s = "日本語";
    assert_eq!(char_to_byte(s, 99), s.len());
    assert_eq!(byte_to_char(s, 99), 3);
}

#[test]
fn char_to_byte_counts_utf8_widths() {
    // 1-, 2-, 3- and 4-byte characters.
    let s = "aé日😀z";
    assert_eq!(char_to_byte(s, 0), 0);
    assert_eq!(char_to_byte(s, 1), 1);
    assert_eq!(char_to_byte(s, 2), 3);
    assert_eq!(char_to_byte(s, 3), 6);
    assert_eq!(char_to_byte(s, 4), 10);
    assert_eq!(char_to_byte(s, 5), 11);
}

#[test]
fn byte_to_char_of_each_start() {
    let s = "aé日😀z";
    assert_eq!(byte_to_char(s, 0), 0);
    assert_eq!(byte_to_char(s, 3), 2);
    assert_eq!(byte_to_char(s, 10), 4);
    assert_eq!(byte_to_char(s, 11), 5);
}

#[test]
fn char_byte_char_round_trip() {
    let s = "日本語text";
    for i in 0..12 {
        assert_eq!(byte_to_char(s, char_to_byte(s, i)), i.min(7));
    }
}

#[test]
fn empty_text_maps_to_zero() {
    assert_eq!(char_to_byte("", 0), 0);
    assert_eq!(char_to_byte("", 5), 0);
    assert_eq!(byte_to_char("", 5), 0);
}
