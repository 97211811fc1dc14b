use rs_player::id3::{Id3V1, TagError, TagField};

fn block(title: &[u8], artist: &[u8], album: &[u8], year: &[u8]) -> Vec<u8> {
    let mut data = b"TAG".to_vec();
    for (field, width) in [(title, 30usize), (artist, 30), (album, 30), (year, 4)] {
        let mut f = field.to_vec();
        f.resize(width, 0);
        data.extend_from_slice(&f);
    }
    data.extend_from_slice(&[0u8; 31]);
    assert_eq!(data.len(), 128);
    data
}

#[test]
fn new_holds_placeholders() {
    let tag = Id3V1::new();
    assert_eq!(tag.title, "Untitled");
    assert_eq!(tag.artist, "Unknown");
    assert_eq!(tag.year, "Unknown");
    assert_eq!(tag.album, "Unknown");
}

#[test]
fn default_equals_new() {
    assert!(Id3V1::default() == Id3V1::new());
}

#[test]
fn tags_differing_in_one_field_are_unequal() {
    let a = Id3V1::new();
    let mut b = Id3V1::new();
    b.year = "1999".to_string();
    assert!(a != b);
    let mut c = Id3V1::new();
    c.year = "1999".to_string();
    assert!(b == c);
}

#[test]
fn block_without_marker_reads_as_untagged() {
    let data = vec![b'X'; 128];
    assert_eq!(Id3V1::check_bytes(&data), Ok(()));
    let tag = Id3V1::from_bytes(&data);
    assert!(tag == Id3V1::new());
}

#[test]
fn short_block_without_marker_reads_as_untagged() {
    let data = [1u8, 2, 3];
    assert_eq!(Id3V1::check_bytes(&data), Ok(()));
    assert!(Id3V1::from_bytes(&data) == Id3V1::new());
}

#[test]
fn fields_are_read_and_padding_stripped() {
    let data = block(b"Song Title", b"The Artist", b"The Album", b"2001");
    assert_eq!(Id3V1::check_bytes(&data), Ok(()));
    let tag = Id3V1::from_bytes(&data);
    assert_eq!(tag.title, "Song Title");
    assert_eq!(tag.artist, "The Artist");
    assert_eq!(tag.album, "The Album");
    assert_eq!(tag.year, "2001");
}

#[test]
fn leading_nuls_are_stripped_inner_ones_kept() {
    let data = block(b"\0\0ab\0cd", b"", b"x", b"\0\x0019");
    let tag = Id3V1::from_bytes(&data);
    assert_eq!(tag.title, "ab\0cd");
    assert_eq!(tag.artist, "");
    assert_eq!(tag.album, "x");
    assert_eq!(tag.year, "19");
}

#[test]
fn spaces_are_not_stripped() {
    let data = block(b" a ", b"b  ", b"  c", b"2 0 ");
    let tag = Id3V1::from_bytes(&data);
    assert_eq!(tag.title, " a ");
    assert_eq!(tag.artist, "b  ");
    assert_eq!(tag.album, "  c");
    assert_eq!(tag.year, "2 0 ");
}

#[test]
fn multibyte_text_is_decoded() {
    let data = block("Café Noël".as_bytes(), "Björk".as_bytes(), "日本".as_bytes(), b"1997");
    assert_eq!(Id3V1::check_bytes(&data), Ok(()));
    let tag = Id3V1::from_bytes(&data);
    assert_eq!(tag.title, "Café Noël");
    assert_eq!(tag.artist, "Björk");
    assert_eq!(tag.album, "日本");
    assert_eq!(tag.year, "1997");
}

#[test]
fn exactly_the_fields_are_read_from_a_short_tagged_block() {
    let data = block(b"t", b"a", b"l", b"1234");
    let tag = Id3V1::from_bytes(&data[..97]);
    assert_eq!(tag.year, "1234");
    assert_eq!(Id3V1::check_bytes(&data[..97]), Ok(()));
}

#[test]
fn too_short_block_is_refused() {
    assert_eq!(Id3V1::check_bytes(&[]), Err(TagError::TooShort));
    assert_eq!(Id3V1::check_bytes(b"TA"), Err(TagError::TooShort));
}

#[test]
fn truncated_tag_is_refused() {
    let data = block(b"t", b"a", b"l", b"1234");
    assert_eq!(Id3V1::check_bytes(&data[..96]), Err(TagError::Truncated));
    assert_eq!(Id3V1::check_bytes(b"TAG"), Err(TagError::Truncated));
}

#[test]
fn malformed_fields_are_refused_in_order() {
    let bad = [0xffu8, 0x41];
    let data = block(&bad, &bad, b"ok", b"2000");
    assert_eq!(Id3V1::check_bytes(&data), Err(TagError::InvalidUtf8(TagField::Title)));
    let data = block(b"ok", &bad, &bad, b"2000");
    assert_eq!(Id3V1::check_bytes(&data), Err(TagError::InvalidUtf8(TagField::Artist)));
    let data = block(b"ok", b"ok", &[0xc3u8], b"2000");
    assert_eq!(Id3V1::check_bytes(&data), Err(TagError::InvalidUtf8(TagField::Album)));
    let data = block(b"ok", b"ok", b"ok", &[0x32u8, 0x30, 0xe6, 0x97]);
    assert_eq!(Id3V1::check_bytes(&data), Err(TagError::InvalidUtf8(TagField::Year)));
}

#[test]
fn latin1_text_is_refused() {
    // "Caf\xe9" is Latin-1, not UTF-8
    let data = block(b"Caf\xe9", b"a", b"b", b"2000");
    assert_eq!(Id3V1::check_bytes(&data), Err(TagError::InvalidUtf8(TagField::Title)));
}

#[test]
fn malformed_bytes_after_the_year_do_not_matter() {
    let mut data = block(b"t", b"a", b"l", b"1234");
    for b in data[97..].iter_mut() {
        *b = 0xff;
    }
    assert_eq!(Id3V1::check_bytes(&data), Ok(()));
    assert_eq!(Id3V1::from_bytes(&data).title, "t");
}

#[test]
fn fields_are_checked_one_after_another() {
    // the title is whole but malformed: that is found before the missing artist
    let data = block(&[0xffu8], b"a", b"l", b"1234");
    assert_eq!(Id3V1::check_bytes(&data[..40]), Err(TagError::InvalidUtf8(TagField::Title)));
    // the title is whole and well-formed, the artist is cut off
    let data = block(b"t", b"a", b"l", b"1234");
    assert_eq!(Id3V1::check_bytes(&data[..40]), Err(TagError::Truncated));
    assert_eq!(Id3V1::check_bytes(&data[..32]), Err(TagError::Truncated));
    let data = block(b"t", &[0xc3u8], b"l", b"1234");
    assert_eq!(Id3V1::check_bytes(&data[..70]), Err(TagError::InvalidUtf8(TagField::Artist)));
    let data = block(b"t", b"a", &[0xc3u8], b"1234");
    assert_eq!(Id3V1::check_bytes(&data[..95]), Err(TagError::InvalidUtf8(TagField::Album)));
    let data = block(b"t", b"a", b"l", b"1234");
    assert_eq!(Id3V1::check_bytes(&data[..95]), Err(TagError::Truncated));
}
