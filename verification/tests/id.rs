use peershare_core::{Mime, MimeType, StoreError, StreamId};

#[test]
fn test_from_str_fmt() {
    let id = StreamId::new(
        blake3::hash(b"").as_bytes().to_vec(),
        42,
        Mime::ApplicationTar.code(),
    );
    let s = id.to_base64();
    println!("{}", String::from_utf8(s.clone()).unwrap());
    let id2 = StreamId::from_base64(&s).unwrap();
    assert_eq!(id2, id);
}

#[test]
fn test_text_form() {
    // 58 characters, URL-safe alphabet, no padding, matching the base64
    // crate's own encoding of the 43-byte form.
    let id = StreamId::new(blake3::hash(b"").as_bytes().to_vec(), 42, Mime::ApplicationTar.code());
    let s = id.to_base64();
    assert_eq!(s.len(), 58);
    assert!(!s.contains(&b'='));
    let expected = base64::Engine::encode(
        &base64::engine::general_purpose::URL_SAFE_NO_PAD,
        id.to_bytes(),
    );
    assert_eq!(s, expected.into_bytes());
}

#[test]
fn test_bytes_roundtrip() {
    let id = StreamId::new(blake3::hash(b"x").as_bytes().to_vec(), 7, 3);
    let bytes = id.to_bytes();
    assert_eq!(bytes.len(), 43);
    assert_eq!(bytes[0], 0);
    let id2 = StreamId::from_bytes(&bytes).unwrap();
    assert_eq!(id2, id);
    assert_eq!(id2.length(), 7);
    assert_eq!(id2.hash().as_slice(), blake3::hash(b"x").as_bytes());
}

#[test]
fn test_bad_id_bytes() {
    assert_eq!(
        StreamId::from_bytes(&[0u8; 42]),
        Err(StoreError::FormatError)
    );
    let mut bytes = [0u8; 43];
    bytes[0] = 1;
    assert_eq!(StreamId::from_bytes(&bytes), Err(StoreError::FormatError));
}

#[test]
fn test_bad_id_text() {
    // Wrong length.
    assert_eq!(
        StreamId::from_base64(b"abc"),
        Err(StoreError::FormatError)
    );
    // Right length, foreign symbol.
    let mut s = [b'A'; 58];
    s[10] = b'*';
    assert_eq!(
        StreamId::from_base64(&s),
        Err(StoreError::FormatError)
    );
    // Right length, valid symbols, nonzero version byte.
    let id = StreamId::new([0u8; 32].to_vec(), 1, 0);
    let mut bytes = id.to_bytes();
    bytes[0] = 9;
    let text = base64::Engine::encode(
        &base64::engine::general_purpose::URL_SAFE_NO_PAD,
        bytes,
    );
    assert_eq!(
        StreamId::from_base64(text.as_bytes()),
        Err(StoreError::FormatError)
    );
}

#[test]
fn test_mime_table() {
    assert_eq!(Mime::from_u16(0), Some(Mime::ApplicationOctetStream));
    assert_eq!(Mime::from_u16(13), Some(Mime::ApplicationTar));
    assert_eq!(Mime::from_u16(999), None);
    assert_eq!(Mime::ApplicationTar.code(), 13);
    assert_eq!(Mime::ApplicationTar.mime(), "application/x-tar");
    assert_eq!(Mime::ApplicationTar.extension(), "tar");
    assert_eq!(Mime::ApplicationTar.media_type(), MimeType::Application);
    assert_eq!(Mime::from_mime("application/x-tar"), Some(Mime::ApplicationTar));
    assert_eq!(Mime::from_mime("application/x-rar"), None);
    assert_eq!(Mime::from_ext("tar"), Some(Mime::ApplicationTar));
    assert_eq!(Mime::from_ext("rar"), None);
    assert_eq!(Mime::default(), Mime::ApplicationOctetStream);
    // Codes round-trip for the whole table.
    for code in 0..47u16 {
        let m = Mime::from_u16(code).unwrap();
        assert_eq!(m.code(), code);
        assert_eq!(Mime::from_mime(m.mime()), Some(m));
        assert_eq!(Mime::from_ext(m.extension()), Some(m));
    }
}

#[test]
fn test_id_mime_fallback() {
    let id = StreamId::new([0u8; 32].to_vec(), 1, 60000);
    assert_eq!(id.mime(), Mime::ApplicationOctetStream);
    let id = StreamId::new([0u8; 32].to_vec(), 1, 13);
    assert_eq!(id.mime(), Mime::ApplicationTar);
}

#[test]
fn test_mime_from_path() {
    assert_eq!(Mime::from_path("music/song.mp3"), Some(Mime::AudioMpeg));
    assert_eq!(Mime::from_path("archive.tar"), Some(Mime::ApplicationTar));
    assert_eq!(Mime::from_path("no_extension"), None);
    assert_eq!(Mime::from_path(".hidden"), None);
    assert_eq!(Mime::from_path("dir.d/plain"), None);
    assert_eq!(Mime::from_path("dir.d/page.html"), Some(Mime::TextHtml));
    assert_eq!(Mime::from_path("odd.ext"), None);
    assert_eq!(Mime::from_path("trailing."), None);
}
