use opus_tags::picture::{Picture, PictureError, PictureType};
use opus_tags::Error;

fn sample_picture() -> Picture {
    let mut p = Picture::new();
    p.picture_type = PictureType::CoverFront;
    p.mime_type = String::from("image/png");
    p.description = String::new();
    p.data = vec![1, 2, 3];
    p
}

#[test]
fn encode_cover_front_exact_bytes() {
    let p = sample_picture();
    let bytes = p.to_bytes().unwrap();
    let expected: Vec<u8> = vec![
        0, 0, 0, 3, 0, 0, 0, 9, 105, 109, 97, 103, 101, 47, 112, 110, 103, 0, 0, 0, 0, 0, 0, 0,
        0, 0, 0, 0, 0, 0, 0, 0, 0, 0, 0, 0, 0, 0, 0, 0, 3, 1, 2, 3,
    ];
    assert_eq!(bytes, expected);
}

#[test]
fn decode_reproduces_all_fields() {
    let p = sample_picture();
    let bytes = p.to_bytes().unwrap();
    let q = Picture::from_bytes(&bytes).unwrap();
    assert_eq!(q.picture_type, PictureType::CoverFront);
    assert_eq!(q.mime_type, "image/png");
    assert_eq!(q.description, "");
    assert_eq!(q.data, vec![1, 2, 3]);
}

#[test]
fn base64_round_trip() {
    let p = sample_picture();
    let text = p.to_base64().unwrap();
    assert_eq!(text, "AAAAAwAAAAlpbWFnZS9wbmcAAAAAAAAAAAAAAAAAAAAAAAAAAAAAAAMBAgM=");
    let q = Picture::from_base64(&text).unwrap();
    assert_eq!(q.picture_type, PictureType::CoverFront);
    assert_eq!(q.mime_type, "image/png");
    assert_eq!(q.description, "");
    assert_eq!(q.data, vec![1, 2, 3]);
}

#[test]
fn decode_known_base64_text() {
    let q =
        Picture::from_base64("AAAAAwAAAAlpbWFnZS9wbmcAAAAAAAAAAAAAAAAAAAAAAAAAAAAAAAMBAgM=")
            .unwrap();
    assert_eq!(q.picture_type, PictureType::CoverFront);
    assert_eq!(q.mime_type, "image/png");
    assert_eq!(q.data, vec![1, 2, 3]);
}

#[test]
fn bad_base64_is_rejected() {
    let r = Picture::from_base64("this is !!! not base64");
    assert!(matches!(
        r,
        Err(Error::PictureError(PictureError::Base64DecodeError))
    ));
}

#[test]
fn picture_type_ordinal_21_is_invalid() {
    assert!(matches!(
        PictureType::from_u32(21),
        Err(PictureError::InvalidPictureType)
    ));
    assert!(matches!(PictureType::from_u32(3), Ok(PictureType::CoverFront)));
    assert!(matches!(PictureType::from_u32(0), Ok(PictureType::Other)));
    assert!(matches!(PictureType::from_u32(20), Ok(PictureType::PublisherLogo)));
}

#[test]
fn decode_rejects_bad_type_ordinal() {
    let mut p = sample_picture();
    p.picture_type = PictureType::Other;
    let mut bytes = p.to_bytes().unwrap();
    bytes[3] = 21;
    assert!(matches!(
        Picture::from_bytes(&bytes),
        Err(Error::PictureError(PictureError::InvalidPictureType))
    ));
}

#[test]
fn decode_rejects_short_buffer() {
    let p = sample_picture();
    let bytes = p.to_bytes().unwrap();
    let truncated = &bytes[..bytes.len() - 1];
    assert!(matches!(Picture::from_bytes(truncated), Err(Error::DataError)));
    assert!(matches!(Picture::from_bytes(&bytes[..2]), Err(Error::DataError)));
}

#[test]
fn decode_rejects_invalid_utf8_mime() {
    let mut p = sample_picture();
    p.mime_type = String::from("ab");
    let mut bytes = p.to_bytes().unwrap();
    bytes[8] = 0xff;
    bytes[9] = 0xfe;
    match Picture::from_bytes(&bytes) {
        Err(Error::UTFError(bad)) => assert_eq!(bad, vec![0xff, 0xfe]),
        other => panic!("expected a UTF-8 error, got {:?}", other),
    }
}

#[test]
fn reserved_bytes_are_skipped_not_validated() {
    let p = sample_picture();
    let mut bytes = p.to_bytes().unwrap();
    for i in 21..37 {
        bytes[i] = 0x77;
    }
    let q = Picture::from_bytes(&bytes).unwrap();
    assert_eq!(q.data, vec![1, 2, 3]);
}

#[test]
fn from_data_sniffs_png_mime() {
    let mut data = vec![0x89, 0x50, 0x4e, 0x47, 0x0d, 0x0a, 0x1a, 0x0a];
    data.extend_from_slice(&[0; 16]);
    let p = Picture::from_data(data.clone(), None).unwrap();
    assert_eq!(p.mime_type, "image/png");
    assert_eq!(p.data, data);
    assert_eq!(p.picture_type, PictureType::Other);
}

#[test]
fn from_data_prefers_given_mime() {
    let p = Picture::from_data(vec![1, 2, 3], Some(String::from("image/bmp"))).unwrap();
    assert_eq!(p.mime_type, "image/bmp");
}

#[test]
fn from_data_fails_on_unknown_bytes() {
    let r = Picture::from_data(vec![0, 1], None);
    assert!(matches!(r, Err(Error::PictureError(PictureError::NoMimeType))));
}
