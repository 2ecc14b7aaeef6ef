use opus_tags::{Error, LowercaseString, Tag};

fn opus_head() -> Vec<u8> {
    let mut head = b"OpusHead".to_vec();
    head.extend_from_slice(&[1, 2, 0x38, 0x01, 0x80, 0xbb, 0, 0, 0, 0, 0]);
    head
}

fn comment_payload(vendor: &str, comments: &[(&str, &str)]) -> Vec<u8> {
    let mut payload = b"OpusTags".to_vec();
    payload.extend_from_slice(&(vendor.len() as u32).to_le_bytes());
    payload.extend_from_slice(vendor.as_bytes());
    payload.extend_from_slice(&(comments.len() as u32).to_le_bytes());
    for (tag, value) in comments {
        let line = format!("{}={}", tag, value);
        payload.extend_from_slice(&(line.len() as u32).to_le_bytes());
        payload.extend_from_slice(line.as_bytes());
    }
    payload
}

fn two_packet_stream(vendor: &str, comments: &[(&str, &str)]) -> Vec<u8> {
    packets_to_stream(vec![opus_head(), comment_payload(vendor, comments)])
}

fn packets_to_stream(packets: Vec<Vec<u8>>) -> Vec<u8> {
    let mut buf: Vec<u8> = Vec::new();
    {
        let mut writer = ogg::PacketWriter::new(std::io::Cursor::new(&mut buf));
        let count = packets.len();
        for (i, data) in packets.into_iter().enumerate() {
            let info = if i + 1 == count {
                ogg::PacketWriteEndInfo::EndStream
            } else {
                ogg::PacketWriteEndInfo::EndPage
            };
            writer.write_packet(data, 0x5553, info, 0).unwrap();
        }
    }
    buf
}

#[test]
fn read_two_packet_stream() {
    let stream = two_packet_stream("test", &[("TITLE", "Song")]);
    let tag = Tag::read_from_bytes(&stream).unwrap();
    assert_eq!(tag.get_vendor(), "test");
    let title = LowercaseString::from_str("title");
    assert_eq!(tag.get(&title).unwrap(), &vec![String::from("Song")]);
}

#[test]
fn read_rejects_non_opus_first_packet() {
    let stream = packets_to_stream(vec![b"NotOpus!".to_vec(), comment_payload("v", &[])]);
    assert!(matches!(Tag::read_from_bytes(&stream), Err(Error::NotOpus)));
}

#[test]
fn read_reports_malformed_comment_line() {
    let mut payload = b"OpusTags".to_vec();
    payload.extend_from_slice(&1u32.to_le_bytes());
    payload.extend_from_slice(b"v");
    payload.extend_from_slice(&1u32.to_le_bytes());
    payload.extend_from_slice(&7u32.to_le_bytes());
    payload.extend_from_slice(b"no sign");
    let stream = packets_to_stream(vec![opus_head(), payload]);
    match Tag::read_from_bytes(&stream) {
        Err(Error::MalformedComment(line)) => assert_eq!(line, "no sign"),
        other => panic!("expected a malformed-comment error, got {:?}", other),
    }
}

#[test]
fn read_rejects_missing_second_packet() {
    let stream = packets_to_stream(vec![opus_head()]);
    assert!(matches!(Tag::read_from_bytes(&stream), Err(Error::MissingPacket)));
}

#[test]
fn read_rejects_garbage() {
    let stream: Vec<u8> = vec![1, 2, 3, 4, 5, 6, 7, 8];
    assert!(matches!(Tag::read_from_bytes(&stream), Err(Error::ReadError)));
}

#[test]
fn read_rejects_truncated_header_payload() {
    let mut payload = b"OpusTags".to_vec();
    payload.extend_from_slice(&200u32.to_le_bytes());
    payload.extend_from_slice(b"short");
    let stream = packets_to_stream(vec![opus_head(), payload]);
    assert!(matches!(Tag::read_from_bytes(&stream), Err(Error::DataError)));
}

#[test]
fn read_rejects_invalid_utf8_vendor() {
    let mut payload = b"OpusTags".to_vec();
    payload.extend_from_slice(&2u32.to_le_bytes());
    payload.extend_from_slice(&[0xff, 0xfe]);
    payload.extend_from_slice(&0u32.to_le_bytes());
    let stream = packets_to_stream(vec![opus_head(), payload]);
    match Tag::read_from_bytes(&stream) {
        Err(Error::UTFError(bad)) => assert_eq!(bad, vec![0xff, 0xfe]),
        other => panic!("expected a UTF-8 error, got {:?}", other),
    }
}

#[test]
fn read_non_ascii_value() {
    let stream = two_packet_stream("vend\u{f6}r", &[("TITLE", "S\u{f6}ng")]);
    let tag = Tag::read_from_bytes(&stream).unwrap();
    assert_eq!(tag.get_vendor(), "vend\u{f6}r");
    let title = LowercaseString::from_str("title");
    assert_eq!(tag.get_one(&title).unwrap(), "S\u{f6}ng");
}

#[test]
fn write_then_read_round_trip() {
    let audio: Vec<u8> = vec![0xaa; 100];
    let stream = packets_to_stream(vec![
        opus_head(),
        comment_payload("orig", &[("OLD", "gone")]),
        audio.clone(),
    ]);

    let mut tag = Tag::new(String::from("new vendor"), vec![]);
    tag.add_one(LowercaseString::from_str("Title"), String::from("Fresh"));
    tag.add_one(LowercaseString::from_str("title"), String::from("Second"));
    tag.add_one(LowercaseString::from_str("artist"), String::from("Someone"));

    let rewritten = tag.write_to_bytes(&stream).unwrap();

    let back = Tag::read_from_bytes(&rewritten).unwrap();
    assert_eq!(back.get_vendor(), "new vendor");
    let title = LowercaseString::from_str("title");
    assert_eq!(
        back.get(&title).unwrap(),
        &vec![String::from("Fresh"), String::from("Second")]
    );
    let artist = LowercaseString::from_str("artist");
    assert_eq!(back.get(&artist).unwrap(), &vec![String::from("Someone")]);
    let old = LowercaseString::from_str("old");
    assert!(back.get(&old).is_none());

    // The audio packet survives the rewrite byte for byte.
    let mut reader = ogg::PacketReader::new(std::io::Cursor::new(&rewritten));
    let p1 = reader.read_packet().unwrap().unwrap();
    assert!(p1.data.starts_with(b"OpusHead"));
    let _p2 = reader.read_packet().unwrap().unwrap();
    let p3 = reader.read_packet().unwrap().unwrap();
    assert_eq!(p3.data, audio);
    assert!(p3.last_in_stream());
}

#[test]
fn write_rejects_missing_packets() {
    let stream = packets_to_stream(vec![opus_head()]);
    let tag = Tag::new(String::from("v"), vec![]);
    assert!(matches!(tag.write_to_bytes(&stream), Err(Error::MissingPacket)));
}
