use opus_tags::picture::{Picture, PictureType};
use opus_tags::{LowercaseString, Tag};

fn cover(picture_type: PictureType, data: Vec<u8>) -> Picture {
    let mut p = Picture::new();
    p.picture_type = picture_type;
    p.mime_type = String::from("image/png");
    p.description = String::from("front");
    p.data = data;
    p
}

#[test]
fn new_lowercases_and_groups_keys() {
    let tag = Tag::new(
        String::from("vend"),
        vec![
            (String::from("TITLE"), String::from("Song")),
            (String::from("Artist"), String::from("A")),
            (String::from("title"), String::from("Other")),
        ],
    );
    assert_eq!(tag.get_vendor(), "vend");
    let title = LowercaseString::from_str("title");
    assert_eq!(
        tag.get(&title).unwrap(),
        &vec![String::from("Song"), String::from("Other")]
    );
    assert_eq!(tag.get_one(&title).unwrap(), "Song");
    let artist = LowercaseString::from_str("artist");
    assert_eq!(tag.get(&artist).unwrap(), &vec![String::from("A")]);
}

#[test]
fn add_and_remove_entries() {
    let mut tag = Tag::new(String::from("v"), vec![]);
    let genre = LowercaseString::from_str("GENRE");
    tag.add_one(genre, String::from("jazz"));
    let genre = LowercaseString::from_str("genre");
    tag.add_many(genre, vec![String::from("blues"), String::from("soul")]);
    let genre = LowercaseString::from_str("genre");
    assert_eq!(
        tag.get(&genre).unwrap(),
        &vec![String::from("jazz"), String::from("blues"), String::from("soul")]
    );
    let removed = tag.remove_entries(&genre);
    assert_eq!(
        removed,
        Some(vec![String::from("jazz"), String::from("blues"), String::from("soul")])
    );
    assert!(tag.get(&genre).is_none());
    assert!(tag.remove_entries(&genre).is_none());
}

#[test]
fn set_entries_replaces_values() {
    let mut tag = Tag::new(
        String::from("v"),
        vec![(String::from("a"), String::from("1"))],
    );
    let a = LowercaseString::from_str("a");
    let old = tag.set_entries(a, vec![String::from("2"), String::from("3")]);
    assert_eq!(old, Some(vec![String::from("1")]));
    let a = LowercaseString::from_str("a");
    assert_eq!(tag.get(&a).unwrap(), &vec![String::from("2"), String::from("3")]);
    let b = LowercaseString::from_str("b");
    assert!(tag.set_entries(b, vec![String::from("9")]).is_none());
}

#[test]
fn vendor_can_be_replaced() {
    let mut tag = Tag::new(String::from("old vendor"), vec![]);
    tag.set_vendor(String::from("new vendor"));
    assert_eq!(tag.get_vendor(), "new vendor");
}

#[test]
fn add_picture_replaces_same_type() {
    let mut tag = Tag::new(String::from("v"), vec![]);
    let p1 = cover(PictureType::CoverFront, vec![1, 1, 1]);
    let p2 = cover(PictureType::CoverFront, vec![2, 2, 2]);
    tag.add_picture(&p1).unwrap();
    tag.add_picture(&p2).unwrap();
    let got = tag.get_picture_type(PictureType::CoverFront).unwrap();
    assert_eq!(got.data, vec![2, 2, 2]);
    let all = tag.pictures();
    assert_eq!(all.len(), 1);
    assert_eq!(all[0].data, vec![2, 2, 2]);
}

#[test]
fn pictures_of_distinct_types_coexist() {
    let mut tag = Tag::new(String::from("v"), vec![]);
    tag.add_picture(&cover(PictureType::CoverFront, vec![1])).unwrap();
    tag.add_picture(&cover(PictureType::CoverBack, vec![2])).unwrap();
    assert!(tag.has_pictures());
    assert_eq!(tag.pictures().len(), 2);
    assert_eq!(
        tag.get_picture_type(PictureType::CoverBack).unwrap().data,
        vec![2]
    );
}

#[test]
fn test_remove_image_with_no_matching_type() {
    // The tag holds exactly one image, of the CoverFront type.
    let mut tag = Tag::new(String::from("v"), vec![]);
    tag.add_picture(&cover(PictureType::CoverFront, vec![1, 2, 3])).unwrap();

    // Removing a different type should not remove anything.
    let remove_result = tag.remove_picture_type(PictureType::Media);
    assert!(matches!(remove_result, Ok(None)));
}

#[test]
fn test_remove_image_when_empty() {
    // The tag holds exactly one image, of the CoverFront type.
    let mut tag = Tag::new(String::from("v"), vec![]);
    tag.add_picture(&cover(PictureType::CoverFront, vec![1, 2, 3])).unwrap();

    // Removing the matching type should remove the picture.
    let remove_result = tag.remove_picture_type(PictureType::CoverFront);
    assert!(matches!(remove_result, Ok(Some(_))));

    // Removing anything with no pictures left should not return anything.
    let remove_result = tag.remove_picture_type(PictureType::CoverFront);
    assert!(matches!(remove_result, Ok(None)));
}

#[test]
fn iteration_excludes_picture_key() {
    let mut tag = Tag::new(
        String::from("v"),
        vec![(String::from("title"), String::from("Song"))],
    );
    tag.add_picture(&cover(PictureType::CoverFront, vec![1])).unwrap();
    let comments = tag.iter_comments();
    assert_eq!(comments.len(), 1);
    assert_eq!(comments[0].0, "title");
    assert_eq!(comments[0].1, vec![String::from("Song")]);
    let keys = tag.keys();
    assert_eq!(keys, vec![String::from("title")]);
    assert!(tag.has_pictures());
    let pics = tag.iter_pictures().unwrap();
    assert_eq!(pics.len(), 1);
    assert_eq!(pics[0].data, vec![1]);
}

#[test]
fn iter_pictures_none_without_reserved_key() {
    let tag = Tag::new(String::from("v"), vec![]);
    assert!(!tag.has_pictures());
    assert!(tag.iter_pictures().is_none());
    assert_eq!(tag.pictures().len(), 0);
}

#[test]
fn undecodable_picture_values_are_skipped() {
    let mut tag = Tag::new(
        String::from("v"),
        vec![(
            String::from("METADATA_BLOCK_PICTURE"),
            String::from("not valid base64 at all!"),
        )],
    );
    assert!(tag.has_pictures());
    assert_eq!(tag.pictures().len(), 0);
    assert!(tag.get_picture_type(PictureType::CoverFront).is_none());
    tag.add_picture(&cover(PictureType::CoverFront, vec![5])).unwrap();
    assert_eq!(tag.pictures().len(), 1);
    let removed = tag.remove_picture_type(PictureType::CoverFront);
    assert!(matches!(removed, Ok(Some(_))));
    // The undecodable value stays: it is skipped, never removed.
    assert!(tag.has_pictures());
}

#[test]
fn to_packet_data_exact_bytes() {
    let tag = Tag::new(
        String::from("test"),
        vec![(String::from("TITLE"), String::from("Song"))],
    );
    let bytes = tag.to_packet_data().unwrap();
    let mut expected: Vec<u8> = Vec::new();
    expected.extend_from_slice(b"OpusTags");
    expected.extend_from_slice(&4u32.to_le_bytes());
    expected.extend_from_slice(b"test");
    expected.extend_from_slice(&1u32.to_le_bytes());
    expected.extend_from_slice(&10u32.to_le_bytes());
    expected.extend_from_slice(b"title=Song");
    assert_eq!(bytes, expected);
}
