//! The embedded-picture block and its base64 transport form.
//!
//! A picture is stored inside a comment value as the base64 encoding of a
//! fixed binary layout: a big-endian type ordinal, a length-prefixed MIME
//! type, a length-prefixed description, sixteen reserved bytes (written as
//! zero and skipped on read), and the length-prefixed image data.

use vstd::prelude::*;
use vstd::slice::{slice_subrange, slice_to_vec};
use vstd::string::StrSliceExecFns;
use vstd::utf8::{
    decode_utf8, encode_utf8, encode_utf8_decode_utf8, encode_utf8_valid_utf8, valid_utf8,
};

use crate::bytes32::{
    lemma_u32_be_roundtrip, push_all, push_u32_be, push_zeros, read_u32_be, u32_be_bytes, u32_of_be,
};
use crate::error::Error;
use crate::strutil::utf8_to_string;

verus! {

/// Type of picture, following the APIC picture categories.
#[derive(Debug, Clone, Copy, PartialEq, Eq, PartialOrd, Ord, Structural)]
pub enum PictureType {
    Other,
    FileIcon,
    OtherIcon,
    CoverFront,
    CoverBack,
    LeafletPage,
    Media,
    LeadArtist,
    Artist,
    Conductor,
    BandOrchestra,
    Composter,
    Lyricist,
    RecordingLocation,
    DuringRecording,
    DuringPerformance,
    MovieCapture,
    BrightColouredFish,
    Illustration,
    BandLogo,
    PublisherLogo,
}

/// The wire ordinal of a picture type.
pub open spec fn picture_type_code(t: PictureType) -> u32 {
    match t {
        PictureType::Other => 0,
        PictureType::FileIcon => 1,
        PictureType::OtherIcon => 2,
        PictureType::CoverFront => 3,
        PictureType::CoverBack => 4,
        PictureType::LeafletPage => 5,
        PictureType::Media => 6,
        PictureType::LeadArtist => 7,
        PictureType::Artist => 8,
        PictureType::Conductor => 9,
        PictureType::BandOrchestra => 10,
        PictureType::Composter => 11,
        PictureType::Lyricist => 12,
        PictureType::RecordingLocation => 13,
        PictureType::DuringRecording => 14,
        PictureType::DuringPerformance => 15,
        PictureType::MovieCapture => 16,
        PictureType::BrightColouredFish => 17,
        PictureType::Illustration => 18,
        PictureType::BandLogo => 19,
        PictureType::PublisherLogo => 20,
    }
}

/// The picture type with a given wire ordinal, for ordinals up to 20.
pub open spec fn picture_type_of(num: u32) -> PictureType {
    if num == 0 {
        PictureType::Other
    } else if num == 1 {
        PictureType::FileIcon
    } else if num == 2 {
        PictureType::OtherIcon
    } else if num == 3 {
        PictureType::CoverFront
    } else if num == 4 {
        PictureType::CoverBack
    } else if num == 5 {
        PictureType::LeafletPage
    } else if num == 6 {
        PictureType::Media
    } else if num == 7 {
        PictureType::LeadArtist
    } else if num == 8 {
        PictureType::Artist
    } else if num == 9 {
        PictureType::Conductor
    } else if num == 10 {
        PictureType::BandOrchestra
    } else if num == 11 {
        PictureType::Composter
    } else if num == 12 {
        PictureType::Lyricist
    } else if num == 13 {
        PictureType::RecordingLocation
    } else if num == 14 {
        PictureType::DuringRecording
    } else if num == 15 {
        PictureType::DuringPerformance
    } else if num == 16 {
        PictureType::MovieCapture
    } else if num == 17 {
        PictureType::BrightColouredFish
    } else if num == 18 {
        PictureType::Illustration
    } else if num == 19 {
        PictureType::BandLogo
    } else {
        PictureType::PublisherLogo
    }
}

/// The two wire mappings invert each other.
pub proof fn lemma_picture_type_code_inverse(t: PictureType)
    ensures
        picture_type_code(t) <= 20,
        picture_type_of(picture_type_code(t)) == t,
{
}

impl PictureType {
    /// Creates a `PictureType` from its wire ordinal; ordinals above 20 are
    /// rejected.
    pub fn from_u32(num: u32) -> (r: Result<Self, PictureError>)
        ensures
            match r {
                Ok(t) => num <= 20 && t == picture_type_of(num) && picture_type_code(t) == num,
                Err(e) => num > 20 && e == PictureError::InvalidPictureType,
            },
    {
        match num {
            0 => Ok(PictureType::Other),
            1 => Ok(PictureType::FileIcon),
            2 => Ok(PictureType::OtherIcon),
            3 => Ok(PictureType::CoverFront),
            4 => Ok(PictureType::CoverBack),
            5 => Ok(PictureType::LeafletPage),
            6 => Ok(PictureType::Media),
            7 => Ok(PictureType::LeadArtist),
            8 => Ok(PictureType::Artist),
            9 => Ok(PictureType::Conductor),
            10 => Ok(PictureType::BandOrchestra),
            11 => Ok(PictureType::Composter),
            12 => Ok(PictureType::Lyricist),
            13 => Ok(PictureType::RecordingLocation),
            14 => Ok(PictureType::DuringRecording),
            15 => Ok(PictureType::DuringPerformance),
            16 => Ok(PictureType::MovieCapture),
            17 => Ok(PictureType::BrightColouredFish),
            18 => Ok(PictureType::Illustration),
            19 => Ok(PictureType::BandLogo),
            20 => Ok(PictureType::PublisherLogo),
            _ => Err(PictureError::InvalidPictureType),
        }
    }

    /// The wire ordinal of this picture type.
    pub fn to_u32(&self) -> (r: u32)
        ensures
            r == picture_type_code(*self),
    {
        match self {
            PictureType::Other => 0,
            PictureType::FileIcon => 1,
            PictureType::OtherIcon => 2,
            PictureType::CoverFront => 3,
            PictureType::CoverBack => 4,
            PictureType::LeafletPage => 5,
            PictureType::Media => 6,
            PictureType::LeadArtist => 7,
            PictureType::Artist => 8,
            PictureType::Conductor => 9,
            PictureType::BandOrchestra => 10,
            PictureType::Composter => 11,
            PictureType::Lyricist => 12,
            PictureType::RecordingLocation => 13,
            PictureType::DuringRecording => 14,
            PictureType::DuringPerformance => 15,
            PictureType::MovieCapture => 16,
            PictureType::BrightColouredFish => 17,
            PictureType::Illustration => 18,
            PictureType::BandLogo => 19,
            PictureType::PublisherLogo => 20,
        }
    }
}

impl Default for PictureType {
    /// The generic `Other` category.
    fn default() -> (r: Self)
        ensures
            r == PictureType::Other,
    {
        PictureType::Other
    }
}

/// Errors that can be raised while encoding or decoding a [`Picture`].
#[derive(Debug, Clone, PartialEq, Eq, Structural)]
pub enum PictureError {
    /// A picture-type ordinal above 20.
    InvalidPictureType,
    /// MIME type longer than `u32::MAX` bytes.
    MimeTooLong,
    /// Description longer than `u32::MAX` bytes.
    DescriptionTooLong,
    /// Picture data longer than `u32::MAX` bytes.
    DataTooLong,
    /// Failed to decode base64 data.
    Base64DecodeError,
    /// Failed to sniff a MIME type from raw image bytes.
    NoMimeType,
}

/// Stores picture data.
#[derive(Debug, Clone)]
pub struct Picture {
    pub picture_type: PictureType,
    pub mime_type: String,
    pub description: String,
    pub data: Vec<u8>,
}

/// The mathematical content of a [`Picture`].
pub struct PictureModel {
    pub picture_type: PictureType,
    pub mime_type: Seq<char>,
    pub description: Seq<char>,
    pub data: Seq<u8>,
}

impl View for Picture {
    type V = PictureModel;

    open spec fn view(&self) -> PictureModel {
        PictureModel {
            picture_type: self.picture_type,
            mime_type: self.mime_type@,
            description: self.description@,
            data: self.data@,
        }
    }
}

/// True when every length field of `p` fits the 32-bit budget of the wire
/// format.
pub open spec fn picture_encodable(p: PictureModel) -> bool {
    &&& encode_utf8(p.mime_type).len() <= u32::MAX
    &&& encode_utf8(p.description).len() <= u32::MAX
    &&& p.data.len() <= u32::MAX
}

/// The sixteen reserved bytes, always written as zero.
pub open spec fn zeros16() -> Seq<u8> {
    Seq::new(16, |i: int| 0u8)
}

/// The binary encoding of a picture.
pub open spec fn picture_bytes(p: PictureModel) -> Seq<u8> {
    let mime_b = encode_utf8(p.mime_type);
    let desc_b = encode_utf8(p.description);
    u32_be_bytes(picture_type_code(p.picture_type)) + u32_be_bytes(mime_b.len() as u32) + mime_b
        + u32_be_bytes(desc_b.len() as u32) + desc_b + zeros16() + u32_be_bytes(
        p.data.len() as u32,
    ) + p.data
}

/// The error reported when `p` exceeds a length budget: the MIME type is
/// checked first, then the description, then the image data.
pub open spec fn picture_encode_error(p: PictureModel) -> PictureError {
    if encode_utf8(p.mime_type).len() > u32::MAX {
        PictureError::MimeTooLong
    } else if encode_utf8(p.description).len() > u32::MAX {
        PictureError::DescriptionTooLong
    } else {
        PictureError::DataTooLong
    }
}

/// The outcome of parsing a binary picture block.
pub enum PictureParse {
    /// A well-formed block with the picture it holds.
    Parsed(PictureModel),
    /// The buffer ends before a declared field does.
    TooShort,
    /// The type ordinal is above 20.
    BadType,
    /// A text field holds the given bytes, which are not valid UTF-8.
    BadUtf8(Seq<u8>),
}

/// Parses a binary picture block, field by field in wire order.
pub open spec fn picture_parse(b: Seq<u8>) -> PictureParse {
    if b.len() < 4 {
        PictureParse::TooShort
    } else {
        let tv = u32_of_be(b[0], b[1], b[2], b[3]);
        if tv > 20 {
            PictureParse::BadType
        } else if b.len() < 8 {
            PictureParse::TooShort
        } else {
            let mlen = u32_of_be(b[4], b[5], b[6], b[7]) as int;
            if mlen > b.len() - 8 {
                PictureParse::TooShort
            } else {
                let mime_b = b.subrange(8, 8 + mlen);
                let p1 = 8 + mlen;
                if !valid_utf8(mime_b) {
                    PictureParse::BadUtf8(mime_b)
                } else if p1 + 4 > b.len() {
                    PictureParse::TooShort
                } else {
                    let dlen = u32_of_be(b[p1], b[p1 + 1], b[p1 + 2], b[p1 + 3]) as int;
                    if dlen > b.len() - p1 - 4 {
                        PictureParse::TooShort
                    } else {
                        let desc_b = b.subrange(p1 + 4, p1 + 4 + dlen);
                        let p2 = p1 + 4 + dlen;
                        if !valid_utf8(desc_b) {
                            PictureParse::BadUtf8(desc_b)
                        } else if p2 + 20 > b.len() {
                            PictureParse::TooShort
                        } else {
                            let nlen = u32_of_be(
                                b[p2 + 16],
                                b[p2 + 17],
                                b[p2 + 18],
                                b[p2 + 19],
                            ) as int;
                            let p3 = p2 + 20;
                            if nlen > b.len() - p3 {
                                PictureParse::TooShort
                            } else {
                                PictureParse::Parsed(
                                    PictureModel {
                                        picture_type: picture_type_of(tv),
                                        mime_type: decode_utf8(mime_b),
                                        description: decode_utf8(desc_b),
                                        data: b.subrange(p3, p3 + nlen),
                                    },
                                )
                            }
                        }
                    }
                }
            }
        }
    }
}

impl Picture {
    /// An empty picture of the generic `Other` type.
    pub fn new() -> (r: Self)
        ensures
            r@.picture_type == PictureType::Other,
            r@.mime_type == Seq::<char>::empty(),
            r@.description == Seq::<char>::empty(),
            r@.data == Seq::<u8>::empty(),
    {
        Picture {
            picture_type: PictureType::Other,
            mime_type: String::new(),
            description: String::new(),
            data: Vec::new(),
        }
    }

    /// Encodes this picture into the binary picture block.
    ///
    /// Fails exactly when the MIME type, the description, or the image data
    /// is longer than `u32::MAX` bytes, reporting the first field over
    /// budget.
    pub fn to_bytes(&self) -> (r: Result<Vec<u8>, PictureError>)
        ensures
            match r {
                Ok(bytes) => picture_encodable(self@) && bytes@ == picture_bytes(self@),
                Err(e) => !picture_encodable(self@) && e == picture_encode_error(self@),
            },
    {
        let mime_b = self.mime_type.as_str().as_bytes_vec();
        let mlen: u32 = match u32::try_from(mime_b.len()) {
            Ok(l) => l,
            Err(_) => {
                return Err(PictureError::MimeTooLong);
            },
        };
        let desc_b = self.description.as_str().as_bytes_vec();
        let dlen: u32 = match u32::try_from(desc_b.len()) {
            Ok(l) => l,
            Err(_) => {
                return Err(PictureError::DescriptionTooLong);
            },
        };
        let nlen: u32 = match u32::try_from(self.data.len()) {
            Ok(l) => l,
            Err(_) => {
                return Err(PictureError::DataTooLong);
            },
        };
        let mut out: Vec<u8> = Vec::new();
        push_u32_be(&mut out, self.picture_type.to_u32());
        push_u32_be(&mut out, mlen);
        push_all(&mut out, mime_b.as_slice());
        push_u32_be(&mut out, dlen);
        push_all(&mut out, desc_b.as_slice());
        push_zeros(&mut out, 16);
        push_u32_be(&mut out, nlen);
        push_all(&mut out, self.data.as_slice());
        proof {
            assert(out@ =~= picture_bytes(self@));
        }
        Ok(out)
    }

    /// Decodes a picture from a binary picture block.
    ///
    /// Fails when the buffer ends before a declared field does, when the
    /// type ordinal is above 20, or when a text field is not valid UTF-8.
    pub fn from_bytes(data: &[u8]) -> (r: Result<Self, Error>)
        ensures
            match r {
                Ok(p) => picture_parse(data@) == PictureParse::Parsed(p@),
                Err(e) => match picture_parse(data@) {
                    PictureParse::Parsed(_) => false,
                    PictureParse::TooShort => e == Error::DataError,
                    PictureParse::BadType => e == Error::PictureError(
                        PictureError::InvalidPictureType,
                    ),
                    PictureParse::BadUtf8(bs) => e matches Error::UTFError(v) && v@ == bs,
                },
            },
    {
        let n = data.len();
        if n < 4 {
            return Err(Error::DataError);
        }
        let tv = read_u32_be(data, 0);
        let picture_type = match PictureType::from_u32(tv) {
            Ok(t) => t,
            Err(e) => {
                return Err(Error::PictureError(e));
            },
        };
        if n < 8 {
            return Err(Error::DataError);
        }
        let mlen = read_u32_be(data, 4) as usize;
        if mlen > n - 8 {
            return Err(Error::DataError);
        }
        let mime_vec = slice_to_vec(slice_subrange(data, 8, 8 + mlen));
        let p1 = 8 + mlen;
        let mime_type = match utf8_to_string(&mime_vec) {
            Some(s) => s,
            None => {
                return Err(Error::UTFError(mime_vec));
            },
        };
        if n - p1 < 4 {
            return Err(Error::DataError);
        }
        let dlen = read_u32_be(data, p1) as usize;
        if dlen > n - p1 - 4 {
            return Err(Error::DataError);
        }
        let desc_vec = slice_to_vec(slice_subrange(data, p1 + 4, p1 + 4 + dlen));
        let p2 = p1 + 4 + dlen;
        let description = match utf8_to_string(&desc_vec) {
            Some(s) => s,
            None => {
                return Err(Error::UTFError(desc_vec));
            },
        };
        if n - p2 < 20 {
            return Err(Error::DataError);
        }
        let nlen = read_u32_be(data, p2 + 16) as usize;
        let p3 = p2 + 20;
        if nlen > n - p3 {
            return Err(Error::DataError);
        }
        let pic_data = slice_to_vec(slice_subrange(data, p3, p3 + nlen));
        Ok(Picture { picture_type, mime_type, description, data: pic_data })
    }
}

/// The base64 text that the standard alphabet, with padding, assigns to a
/// byte sequence.
pub uninterp spec fn base64_of(bytes: Seq<u8>) -> Seq<char>;

/// The byte sequence that base64 text decodes to under the standard
/// alphabet, or nothing when the text is not valid base64.
pub uninterp spec fn base64_decoding(s: Seq<char>) -> Option<Seq<u8>>;

/// Encodes bytes as base64 text.
///
/// Relies on base64's `Engine::encode` with the standard alphabet and
/// padding; decoding the text it returns yields back the input bytes.
#[verifier::external_body]
fn base64_encode(bytes: &Vec<u8>) -> (r: String)
    ensures
        r@ == base64_of(bytes@),
        base64_decoding(r@) == Some(bytes@),
{
    base64::Engine::encode(&base64::prelude::BASE64_STANDARD, bytes.as_slice())
}

/// Decodes base64 text into bytes.
///
/// Relies on base64's `Engine::decode` with the standard alphabet and
/// padding: it returns `Ok` exactly on valid base64 text.
#[verifier::external_body]
fn base64_decode(s: &str) -> (r: Result<Vec<u8>, PictureError>)
    ensures
        match r {
            Ok(v) => base64_decoding(s@) == Some(v@),
            Err(e) => base64_decoding(s@) is None && e == PictureError::Base64DecodeError,
        },
{
    match base64::Engine::decode(&base64::prelude::BASE64_STANDARD, s) {
        Ok(v) => Ok(v),
        Err(_) => Err(PictureError::Base64DecodeError),
    }
}

/// The MIME type that content sniffing assigns to raw image bytes, if any.
pub uninterp spec fn sniffed_mime(data: Seq<u8>) -> Option<Seq<char>>;

/// Guesses the MIME type of raw image bytes.
///
/// Relies on `infer::get` and `infer::Type::mime_type`: the inferred MIME
/// type is a function of the bytes alone.
#[verifier::external_body]
fn infer_mime(data: &Vec<u8>) -> (r: Option<String>)
    ensures
        match r {
            Some(s) => sniffed_mime(data@) == Some(s@),
            None => sniffed_mime(data@) is None,
        },
{
    match infer::get(data.as_slice()) {
        Some(t) => Some(t.mime_type().to_owned()),
        None => None,
    }
}

/// The picture stored by a comment value, when the value is valid base64
/// text holding a well-formed picture block.
pub open spec fn decoded_picture(s: Seq<char>) -> Option<PictureModel> {
    match base64_decoding(s) {
        Some(b) => match picture_parse(b) {
            PictureParse::Parsed(pm) => Some(pm),
            _ => None,
        },
        None => None,
    }
}

impl Picture {
    /// Encodes this picture to the base64 transport form used as a comment
    /// value.
    ///
    /// Fails exactly when [`Picture::to_bytes`] fails.
    pub fn to_base64(&self) -> (r: Result<String, Error>)
        ensures
            match r {
                Ok(s) => {
                    &&& picture_encodable(self@)
                    &&& s@ == base64_of(picture_bytes(self@))
                    &&& base64_decoding(s@) == Some(picture_bytes(self@))
                    &&& decoded_picture(s@) == Some(self@)
                },
                Err(e) => !picture_encodable(self@) && e == Error::PictureError(
                    picture_encode_error(self@),
                ),
            },
    {
        let bytes = match self.to_bytes() {
            Ok(b) => b,
            Err(e) => {
                return Err(Error::PictureError(e));
            },
        };
        let encoded = base64_encode(&bytes);
        proof {
            lemma_picture_bytes_roundtrip(self@);
        }
        Ok(encoded)
    }

    /// Decodes a picture from its base64 transport form.
    ///
    /// Fails when the text is not valid base64, or when the decoded bytes
    /// fail [`Picture::from_bytes`]. On any text produced by
    /// [`Picture::to_base64`] it returns the original picture.
    pub fn from_base64(data: &str) -> (r: Result<Self, Error>)
        ensures
            match r {
                Ok(p) => decoded_picture(data@) == Some(p@),
                Err(e) => match base64_decoding(data@) {
                    None => e == Error::PictureError(PictureError::Base64DecodeError),
                    Some(bytes) => match picture_parse(bytes) {
                        PictureParse::Parsed(_) => false,
                        PictureParse::TooShort => e == Error::DataError,
                        PictureParse::BadType => e == Error::PictureError(
                            PictureError::InvalidPictureType,
                        ),
                        PictureParse::BadUtf8(bs) => e matches Error::UTFError(v) && v@ == bs,
                    },
                },
            },
            r is Ok <==> decoded_picture(data@) is Some,
    {
        let bytes = match base64_decode(data) {
            Ok(v) => v,
            Err(e) => {
                return Err(Error::PictureError(e));
            },
        };
        Self::from_bytes(bytes.as_slice())
    }

    /// Builds a picture of the generic `Other` type around raw image bytes,
    /// guessing the MIME type from the bytes when none is given.
    ///
    /// Fails exactly when no MIME type is given and none can be guessed.
    pub fn from_data(data: Vec<u8>, mime_type: Option<String>) -> (r: Result<Self, Error>)
        ensures
            match r {
                Ok(p) => {
                    &&& p@.picture_type == PictureType::Other
                    &&& p@.description == Seq::<char>::empty()
                    &&& p@.data == data@
                    &&& match mime_type {
                        Some(m) => p@.mime_type == m@,
                        None => sniffed_mime(data@) == Some(p@.mime_type),
                    }
                },
                Err(e) => {
                    &&& mime_type is None
                    &&& sniffed_mime(data@) is None
                    &&& e == Error::PictureError(PictureError::NoMimeType)
                },
            },
    {
        let mime = match mime_type {
            Some(m) => m,
            None => match infer_mime(&data) {
                Some(m) => m,
                None => {
                    return Err(Error::PictureError(PictureError::NoMimeType));
                },
            },
        };
        let mut pic = Self::new();
        pic.mime_type = mime;
        pic.data = data;
        Ok(pic)
    }
}

/// Decoding a picture block yields back exactly what was encoded.
pub proof fn lemma_picture_bytes_roundtrip(p: PictureModel)
    requires
        picture_encodable(p),
    ensures
        picture_parse(picture_bytes(p)) == PictureParse::Parsed(p),
{
    broadcast use encode_utf8_valid_utf8;
    broadcast use encode_utf8_decode_utf8;

    let mime_b = encode_utf8(p.mime_type);
    let desc_b = encode_utf8(p.description);
    let code = picture_type_code(p.picture_type);
    let b = picture_bytes(p);
    let m = mime_b.len() as int;
    let d = desc_b.len() as int;
    let k = p.data.len() as int;
    lemma_picture_type_code_inverse(p.picture_type);
    assert(zeros16().len() == 16);
    assert(u32_be_bytes(code).len() == 4);
    assert(u32_be_bytes(m as u32).len() == 4);
    assert(u32_be_bytes(d as u32).len() == 4);
    assert(u32_be_bytes(k as u32).len() == 4);
    assert(b.len() == 32 + m + d + k);
    assert(b.subrange(0, 4) =~= u32_be_bytes(code));
    assert(b.subrange(4, 8) =~= u32_be_bytes(m as u32));
    assert(b.subrange(8, 8 + m) =~= mime_b);
    assert(b.subrange(8 + m, 12 + m) =~= u32_be_bytes(d as u32));
    assert(b.subrange(12 + m, 12 + m + d) =~= desc_b);
    assert(b.subrange(28 + m + d, 32 + m + d) =~= u32_be_bytes(k as u32));
    assert(b.subrange(32 + m + d, 32 + m + d + k) =~= p.data);
    lemma_u32_be_roundtrip(code);
    assert(u32_of_be(b[0], b[1], b[2], b[3]) == code);
    lemma_u32_be_roundtrip(m as u32);
    assert(u32_of_be(b[4], b[5], b[6], b[7]) == m as u32);
    lemma_u32_be_roundtrip(d as u32);
    assert(u32_of_be(b[8 + m], b[8 + m + 1], b[8 + m + 2], b[8 + m + 3]) == d as u32);
    lemma_u32_be_roundtrip(k as u32);
    assert(u32_of_be(b[28 + m + d], b[28 + m + d + 1], b[28 + m + d + 2], b[28 + m + d + 3])
        == k as u32);
}

/// A comment value that decodes, as base64, to the encoding of a picture
/// `p` stores exactly `p`; in particular any value written by
/// [`Picture::to_base64`] reads back unchanged.
pub proof fn lemma_picture_base64_roundtrip(p: PictureModel, s: Seq<char>)
    requires
        picture_encodable(p),
        base64_decoding(s) == Some(picture_bytes(p)),
    ensures
        decoded_picture(s) == Some(p),
{
    lemma_picture_bytes_roundtrip(p);
}

} // verus!
