//! The bridge to the Ogg container: logical packets of an in-memory
//! stream, read and written through the `ogg` crate.
//!
//! A packet is modelled as its data bytes, its stream serial, its absolute
//! granule position, and its two boundary flags; the byte-level framing is
//! the `ogg` crate's business and stays behind the trusted items below.

use vstd::prelude::*;

use crate::error::Error;

verus! {

/// One logical packet read from an Ogg stream.
pub struct OggPacket {
    /// The packet's payload bytes.
    pub data: Vec<u8>,
    /// The serial number of the logical bitstream the packet belongs to.
    pub serial: u32,
    /// The absolute granule position of the page the packet ended in.
    pub absgp: u64,
    /// Whether the packet is the last one of its page.
    pub last_in_page: bool,
    /// Whether the packet is the last one of the whole stream.
    pub last_in_stream: bool,
}

impl View for OggPacket {
    type V = (Seq<u8>, u32, u64, bool, bool);

    open spec fn view(&self) -> (Seq<u8>, u32, u64, bool, bool) {
        (self.data@, self.serial, self.absgp, self.last_in_page, self.last_in_stream)
    }
}

/// Where a packet ends when it is written: nowhere special, at a page
/// boundary, or at the end of the whole stream.
#[derive(Debug, Clone, Copy)]
pub enum PacketBoundary {
    NormalPacket,
    EndPage,
    EndStream,
}

/// A small integer standing for a boundary in packet models.
pub open spec fn boundary_code(b: PacketBoundary) -> int {
    match b {
        PacketBoundary::NormalPacket => 0,
        PacketBoundary::EndPage => 1,
        PacketBoundary::EndStream => 2,
    }
}

/// One logical packet to be written to an Ogg stream.
pub struct OutPacket {
    /// The packet's payload bytes.
    pub data: Vec<u8>,
    /// The serial number of the logical bitstream the packet belongs to.
    pub serial: u32,
    /// The absolute granule position to record for the packet.
    pub absgp: u64,
    /// Where the packet ends.
    pub boundary: PacketBoundary,
}

impl View for OutPacket {
    type V = (Seq<u8>, u32, u64, int);

    open spec fn view(&self) -> (Seq<u8>, u32, u64, int) {
        (self.data@, self.serial, self.absgp, boundary_code(self.boundary))
    }
}

/// The boundary a packet read from a stream carries forward when it is
/// written back: end of stream wins over end of page.
pub open spec fn spec_end_info(p: (Seq<u8>, u32, u64, bool, bool)) -> int {
    if p.4 {
        2
    } else if p.3 {
        1
    } else {
        0
    }
}

/// The boundary to write a copied packet with.
pub fn get_end_info(packet: &OggPacket) -> (r: PacketBoundary)
    ensures
        boundary_code(r) == spec_end_info(packet@),
{
    if packet.last_in_stream {
        PacketBoundary::EndStream
    } else if packet.last_in_page {
        PacketBoundary::EndPage
    } else {
        PacketBoundary::NormalPacket
    }
}

/// The models of a list of read packets.
pub open spec fn packets_model(ps: Seq<OggPacket>) -> Seq<(Seq<u8>, u32, u64, bool, bool)> {
    ps.map_values(|p: OggPacket| p@)
}

/// The models of a list of packets to write.
pub open spec fn out_packets_model(ps: Seq<OutPacket>) -> Seq<(Seq<u8>, u32, u64, int)> {
    ps.map_values(|p: OutPacket| p@)
}

/// The logical packets that an Ogg reader yields from the stream bytes, in
/// order, before it reports either a clean end or an error.
pub uninterp spec fn ogg_packets(stream: Seq<u8>) -> Seq<(Seq<u8>, u32, u64, bool, bool)>;

/// Whether the reader reaches a clean end of the stream after yielding
/// [`ogg_packets`], rather than an error.
pub uninterp spec fn ogg_read_ok(stream: Seq<u8>) -> bool;

/// The stream bytes that an Ogg writer assembles from the given packet
/// models, when writing succeeds.
pub uninterp spec fn ogg_assembled(packets: Seq<(Seq<u8>, u32, u64, int)>) -> Option<Seq<u8>>;

/// Reads the first packet of an Ogg stream held in memory.
///
/// Relies on the `ogg` crate: `PacketReader::new` over an in-memory cursor,
/// `read_packet`, and the `Packet` accessors `stream_serial`, `absgp_page`,
/// `last_in_page` and `last_in_stream`.
#[verifier::external_body]
pub(crate) fn ogg_read_first(stream: &[u8]) -> (r: Result<Option<OggPacket>, Error>)
    ensures
        match r {
            Ok(Some(p)) => ogg_packets(stream@).len() >= 1 && p@ == ogg_packets(stream@)[0],
            Ok(None) => ogg_packets(stream@).len() == 0 && ogg_read_ok(stream@),
            Err(e) => e == Error::ReadError && ogg_packets(stream@).len() == 0 && !ogg_read_ok(
                stream@,
            ),
        },
{
    let mut reader = ogg::PacketReader::new(std::io::Cursor::new(stream));
    match reader.read_packet() {
        Err(_) => Err(Error::ReadError),
        Ok(None) => Ok(None),
        Ok(Some(p)) => Ok(Some(OggPacket { serial: p.stream_serial(), absgp: p.absgp_page(), last_in_page: p.last_in_page(), last_in_stream: p.last_in_stream(), data: p.data })),
    }
}

/// Reads the second packet of an Ogg stream held in memory.
///
/// Relies on the `ogg` crate: `PacketReader::new` over an in-memory cursor,
/// `read_packet` twice, and the `Packet` accessors.
#[verifier::external_body]
pub(crate) fn ogg_read_second(stream: &[u8]) -> (r: Result<Option<OggPacket>, Error>)
    ensures
        match r {
            Ok(Some(p)) => ogg_packets(stream@).len() >= 2 && p@ == ogg_packets(stream@)[1],
            Ok(None) => ogg_packets(stream@).len() <= 1 && ogg_read_ok(stream@),
            Err(e) => e == Error::ReadError && ogg_packets(stream@).len() <= 1 && !ogg_read_ok(
                stream@,
            ),
        },
{
    let mut reader = ogg::PacketReader::new(std::io::Cursor::new(stream));
    match reader.read_packet() {
        Err(_) => return Err(Error::ReadError),
        Ok(None) => return Ok(None),
        Ok(Some(_)) => {},
    }
    match reader.read_packet() {
        Err(_) => Err(Error::ReadError),
        Ok(None) => Ok(None),
        Ok(Some(p)) => Ok(Some(OggPacket { serial: p.stream_serial(), absgp: p.absgp_page(), last_in_page: p.last_in_page(), last_in_stream: p.last_in_stream(), data: p.data })),
    }
}

/// Reads every packet of an Ogg stream held in memory.
///
/// Relies on the `ogg` crate: `PacketReader::new` over an in-memory cursor,
/// `read_packet` until the stream ends, and the `Packet` accessors.
#[verifier::external_body]
pub(crate) fn ogg_read_all(stream: &[u8]) -> (r: Result<Vec<OggPacket>, Error>)
    ensures
        match r {
            Ok(ps) => packets_model(ps@) == ogg_packets(stream@) && ogg_read_ok(stream@),
            Err(e) => e == Error::ReadError && !ogg_read_ok(stream@),
        },
{
    let mut ps: Vec<OggPacket> = Vec::new();
    let mut reader = ogg::PacketReader::new(std::io::Cursor::new(stream));
    loop {
        match reader.read_packet() {
            Err(_) => return Err(Error::ReadError),
            Ok(None) => return Ok(ps),
            Ok(Some(p)) => ps.push(OggPacket { serial: p.stream_serial(), absgp: p.absgp_page(), last_in_page: p.last_in_page(), last_in_stream: p.last_in_stream(), data: p.data }),
        }
    }
}

/// Writes logical packets into a fresh in-memory Ogg stream.
///
/// Relies on the `ogg` crate: `PacketWriter::new` over an in-memory buffer
/// and `write_packet` for each packet, with its boundary mapped onto the
/// crate's `PacketWriteEndInfo`.
#[verifier::external_body]
pub(crate) fn ogg_write_stream(packets: Vec<OutPacket>) -> (r: Result<Vec<u8>, Error>)
    ensures
        match r {
            Ok(bytes) => ogg_assembled(out_packets_model(packets@)) == Some(bytes@),
            Err(e) => e == Error::DataError && ogg_assembled(out_packets_model(packets@)) is None,
        },
{
    let mut buf: Vec<u8> = Vec::new();
    let mut writer = ogg::PacketWriter::new(std::io::Cursor::new(&mut buf));
    for p in packets {
        let inf = match p.boundary {
            PacketBoundary::NormalPacket => ogg::PacketWriteEndInfo::NormalPacket,
            PacketBoundary::EndPage => ogg::PacketWriteEndInfo::EndPage,
            PacketBoundary::EndStream => ogg::PacketWriteEndInfo::EndStream,
        };
        if writer.write_packet(p.data, p.serial, inf, p.absgp).is_err() {
            return Err(Error::DataError);
        }
    }
    Ok(buf)
}

} // verus!
