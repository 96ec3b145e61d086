//! What a screenshot transfer looks like on the control socket.

use vstd::prelude::*;

use crate::text::lowercase;

verus! {

/// Bytes of screenshot data that one chunk carries at most.
///
/// Chunking is required rather than cosmetic: the server refreshes its keepalive deadline only
/// between whole packets, so a capture sent as one packet would be read as a disconnection.
pub const SCREENSHOT_CHUNK_SIZE: usize = 262_144;

/// Size in bytes of the largest screenshot the server takes.
pub const SCREENSHOT_MAX_SIZE: u64 = 67_108_864;

/// Announces a transfer.
pub struct ScreenshotStart {
    pub id: u32,
    pub extension: String,
    pub chunk_count: u32,
    pub total_size: u64,
}

/// One piece of an announced transfer.
pub struct ScreenshotChunk {
    pub id: u32,
    pub chunk_index: u32,
    pub data: Vec<u8>,
}

/// A packet the client sends for a screenshot.
pub enum ControlPacket {
    ScreenshotStart(ScreenshotStart),
    ScreenshotChunk(ScreenshotChunk),
}

/// What a [`ScreenshotStart`] says.
#[verifier::ext_equal]
pub ghost struct Start {
    pub id: u32,
    pub extension: Seq<char>,
    pub chunk_count: u32,
    pub total_size: u64,
}

/// What a [`ScreenshotChunk`] says.
#[verifier::ext_equal]
pub ghost struct Chunk {
    pub id: u32,
    pub index: u32,
    pub data: Seq<u8>,
}

/// What a [`ControlPacket`] says.
#[verifier::ext_equal]
pub ghost enum Packet {
    Start(Start),
    Chunk(Chunk),
}

impl View for ScreenshotStart {
    type V = Start;

    open spec fn view(&self) -> Start {
        Start {
            id: self.id,
            extension: self.extension@,
            chunk_count: self.chunk_count,
            total_size: self.total_size,
        }
    }
}

impl View for ScreenshotChunk {
    type V = Chunk;

    open spec fn view(&self) -> Chunk {
        Chunk { id: self.id, index: self.chunk_index, data: self.data@ }
    }
}

impl View for ControlPacket {
    type V = Packet;

    open spec fn view(&self) -> Packet {
        match self {
            ControlPacket::ScreenshotStart(start) => Packet::Start(start@),
            ControlPacket::ScreenshotChunk(chunk) => Packet::Chunk(chunk@),
        }
    }
}

/// Extensions that are forwarded and stored. The headset decides the encoding; nothing is ever
/// transcoded. Videos share the folder of the screenshots and are left out.
pub open spec fn is_allowed_extension(extension: Seq<char>) -> bool {
    extension == "jpeg"@ || extension == "jpg"@ || extension == "png"@
}

/// Lower case leaves an allowed extension as it is.
pub proof fn allowed_extensions_are_in_lower_case(extension: Seq<char>)
    requires
        is_allowed_extension(extension),
    ensures
        lowercase(extension) == extension,
{
    reveal_strlit("jpeg");
    reveal_strlit("jpg");
    reveal_strlit("png");
    assert(lowercase(extension) =~= extension);
}

pub(crate) fn extension_is_allowed(extension: &String) -> (allowed: bool)
    ensures
        allowed == is_allowed_extension(extension@),
{
    *extension == "jpeg".to_owned() || *extension == "jpg".to_owned() || *extension
        == "png".to_owned()
}

/// A packet says what its fields hold.
pub proof fn packets_say_what_they_hold(start: ScreenshotStart, chunk: ScreenshotChunk)
    ensures
        start@.id == start.id,
        start@.extension == start.extension@,
        start@.chunk_count == start.chunk_count,
        start@.total_size == start.total_size,
        chunk@.id == chunk.id,
        chunk@.index == chunk.chunk_index,
        chunk@.data == chunk.data@,
        ControlPacket::ScreenshotStart(start)@ == Packet::Start(start@),
        ControlPacket::ScreenshotChunk(chunk)@ == Packet::Chunk(chunk@),
{
}

/// The formats are JPEG, under two extensions, and PNG. A chunk takes 256 KiB and a screenshot
/// 64 MiB.
pub proof fn formats_and_sizes(extension: Seq<char>)
    ensures
        is_allowed_extension(extension) <==> extension == seq!['j', 'p', 'e', 'g'] || extension
            == seq!['j', 'p', 'g'] || extension == seq!['p', 'n', 'g'],
        SCREENSHOT_CHUNK_SIZE == 256 * 1024,
        SCREENSHOT_MAX_SIZE == 64 * 1024 * 1024,
{
    reveal_strlit("jpeg");
    reveal_strlit("jpg");
    reveal_strlit("png");
    assert("jpeg"@ =~= seq!['j', 'p', 'e', 'g']);
    assert("jpg"@ =~= seq!['j', 'p', 'g']);
    assert("png"@ =~= seq!['p', 'n', 'g']);
}

} // verus!
