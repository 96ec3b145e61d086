//! Reassembles screenshots from the chunks that arrive over the control socket.

use std::collections::HashMap;

use vstd::prelude::*;

use crate::packets::extension_is_allowed;
use crate::packets::formats_and_sizes;
use crate::packets::is_allowed_extension;
use crate::packets::Chunk;
use crate::packets::ScreenshotChunk;
use crate::packets::ScreenshotStart;
use crate::packets::Start;
use crate::packets::SCREENSHOT_MAX_SIZE;
use crate::text::lowercase;
use crate::text::to_lowercase;

verus! {

/// A transfer whose chunks have not all arrived: what was announced, and the chunks received so
/// far under their indices.
#[verifier::ext_equal]
pub ghost struct Transfer {
    pub extension: Seq<char>,
    pub chunk_count: u32,
    pub total_size: u64,
    pub chunks: Map<u32, Seq<u8>>,
}

/// A screenshot as it leaves the assembler.
#[verifier::ext_equal]
pub ghost struct Completed {
    pub extension: Seq<char>,
    pub data: Seq<u8>,
}

/// The chunk with the given index, or nothing while it is missing.
pub open spec fn piece(chunks: Map<u32, Seq<u8>>, index: u32) -> Seq<u8> {
    if chunks.contains_key(index) {
        chunks[index]
    } else {
        Seq::empty()
    }
}

/// The received bytes of the first `count` chunks, in the order of the indices.
pub open spec fn joined(chunks: Map<u32, Seq<u8>>, count: nat) -> Seq<u8>
    decreases count,
{
    if count == 0 {
        Seq::empty()
    } else {
        joined(chunks, (count - 1) as nat) + piece(chunks, (count - 1) as u32)
    }
}

/// Whether every chunk has arrived.
pub open spec fn all_present(chunks: Map<u32, Seq<u8>>, count: u32) -> bool {
    forall|index: u32| index < count ==> #[trigger] chunks.contains_key(index)
}

impl Transfer {
    /// The bytes received so far, in the order of their chunks.
    pub open spec fn received(self) -> Seq<u8> {
        joined(self.chunks, self.chunk_count as nat)
    }

    /// What holds of every transfer that waits for chunks.
    pub open spec fn valid(self) -> bool {
        &&& is_acceptable(self.extension, self.chunk_count, self.total_size)
        &&& self.chunks.dom().finite()
        &&& forall|index: u32| #[trigger]
            self.chunks.contains_key(index) ==> index < self.chunk_count
        &&& !all_present(self.chunks, self.chunk_count)
        &&& self.received().len() <= self.total_size
    }
}

/// What holds of the transfers in flight at any time.
pub open spec fn valid_pending(pending: Map<u32, Transfer>) -> bool {
    &&& pending.dom().finite()
    &&& forall|id: u32| #[trigger] pending.contains_key(id) ==> pending[id].valid()
}

/// Whether an announcement is taken; `extension` is in lower case here.
pub open spec fn is_acceptable(extension: Seq<char>, chunk_count: u32, total_size: u64) -> bool {
    &&& is_allowed_extension(extension)
    &&& 0 < total_size <= SCREENSHOT_MAX_SIZE
    &&& 0 < chunk_count
}

/// The transfers in flight after an announcement whose extension is in lower case. A transfer
/// announced under an id that is in use takes the place of the stale one.
pub open spec fn after_begin(
    pending: Map<u32, Transfer>,
    id: u32,
    extension: Seq<char>,
    chunk_count: u32,
    total_size: u64,
) -> Map<u32, Transfer> {
    if is_acceptable(extension, chunk_count, total_size) {
        pending.insert(
            id,
            Transfer { extension, chunk_count, total_size, chunks: Map::empty() },
        )
    } else {
        pending
    }
}

/// The transfers in flight after an announcement.
pub open spec fn after_start(pending: Map<u32, Transfer>, start: Start) -> Map<u32, Transfer> {
    after_begin(
        pending,
        start.id,
        lowercase(start.extension),
        start.chunk_count,
        start.total_size,
    )
}

/// What becomes of a transfer when a chunk for it arrives: the transfer that goes on waiting, if
/// it does, and the screenshot, if it is complete.
pub open spec fn receive(transfer: Transfer, index: u32, data: Seq<u8>) -> (
    Option<Transfer>,
    Option<Completed>,
) {
    let updated = Transfer { chunks: transfer.chunks.insert(index, data), ..transfer };
    if index >= transfer.chunk_count {
        (None, None)
    } else if updated.received().len() > transfer.total_size {
        (None, None)
    } else if !all_present(updated.chunks, transfer.chunk_count) {
        (Some(updated), None)
    } else if updated.received().len() != transfer.total_size {
        (None, None)
    } else {
        (None, Some(Completed { extension: transfer.extension, data: updated.received() }))
    }
}

/// The transfers in flight after a chunk, and the screenshot that the chunk completes.
pub open spec fn after_chunk(pending: Map<u32, Transfer>, chunk: Chunk) -> (
    Map<u32, Transfer>,
    Option<Completed>,
) {
    if !pending.contains_key(chunk.id) {
        (pending, None)
    } else {
        let (waiting, completed) = receive(pending[chunk.id], chunk.index, chunk.data);
        match waiting {
            Some(transfer) => (pending.insert(chunk.id, transfer), completed),
            None => (pending.remove(chunk.id), completed),
        }
    }
}

struct PartialScreenshot {
    extension: String,
    chunk_count: u32,
    total_size: u64,
    /// Kept sparse so out-of-order or duplicate chunks are handled without extra bookkeeping.
    chunks: HashMap<u32, Vec<u8>>,
    received_size: u64,
}

impl View for PartialScreenshot {
    type V = Transfer;

    closed spec fn view(&self) -> Transfer {
        Transfer {
            extension: self.extension@,
            chunk_count: self.chunk_count,
            total_size: self.total_size,
            chunks: self.chunks@.map_values(|data: Vec<u8>| data@),
        }
    }
}

impl PartialScreenshot {
    spec fn wf(self) -> bool {
        &&& self@.valid()
        &&& self.received_size == self@.received().len()
    }
}

/// A screenshot reassembled from control socket chunks, ready to be written to disk.
pub struct CompletedScreenshot {
    pub extension: String,
    pub data: Vec<u8>,
}

impl View for CompletedScreenshot {
    type V = Completed;

    open spec fn view(&self) -> Completed {
        Completed { extension: self.extension@, data: self.data@ }
    }
}

/// Reassembles in-flight screenshot transfers. One instance per client connection: dropping it
/// discards partial transfers, so an interrupted upload never reaches the filesystem.
pub struct ScreenshotAssembler {
    transfers: HashMap<u32, PartialScreenshot>,
}

impl View for ScreenshotAssembler {
    type V = Map<u32, Transfer>;

    closed spec fn view(&self) -> Map<u32, Transfer> {
        self.transfers@.map_values(|transfer: PartialScreenshot| transfer@)
    }
}

proof fn lemma_joined_unchanged(chunks: Map<u32, Seq<u8>>, count: nat, index: u32, data: Seq<u8>)
    requires
        count <= index,
    ensures
        joined(chunks.insert(index, data), count) == joined(chunks, count),
    decreases count,
{
    if count > 0 {
        lemma_joined_unchanged(chunks, (count - 1) as nat, index, data);
    }
}

proof fn lemma_joined_len(chunks: Map<u32, Seq<u8>>, count: nat, index: u32, data: Seq<u8>)
    requires
        index < count <= u32::MAX,
    ensures
        joined(chunks.insert(index, data), count).len() + piece(chunks, index).len() == joined(
            chunks,
            count,
        ).len() + data.len(),
        piece(chunks, index).len() <= joined(chunks, count).len(),
    decreases count,
{
    if count - 1 == index {
        lemma_joined_unchanged(chunks, (count - 1) as nat, index, data);
    } else {
        lemma_joined_len(chunks, (count - 1) as nat, index, data);
    }
}

pub(crate) proof fn lemma_joined_empty(count: nat)
    ensures
        joined(Map::<u32, Seq<u8>>::empty(), count) == Seq::<u8>::empty(),
    decreases count,
{
    if count > 0 {
        lemma_joined_empty((count - 1) as nat);
        assert(joined(Map::<u32, Seq<u8>>::empty(), count) =~= Seq::<u8>::empty());
    }
}

proof fn lemma_index_range(count: u32)
    ensures
        Set::new(|index: u32| index < count).finite(),
        Set::new(|index: u32| index < count).len() == count,
    decreases count,
{
    let range = Set::new(|index: u32| index < count);
    if count == 0 {
        assert(range =~= Set::empty());
    } else {
        let below = (count - 1) as u32;
        lemma_index_range(below);
        assert(range =~= Set::new(|index: u32| index < below).insert(below));
    }
}

proof fn lemma_all_present(chunks: Map<u32, Seq<u8>>, count: u32)
    requires
        chunks.dom().finite(),
        forall|index: u32| #[trigger] chunks.contains_key(index) ==> index < count,
    ensures
        chunks.dom().len() == count <==> all_present(chunks, count),
{
    let range = Set::new(|index: u32| index < count);
    lemma_index_range(count);
    if chunks.dom().len() == count {
        vstd::set_lib::lemma_subset_equality(chunks.dom(), range);
        assert forall|index: u32| index < count implies #[trigger] chunks.contains_key(index) by {
            assert(range.contains(index));
        }
    }
    if all_present(chunks, count) {
        assert forall|index: u32| range.contains(index) implies chunks.dom().contains(index) by {
            assert(chunks.contains_key(index));
        }
        assert(chunks.dom() =~= range);
    }
}

impl ScreenshotAssembler {
    /// The assembler is in a state it can reach.
    pub closed spec fn wf(&self) -> bool {
        &&& self.transfers@.dom().finite()
        &&& forall|id: u32| #[trigger]
            self.transfers@.contains_key(id) ==> self.transfers@[id].wf()
    }

    /// Every transfer in flight is one that was accepted and is still short of a chunk.
    pub proof fn pending_transfers_are_valid(&self)
        requires
            self.wf(),
        ensures
            valid_pending(self@),
    {
        assert(self@.dom() =~= self.transfers@.dom());
    }

    pub fn new() -> (assembler: Self)
        ensures
            assembler.wf(),
            assembler@ == Map::<u32, Transfer>::empty(),
    {
        let assembler = ScreenshotAssembler { transfers: HashMap::new() };
        assert(assembler@ =~= Map::<u32, Transfer>::empty());
        assembler
    }

    /// Opens a transfer. An announcement with an unsupported extension, an empty or oversized
    /// payload or no chunks is ignored.
    pub fn handle_start(&mut self, start: ScreenshotStart)
        requires
            old(self).wf(),
        ensures
            final(self).wf(),
            final(self)@ == after_start(old(self)@, start@),
    {
        let extension = to_lowercase(start.extension.as_str());
        self.begin_transfer(start.id, extension, start.chunk_count, start.total_size);
    }

    /// Opens a transfer whose extension is in lower case already.
    pub fn begin_transfer(
        &mut self,
        id: u32,
        extension: String,
        chunk_count: u32,
        total_size: u64,
    )
        requires
            old(self).wf(),
        ensures
            final(self).wf(),
            final(self)@ == after_begin(
                old(self)@,
                id,
                extension@,
                chunk_count,
                total_size,
            ),
    {
        if !extension_is_allowed(&extension) {
            return ;
        }
        if total_size == 0 || total_size > SCREENSHOT_MAX_SIZE {
            return ;
        }
        if chunk_count == 0 {
            return ;
        }
        // A restarted transfer with a reused id replaces the stale one instead of merging into it.
        let transfer = PartialScreenshot {
            extension,
            chunk_count,
            total_size,
            chunks: HashMap::new(),
            received_size: 0,
        };
        proof {
            assert(transfer@.chunks =~= Map::<u32, Seq<u8>>::empty());
            lemma_joined_empty(chunk_count as nat);
            assert(!transfer@.chunks.contains_key(0));
        }
        self.transfers.insert(id, transfer);
        assert(self@ =~= old(self)@.insert(id, transfer@));
    }

    /// Takes in a chunk. Returns the screenshot once its last missing chunk arrives.
    pub fn handle_chunk(&mut self, chunk: ScreenshotChunk) -> (completed: Option<
        CompletedScreenshot,
    >)
        requires
            old(self).wf(),
        ensures
            final(self).wf(),
            final(self)@ == after_chunk(old(self)@, chunk@).0,
            match completed {
                Some(screenshot) => after_chunk(old(self)@, chunk@).1 == Some(screenshot@),
                None => after_chunk(old(self)@, chunk@).1 is None,
            },
    {
        let ghost index = chunk.chunk_index;
        let ghost data = chunk.data@;
        let mut transfer = match self.transfers.remove(&chunk.id) {
            Some(transfer) => transfer,
            None => {
                assert(self@ =~= old(self)@);
                return None;
            },
        };
        let ghost before = transfer@;
        assert(old(self)@.contains_key(chunk.id));
        assert(old(self)@[chunk.id] == before);
        assert(self@ =~= old(self)@.remove(chunk.id));

        if chunk.chunk_index >= transfer.chunk_count {
            return None;
        }
        let added: u64 = chunk.data.len() as u64;
        let replaced: u64 = match transfer.chunks.insert(chunk.chunk_index, chunk.data) {
            Some(stale) => stale.len() as u64,
            None => 0,
        };
        let ghost chunks = before.chunks.insert(index, data);
        proof {
            assert(transfer@.chunks =~= chunks);
            assert(replaced == piece(before.chunks, index).len());
            lemma_joined_len(before.chunks, before.chunk_count as nat, index, data);
            lemma_all_present(chunks, before.chunk_count);
            assert(transfer.chunks@.dom() =~= chunks.dom());
        }
        let kept: u64 = transfer.received_size - replaced;
        if added > transfer.total_size - kept {
            return None;
        }
        transfer.received_size = kept + added;

        if transfer.chunks.len() as u64 != transfer.chunk_count as u64 {
            let ghost waiting = transfer@;
            self.transfers.insert(chunk.id, transfer);
            assert(self@ =~= old(self)@.insert(chunk.id, waiting));
            return None;
        }
        if transfer.received_size != transfer.total_size {
            return None;
        }
        let data = Self::join_chunks(&transfer);
        Some(CompletedScreenshot { extension: transfer.extension, data })
    }

    fn join_chunks(transfer: &PartialScreenshot) -> (data: Vec<u8>)
        requires
            all_present(transfer@.chunks, transfer.chunk_count),
        ensures
            data@ == transfer@.received(),
    {
        let mut data: Vec<u8> = Vec::with_capacity(transfer.total_size as usize);
        let mut index: u32 = 0;
        while index < transfer.chunk_count
            invariant
                index <= transfer.chunk_count,
                all_present(transfer@.chunks, transfer.chunk_count),
                data@ == joined(transfer@.chunks, index as nat),
            decreases transfer.chunk_count - index,
        {
            assert(transfer@.chunks.contains_key(index));
            if let Some(chunk) = transfer.chunks.get(&index) {
                let ghost head = data@;
                data.extend_from_slice(chunk.as_slice());
                assert(data@ =~= head + chunk@);
            }
            index = index + 1;
        }
        data
    }

    /// How many transfers are in flight.
    pub fn pending_count(&self) -> (count: usize)
        requires
            self.wf(),
        ensures
            count == self@.len(),
    {
        assert(self@.dom() =~= self.transfers@.dom());
        self.transfers.len()
    }
}

impl Default for ScreenshotAssembler {
    fn default() -> (assembler: Self)
        ensures
            assembler.wf(),
            assembler@ == Map::<u32, Transfer>::empty(),
    {
        ScreenshotAssembler::new()
    }
}

/// A screenshot that is complete says what its fields hold.
pub proof fn completed_screenshots_say_what_they_hold(screenshot: CompletedScreenshot)
    ensures
        screenshot@.extension == screenshot.extension@,
        screenshot@.data == screenshot.data@,
{
}

/// The chunks received, in the order of their indices and with nothing for those that are missing,
/// put together.
pub proof fn received_bytes_are_the_chunks_in_order(chunks: Map<u32, Seq<u8>>, count: nat)
    requires
        count <= u32::MAX,
    ensures
        joined(chunks, count) == Seq::new(
            count,
            |i: int|
                if chunks.contains_key(i as u32) {
                    chunks[i as u32]
                } else {
                    Seq::empty()
                },
        ).flatten(),
    decreases count,
{
    let part = |i: int|
        if chunks.contains_key(i as u32) {
            chunks[i as u32]
        } else {
            Seq::empty()
        };
    let parts = Seq::new(count, part);
    if count > 0 {
        let below = (count - 1) as nat;
        received_bytes_are_the_chunks_in_order(chunks, below);
        let before = Seq::new(below, part);
        assert(parts =~= before.push(part(below as int)));
        before.lemma_flatten_push(part(below as int));
    }
}

/// An announcement opens a transfer exactly if the extension in lower case is one of the three
/// that are supported, the size is neither zero nor over the cap, and there is a chunk. The
/// transfer is as announced and has received nothing. Nothing else changes.
pub proof fn supported_announcements_open_a_transfer(
    pending: Map<u32, Transfer>,
    start: Start,
    other: u32,
)
    ensures
        ({
            let extension = lowercase(start.extension);
            let supported = {
                ||| extension == seq!['j', 'p', 'e', 'g']
                ||| extension == seq!['j', 'p', 'g']
                ||| extension == seq!['p', 'n', 'g']
            };
            let after = after_start(pending, start);
            &&& after == after_begin(
                pending,
                start.id,
                extension,
                start.chunk_count,
                start.total_size,
            )
            &&& if supported && start.total_size > 0 && start.total_size <= SCREENSHOT_MAX_SIZE
                && start.chunk_count > 0 {
                &&& after.contains_key(start.id)
                &&& after[start.id].extension == extension
                &&& after[start.id].chunk_count == start.chunk_count
                &&& after[start.id].total_size == start.total_size
                &&& after[start.id].chunks == Map::<u32, Seq<u8>>::empty()
            } else {
                after == pending
            }
            &&& other != start.id ==> {
                &&& after.contains_key(other) <==> pending.contains_key(other)
                &&& pending.contains_key(other) ==> after[other] == pending[other]
            }
        }),
{
    formats_and_sizes(lowercase(start.extension));
}

/// The same of an announcement whose extension is taken as it is.
pub proof fn begun_transfers_are_as_announced(
    pending: Map<u32, Transfer>,
    id: u32,
    extension: Seq<char>,
    chunk_count: u32,
    total_size: u64,
    other: u32,
)
    ensures
        ({
            let supported = {
                ||| extension == seq!['j', 'p', 'e', 'g']
                ||| extension == seq!['j', 'p', 'g']
                ||| extension == seq!['p', 'n', 'g']
            };
            let after = after_begin(pending, id, extension, chunk_count, total_size);
            &&& if supported && total_size > 0 && total_size <= SCREENSHOT_MAX_SIZE && chunk_count
                > 0 {
                &&& after.contains_key(id)
                &&& after[id].extension == extension
                &&& after[id].chunk_count == chunk_count
                &&& after[id].total_size == total_size
                &&& after[id].chunks == Map::<u32, Seq<u8>>::empty()
            } else {
                after == pending
            }
            &&& other != id ==> {
                &&& after.contains_key(other) <==> pending.contains_key(other)
                &&& pending.contains_key(other) ==> after[other] == pending[other]
            }
        }),
{
    formats_and_sizes(extension);
}

/// A chunk is decided by what its transfer has received with it. While that is not too much and a
/// chunk is missing, the transfer waits, with the chunk under its index. Once none is missing, a
/// screenshot comes out exactly if the bytes are as many as announced: the chunks in the order of
/// their indices, under the announced extension. In all other cases the transfer ends without one.
/// Other transfers are not touched, and a chunk without a transfer changes nothing.
pub proof fn chunks_complete_or_end_their_transfer(
    pending: Map<u32, Transfer>,
    chunk: Chunk,
    other: u32,
)
    ensures
        ({
            let (after, completed) = after_chunk(pending, chunk);
            let transfer = pending[chunk.id];
            let count = transfer.chunk_count;
            let chunks = transfer.chunks.insert(chunk.index, chunk.data);
            let bytes = Seq::new(
                count as nat,
                |i: int|
                    if chunks.contains_key(i as u32) {
                        chunks[i as u32]
                    } else {
                        Seq::empty()
                    },
            ).flatten();
            let missing = exists|index: u32|
                index < count && !#[trigger] chunks.contains_key(index);
            &&& !pending.contains_key(chunk.id) ==> after == pending && completed is None
            &&& pending.contains_key(chunk.id) ==> {
                if chunk.index < count && missing && bytes.len() <= transfer.total_size {
                    &&& completed is None
                    &&& after.contains_key(chunk.id)
                    &&& after[chunk.id].extension == transfer.extension
                    &&& after[chunk.id].chunk_count == transfer.chunk_count
                    &&& after[chunk.id].total_size == transfer.total_size
                    &&& after[chunk.id].chunks == chunks
                } else {
                    &&& !after.contains_key(chunk.id)
                    &&& completed is Some <==> chunk.index < count && !missing && bytes.len()
                        == transfer.total_size
                    &&& completed is Some ==> completed->0.extension == transfer.extension
                        && completed->0.data == bytes
                }
            }
            &&& other != chunk.id ==> {
                &&& after.contains_key(other) <==> pending.contains_key(other)
                &&& pending.contains_key(other) ==> after[other] == pending[other]
            }
        }),
{
    let transfer = pending[chunk.id];
    let chunks = transfer.chunks.insert(chunk.index, chunk.data);
    received_bytes_are_the_chunks_in_order(chunks, transfer.chunk_count as nat);
}

} // verus!
