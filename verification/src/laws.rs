//! What holds of a screenshot on its way from the client to the server.

use vstd::prelude::*;

use crate::assembler::after_chunk;
use crate::assembler::after_start;
use crate::assembler::all_present;
use crate::assembler::is_acceptable;
use crate::assembler::joined;
use crate::assembler::lemma_joined_empty;
use crate::assembler::valid_pending;
use crate::assembler::Completed;
use crate::assembler::Transfer;
use crate::filter::forwarded_extension;
use crate::packets::allowed_extensions_are_in_lower_case;
use crate::packets::is_allowed_extension;
use crate::packets::Chunk;
use crate::packets::Packet;
use crate::packets::Start;
use crate::packets::SCREENSHOT_CHUNK_SIZE;
use crate::packets::SCREENSHOT_MAX_SIZE;
use crate::text::lowercase;
use crate::upload::chunk_data;
use crate::upload::chunk_packet;
use crate::upload::chunks_needed;
use crate::upload::packets_of;
use crate::upload::smaller;
use crate::upload::start_packet;
use crate::upload::Found;

verus! {

/// A screenshot that left the assembler, and the id it was sent under.
#[verifier::ext_equal]
pub ghost struct Arrival {
    pub id: u32,
    pub screenshot: Completed,
}

/// The id of the transfer that a packet belongs to.
pub open spec fn packet_id(packet: Packet) -> u32 {
    match packet {
        Packet::Start(start) => start.id,
        Packet::Chunk(chunk) => chunk.id,
    }
}

/// The server after one packet: the transfers in flight and the screenshots received.
pub open spec fn deliver_one(
    state: (Map<u32, Transfer>, Seq<Arrival>),
    packet: Packet,
) -> (Map<u32, Transfer>, Seq<Arrival>) {
    match packet {
        Packet::Start(start) => (after_start(state.0, start), state.1),
        Packet::Chunk(chunk) => {
            let (pending, completed) = after_chunk(state.0, chunk);
            match completed {
                Some(screenshot) => (
                    pending,
                    state.1.push(Arrival { id: chunk.id, screenshot }),
                ),
                None => (pending, state.1),
            }
        },
    }
}

/// The server after a sequence of packets.
pub open spec fn deliver(pending: Map<u32, Transfer>, packets: Seq<Packet>) -> (
    Map<u32, Transfer>,
    Seq<Arrival>,
)
    decreases packets.len(),
{
    if packets.len() == 0 {
        (pending, Seq::empty())
    } else {
        deliver_one(deliver(pending, packets.drop_last()), packets.last())
    }
}

/// An announcement followed by the pieces of its data, in the order given.
pub open spec fn piece_packets(
    start: Start,
    pieces: Seq<Seq<u8>>,
    order: Seq<int>,
) -> Seq<Packet> {
    seq![Packet::Start(start)] + order.map_values(
        |index: int|
            Packet::Chunk(Chunk { id: start.id, index: index as u32, data: pieces[index] }),
    )
}

/// Whether `order` names indices below `count` only.
pub open spec fn names_indices(count: nat, order: Seq<int>) -> bool {
    forall|i: int| 0 <= i < order.len() ==> 0 <= #[trigger] order[i] < count
}

/// Whether `order` names every index below `count`, some perhaps more than once.
pub open spec fn names_every_index(count: nat, order: Seq<int>) -> bool {
    forall|index: int| 0 <= index < count ==> #[trigger] order.contains(index)
}

/// Whether the server takes an announcement, and it announces these pieces.
pub open spec fn announces(start: Start, pieces: Seq<Seq<u8>>) -> bool {
    &&& is_acceptable(lowercase(start.extension), start.chunk_count, start.total_size)
    &&& start.chunk_count == pieces.len()
    &&& start.total_size == pieces.flatten().len()
}

/// The pieces that `order` names.
spec fn pieces_named(pieces: Seq<Seq<u8>>, order: Seq<int>) -> Map<u32, Seq<u8>> {
    Map::new(|index: u32| order.contains(index as int), |index: u32| pieces[index as int])
}

spec fn waiting_after(start: Start, pieces: Seq<Seq<u8>>, order: Seq<int>) -> Transfer {
    Transfer {
        extension: lowercase(start.extension),
        chunk_count: start.chunk_count,
        total_size: start.total_size,
        chunks: pieces_named(pieces, order),
    }
}

/// What has been received of some pieces is no longer than the pieces, and is the pieces put
/// together once none is missing.
proof fn lemma_joined_pieces(chunks: Map<u32, Seq<u8>>, pieces: Seq<Seq<u8>>, count: nat)
    requires
        count <= pieces.len() <= u32::MAX,
        forall|index: u32| #[trigger]
            chunks.contains_key(index) && index < pieces.len() ==> chunks[index]
                == pieces[index as int],
    ensures
        joined(chunks, count).len() <= pieces.take(count as int).flatten().len(),
        (forall|index: u32| index < count ==> #[trigger] chunks.contains_key(index)) ==> joined(
            chunks,
            count,
        ) == pieces.take(count as int).flatten(),
    decreases count,
{
    if count > 0 {
        let below = (count - 1) as nat;
        lemma_joined_pieces(chunks, pieces, below);
        assert(pieces.take(count as int) =~= pieces.take(below as int).push(pieces[below as int]));
        pieces.take(below as int).lemma_flatten_push(pieces[below as int]);
        if forall|index: u32| index < count ==> #[trigger] chunks.contains_key(index) {
            assert(chunks.contains_key(below as u32));
        }
    }
}

proof fn lemma_waiting(
    pending: Map<u32, Transfer>,
    start: Start,
    pieces: Seq<Seq<u8>>,
    order: Seq<int>,
)
    requires
        announces(start, pieces),
        names_indices(pieces.len(), order),
        !names_every_index(pieces.len(), order),
    ensures
        deliver(pending, piece_packets(start, pieces, order)) == (
            pending.insert(start.id, waiting_after(start, pieces, order)),
            Seq::<Arrival>::empty(),
        ),
    decreases order.len(),
{
    let packets = piece_packets(start, pieces, order);
    if order.len() == 0 {
        assert(packets.drop_last() =~= Seq::<Packet>::empty());
        assert(pieces_named(pieces, order) =~= Map::<u32, Seq<u8>>::empty());
        assert(deliver(pending, packets.drop_last()) == (pending, Seq::<Arrival>::empty()));
    } else {
        let before = order.drop_last();
        let missing = choose|index: int|
            0 <= index < pieces.len() && !#[trigger] order.contains(index);
        assert(packets.drop_last() =~= piece_packets(start, pieces, before));
        assert(!before.contains(missing));
        lemma_waiting(pending, start, pieces, before);
        lemma_one_more(pieces, order);
        let updated = waiting_after(start, pieces, order);
        lemma_joined_pieces(updated.chunks, pieces, pieces.len());
        assert(pieces.take(pieces.len() as int) =~= pieces);
        assert(!updated.chunks.contains_key(missing as u32));
        assert(pending.insert(start.id, waiting_after(start, pieces, before)).insert(
            start.id,
            updated,
        ) =~= pending.insert(start.id, updated));
    }
}

proof fn lemma_one_more(pieces: Seq<Seq<u8>>, order: Seq<int>)
    requires
        pieces.len() <= u32::MAX,
        names_indices(pieces.len(), order),
        order.len() > 0,
    ensures
        pieces_named(pieces, order) == pieces_named(pieces, order.drop_last()).insert(
            order.last() as u32,
            pieces[order.last()],
        ),
{
    let before = order.drop_last();
    assert forall|index: int| #[trigger] order.contains(index) implies before.contains(index)
        || index == order.last() by {
        let at = choose|i: int| 0 <= i < order.len() && order[i] == index;
        if at < before.len() {
            assert(before[at] == index);
        }
    }
    assert forall|index: int| #[trigger] before.contains(index) implies order.contains(index) by {
        let at = choose|i: int| 0 <= i < before.len() && before[i] == index;
        assert(order[at] == index);
    }
    assert(order[order.len() - 1] == order.last());
    assert(order.contains(order.last()));
    assert(pieces_named(pieces, order) =~= pieces_named(pieces, before).insert(
        order.last() as u32,
        pieces[order.last()],
    ));
}

/// While a piece is missing nothing arrives, however the data was split, in whatever order the
/// other pieces come and however often: the transfer goes on waiting with what it has received, and
/// no other transfer is touched.
pub proof fn nothing_arrives_while_a_piece_is_missing(
    pending: Map<u32, Transfer>,
    start: Start,
    pieces: Seq<Seq<u8>>,
    order: Seq<int>,
)
    requires
        announces(start, pieces),
        names_indices(pieces.len(), order),
        !names_every_index(pieces.len(), order),
    ensures
        ({
            let (waiting, arrivals) = deliver(pending, piece_packets(start, pieces, order));
            &&& arrivals == Seq::<Arrival>::empty()
            &&& waiting.remove(start.id) == pending.remove(start.id)
            &&& waiting.contains_key(start.id)
            &&& forall|index: u32| #[trigger]
                waiting[start.id].chunks.contains_key(index) <==> order.contains(index as int)
            &&& forall|index: u32| #[trigger]
                waiting[start.id].chunks.contains_key(index) ==> waiting[start.id].chunks[index]
                    == pieces[index as int]
        }),
{
    lemma_waiting(pending, start, pieces, order);
    assert(pending.insert(start.id, waiting_after(start, pieces, order)).remove(start.id)
        =~= pending.remove(start.id));
}

/// The piece that was missing last completes the transfer: however the data was split, in whatever
/// order the pieces come, and with whatever repetitions, the data arrives once, whole, and with its
/// extension in lower case. The transfer is over then, and no other transfer is touched.
pub proof fn pieces_arrive_in_any_order(
    pending: Map<u32, Transfer>,
    start: Start,
    pieces: Seq<Seq<u8>>,
    order: Seq<int>,
)
    requires
        announces(start, pieces),
        names_indices(pieces.len(), order),
        names_every_index(pieces.len(), order),
        !names_every_index(pieces.len(), order.drop_last()),
    ensures
        deliver(pending, piece_packets(start, pieces, order)) == (
            pending.remove(start.id),
            seq![
                Arrival {
                    id: start.id,
                    screenshot: Completed {
                        extension: lowercase(start.extension),
                        data: pieces.flatten(),
                    },
                },
            ],
        ),
{
    let packets = piece_packets(start, pieces, order);
    assert(order.contains(0));
    let before = order.drop_last();
    assert(packets.drop_last() =~= piece_packets(start, pieces, before));
    lemma_waiting(pending, start, pieces, before);
    lemma_one_more(pieces, order);
    let updated = waiting_after(start, pieces, order);
    assert forall|index: u32| index < updated.chunk_count implies #[trigger]
    updated.chunks.contains_key(index) by {
        assert(order.contains(index as int));
    }
    lemma_joined_pieces(updated.chunks, pieces, pieces.len());
    assert(pieces.take(pieces.len() as int) =~= pieces);
    assert(pending.insert(start.id, waiting_after(start, pieces, before)).remove(start.id)
        =~= pending.remove(start.id));
}

/// The chunks that the client splits data into.
pub open spec fn chunks_of(data: Seq<u8>) -> Seq<Seq<u8>> {
    Seq::new(chunks_needed(data.len()), |index: int| chunk_data(data, index))
}

/// The announcement of a screenshot followed by its chunks in the order given.
pub open spec fn packets_in_order(id: u32, screenshot: Found, order: Seq<int>) -> Seq<Packet> {
    seq![Packet::Start(start_packet(id, screenshot))] + order.map_values(
        |index: int| Packet::Chunk(chunk_packet(id, screenshot, index)),
    )
}

/// Whether the server takes a screenshot: its format is supported and its size in range.
pub open spec fn is_transferable(screenshot: Found) -> bool {
    &&& is_allowed_extension(lowercase(screenshot.extension))
    &&& 0 < screenshot.data.len() <= SCREENSHOT_MAX_SIZE
}

/// The chunks cover all bytes: there are as many as it takes and no more, none is empty or over
/// size, and put together in order they are the data again.
pub proof fn chunks_cover_all_bytes(data: Seq<u8>)
    requires
        0 < data.len(),
    ensures
        (chunks_of(data).len() - 1) * SCREENSHOT_CHUNK_SIZE < data.len(),
        data.len() <= chunks_of(data).len() * SCREENSHOT_CHUNK_SIZE,
        forall|index: int|
            0 <= index < chunks_of(data).len() ==> 0 < (#[trigger] chunks_of(data)[index]).len()
                <= SCREENSHOT_CHUNK_SIZE,
        chunks_of(data).flatten() == data,
{
    let chunks = chunks_of(data);
    lemma_chunks_prefix(data, chunks.len());
    assert(chunks.take(chunks.len() as int) =~= chunks);
    assert(data.take(data.len() as int) =~= data);
}

proof fn lemma_chunks_prefix(data: Seq<u8>, count: nat)
    requires
        count <= chunks_of(data).len(),
    ensures
        chunks_of(data).take(count as int).flatten() == data.take(
            smaller(count * SCREENSHOT_CHUNK_SIZE, data.len() as int),
        ),
    decreases count,
{
    let chunks = chunks_of(data);
    if count == 0 {
        assert(data.take(0) =~= Seq::<u8>::empty());
        assert(chunks.take(0).flatten() =~= Seq::<u8>::empty());
    } else {
        let below = (count - 1) as nat;
        lemma_chunks_prefix(data, below);
        assert(chunks.take(count as int) =~= chunks.take(below as int).push(chunks[below as int]));
        chunks.take(below as int).lemma_flatten_push(chunks[below as int]);
        assert(chunks.take(count as int).flatten() =~= data.take(
            smaller(count * SCREENSHOT_CHUNK_SIZE, data.len() as int),
        ));
    }
}

proof fn lemma_split_by_the_client(id: u32, screenshot: Found, order: Seq<int>)
    requires
        is_transferable(screenshot),
        names_indices(chunks_needed(screenshot.data.len()), order),
    ensures
        announces(start_packet(id, screenshot), chunks_of(screenshot.data)),
        chunks_of(screenshot.data).flatten() == screenshot.data,
        packets_in_order(id, screenshot, order) == piece_packets(
            start_packet(id, screenshot),
            chunks_of(screenshot.data),
            order,
        ),
{
    chunks_cover_all_bytes(screenshot.data);
    assert(packets_in_order(id, screenshot, order) =~= piece_packets(
        start_packet(id, screenshot),
        chunks_of(screenshot.data),
        order,
    ));
}

/// While a chunk of a screenshot is missing nothing arrives, in whatever order the others come and
/// however often: the transfer goes on waiting, and no other transfer is touched.
pub proof fn nothing_arrives_early(
    pending: Map<u32, Transfer>,
    id: u32,
    screenshot: Found,
    order: Seq<int>,
)
    requires
        is_transferable(screenshot),
        names_indices(chunks_needed(screenshot.data.len()), order),
        !names_every_index(chunks_needed(screenshot.data.len()), order),
    ensures
        deliver(pending, packets_in_order(id, screenshot, order)).0.contains_key(id),
        deliver(pending, packets_in_order(id, screenshot, order)).0.remove(id) == pending.remove(
            id,
        ),
        deliver(pending, packets_in_order(id, screenshot, order)).1 == Seq::<Arrival>::empty(),
{
    lemma_split_by_the_client(id, screenshot, order);
    nothing_arrives_while_a_piece_is_missing(
        pending,
        start_packet(id, screenshot),
        chunks_of(screenshot.data),
        order,
    );
}

/// The chunk that was missing last completes the transfer: in whatever order the chunks of a
/// screenshot come, and with whatever repetitions, the screenshot arrives once, whole, and with its
/// extension in lower case. The transfer is over then, and no other transfer is touched.
pub proof fn chunks_arrive_in_any_order(
    pending: Map<u32, Transfer>,
    id: u32,
    screenshot: Found,
    order: Seq<int>,
)
    requires
        is_transferable(screenshot),
        names_indices(chunks_needed(screenshot.data.len()), order),
        names_every_index(chunks_needed(screenshot.data.len()), order),
        !names_every_index(chunks_needed(screenshot.data.len()), order.drop_last()),
    ensures
        deliver(pending, packets_in_order(id, screenshot, order)) == (
            pending.remove(id),
            seq![
                Arrival {
                    id,
                    screenshot: Completed {
                        extension: lowercase(screenshot.extension),
                        data: screenshot.data,
                    },
                },
            ],
        ),
{
    lemma_split_by_the_client(id, screenshot, order);
    pieces_arrive_in_any_order(
        pending,
        start_packet(id, screenshot),
        chunks_of(screenshot.data),
        order,
    );
}

/// What the client uploads is what the server stores: once all packets of a screenshot are
/// delivered in the order they are sent, exactly that screenshot has arrived.
pub proof fn upload_arrives(pending: Map<u32, Transfer>, id: u32, screenshot: Found)
    requires
        is_transferable(screenshot),
    ensures
        deliver(pending, packets_of(id, screenshot)) == (
            pending.remove(id),
            seq![
                Arrival {
                    id,
                    screenshot: Completed {
                        extension: lowercase(screenshot.extension),
                        data: screenshot.data,
                    },
                },
            ],
        ),
{
    let count = chunks_needed(screenshot.data.len());
    let order = Seq::new(count, |i: int| i);
    assert forall|index: int| 0 <= index < count implies #[trigger] order.contains(index) by {
        assert(order[index] == index);
    }
    assert(!order.drop_last().contains(count - 1));
    chunks_arrive_in_any_order(pending, id, screenshot, order);
    assert(packets_of(id, screenshot) =~= packets_in_order(id, screenshot, order));
}

/// A capture that the client forwards is stored under the very extension it was forwarded with.
pub proof fn forwarded_captures_arrive_unchanged(
    pending: Map<u32, Transfer>,
    id: u32,
    screenshot: Found,
    mime_type: Seq<char>,
)
    requires
        forwarded_extension(screenshot.display_name, mime_type) == Some(screenshot.extension),
        0 < screenshot.data.len() <= SCREENSHOT_MAX_SIZE,
    ensures
        deliver(pending, packets_of(id, screenshot)) == (
            pending.remove(id),
            seq![
                Arrival {
                    id,
                    screenshot: Completed {
                        extension: screenshot.extension,
                        data: screenshot.data,
                    },
                },
            ],
        ),
{
    allowed_extensions_are_in_lower_case(screenshot.extension);
    upload_arrives(pending, id, screenshot);
}

/// The packets that belong to one transfer.
pub open spec fn packets_for(packets: Seq<Packet>, id: u32) -> Seq<Packet> {
    packets.filter(|packet: Packet| packet_id(packet) == id)
}

/// The screenshots that arrived under one id.
pub open spec fn arrivals_for(arrivals: Seq<Arrival>, id: u32) -> Seq<Arrival> {
    arrivals.filter(|arrival: Arrival| arrival.id == id)
}

/// The transfer that waits under an id, if one does.
pub open spec fn waiting_under(pending: Map<u32, Transfer>, id: u32) -> Option<Transfer> {
    if pending.contains_key(id) {
        Some(pending[id])
    } else {
        None
    }
}

/// Transfers do not disturb each other: what waits and what arrives under an id is decided by the
/// packets of that id alone, however packets of other transfers are interleaved with them.
pub proof fn interleaved_transfers_are_independent(
    pending: Map<u32, Transfer>,
    packets: Seq<Packet>,
    id: u32,
)
    ensures
        waiting_under(deliver(pending, packets).0, id) == waiting_under(
            deliver(pending, packets_for(packets, id)).0,
            id,
        ),
        arrivals_for(deliver(pending, packets).1, id) == deliver(
            pending,
            packets_for(packets, id),
        ).1,
    decreases packets.len(),
{
    reveal(Seq::filter);
    let mine = |packet: Packet| packet_id(packet) == id;
    if packets.len() == 0 {
        assert(packets_for(packets, id) =~= Seq::<Packet>::empty());
        assert(arrivals_for(Seq::<Arrival>::empty(), id) =~= Seq::<Arrival>::empty());
    } else {
        let before = packets.drop_last();
        interleaved_transfers_are_independent(pending, before, id);
        let packet = packets.last();
        let all = deliver(pending, before);
        if mine(packet) {
            assert(packets_for(packets, id) =~= packets_for(before, id).push(packet));
            assert(packets_for(packets, id).drop_last() =~= packets_for(before, id));
        } else {
            assert(packets_for(packets, id) =~= packets_for(before, id));
        }
        let next = deliver_one(all, packet);
        if next.1 != all.1 {
            assert(next.1.drop_last() =~= all.1);
        }
    }
}

/// A transfer arrives the same among others: whatever packets of other ids come in between, its
/// data arrives once and whole.
pub proof fn pieces_arrive_among_other_transfers(
    pending: Map<u32, Transfer>,
    packets: Seq<Packet>,
    start: Start,
    pieces: Seq<Seq<u8>>,
    order: Seq<int>,
)
    requires
        packets_for(packets, start.id) == piece_packets(start, pieces, order),
        announces(start, pieces),
        names_indices(pieces.len(), order),
        names_every_index(pieces.len(), order),
        !names_every_index(pieces.len(), order.drop_last()),
    ensures
        arrivals_for(deliver(pending, packets).1, start.id) == seq![
            Arrival {
                id: start.id,
                screenshot: Completed {
                    extension: lowercase(start.extension),
                    data: pieces.flatten(),
                },
            },
        ],
        !deliver(pending, packets).0.contains_key(start.id),
{
    interleaved_transfers_are_independent(pending, packets, start.id);
    pieces_arrive_in_any_order(pending, start, pieces, order);
}

/// Announcing a transfer under an id that is in use discards the stale one: nothing of what was
/// received for it is left, and no other transfer is touched.
pub proof fn restarting_an_id_discards_the_stale_transfer(
    pending: Map<u32, Transfer>,
    start: Start,
)
    requires
        is_acceptable(lowercase(start.extension), start.chunk_count, start.total_size),
    ensures
        after_start(pending, start) == after_start(pending.remove(start.id), start),
        after_start(pending, start).contains_key(start.id),
        after_start(pending, start)[start.id].received() == Seq::<u8>::empty(),
        after_start(pending, start).remove(start.id) == pending.remove(start.id),
{
    assert(after_start(pending, start) =~= after_start(pending.remove(start.id), start));
    assert(after_start(pending, start).remove(start.id) =~= pending.remove(start.id));
    lemma_joined_empty(start.chunk_count as nat);
}

/// A refused announcement changes nothing: one with an unsupported extension, an empty or
/// oversized payload, or no chunks.
pub proof fn refused_announcements_change_nothing(pending: Map<u32, Transfer>, start: Start)
    requires
        !is_allowed_extension(lowercase(start.extension)) || start.total_size == 0
            || start.total_size > SCREENSHOT_MAX_SIZE || start.chunk_count == 0,
    ensures
        after_start(pending, start) == pending,
{
}

/// A chunk that belongs to no transfer is ignored.
pub proof fn chunks_without_start_are_ignored(pending: Map<u32, Transfer>, chunk: Chunk)
    requires
        !pending.contains_key(chunk.id),
    ensures
        after_chunk(pending, chunk) == (pending, None::<Completed>),
{
}

/// A chunk with an index out of range, one that brings more data than was announced, and one that
/// is the last but leaves the transfer short of what was announced, ends its transfer without a
/// screenshot. No other transfer is touched.
pub proof fn misfit_chunks_drop_the_transfer(pending: Map<u32, Transfer>, chunk: Chunk)
    requires
        pending.contains_key(chunk.id),
        ({
            let transfer = pending[chunk.id];
            let chunks = transfer.chunks.insert(chunk.index, chunk.data);
            let received = joined(chunks, transfer.chunk_count as nat).len();
            ||| chunk.index >= transfer.chunk_count
            ||| received > transfer.total_size
            ||| all_present(chunks, transfer.chunk_count) && received != transfer.total_size
        }),
    ensures
        after_chunk(pending, chunk) == (pending.remove(chunk.id), None::<Completed>),
{
}

/// Receiving a chunk again changes nothing while its transfer waits: it is no progress towards
/// the announced count.
pub proof fn duplicate_chunks_change_nothing(pending: Map<u32, Transfer>, chunk: Chunk)
    requires
        valid_pending(pending),
        after_chunk(pending, chunk).0.contains_key(chunk.id),
    ensures
        after_chunk(after_chunk(pending, chunk).0, chunk) == (
            after_chunk(pending, chunk).0,
            None::<Completed>,
        ),
{
    let (next, _) = after_chunk(pending, chunk);
    assert(next[chunk.id].chunks.insert(chunk.index, chunk.data) =~= next[chunk.id].chunks);
    assert(next.insert(chunk.id, next[chunk.id]) =~= next);
}

/// What leaves the assembler is what was announced: a supported format, exactly the announced
/// number of bytes and so never more than the cap, and every chunk in its place.
pub proof fn completed_screenshots_are_as_announced(pending: Map<u32, Transfer>, chunk: Chunk)
    requires
        valid_pending(pending),
        after_chunk(pending, chunk).1 is Some,
    ensures
        pending.contains_key(chunk.id),
        ({
            let transfer = pending[chunk.id];
            let completed = after_chunk(pending, chunk).1->0;
            let chunks = transfer.chunks.insert(chunk.index, chunk.data);
            &&& completed.extension == transfer.extension
            &&& is_allowed_extension(completed.extension)
            &&& completed.data.len() == transfer.total_size
            &&& 0 < completed.data.len() <= SCREENSHOT_MAX_SIZE
            &&& all_present(chunks, transfer.chunk_count)
            &&& completed.data == joined(chunks, transfer.chunk_count as nat)
        }),
        !after_chunk(pending, chunk).0.contains_key(chunk.id),
{
}

/// Whatever packets come in, every transfer in flight stays one that was accepted, still lacks a
/// chunk and has received no more than was announced.
pub proof fn packets_keep_transfers_valid(pending: Map<u32, Transfer>, packets: Seq<Packet>)
    requires
        valid_pending(pending),
    ensures
        valid_pending(deliver(pending, packets).0),
    decreases packets.len(),
{
    if packets.len() > 0 {
        packets_keep_transfers_valid(pending, packets.drop_last());
        match packets.last() {
            Packet::Start(start) => {
                lemma_joined_empty(start.chunk_count as nat);
                assert(!Map::<u32, Seq<u8>>::empty().contains_key(0));
            },
            Packet::Chunk(_) => {},
        }
    }
}

} // verus!
