//! Splits a screenshot into packets and decides, packet by packet, how its upload goes on.

use vstd::prelude::*;

use crate::packets::Chunk;
use crate::packets::ControlPacket;
use crate::packets::Packet;
use crate::packets::ScreenshotChunk;
use crate::packets::ScreenshotStart;
use crate::packets::Start;
use crate::packets::SCREENSHOT_CHUNK_SIZE;

verus! {

/// A capture found on the headset, already read into memory.
pub struct FoundScreenshot {
    pub display_name: String,
    pub extension: String,
    pub data: Vec<u8>,
}

/// What a [`FoundScreenshot`] holds.
#[verifier::ext_equal]
pub ghost struct Found {
    pub display_name: Seq<char>,
    pub extension: Seq<char>,
    pub data: Seq<u8>,
}

impl View for FoundScreenshot {
    type V = Found;

    open spec fn view(&self) -> Found {
        Found {
            display_name: self.display_name@,
            extension: self.extension@,
            data: self.data@,
        }
    }
}

/// How many chunks of full size it takes to hold `len` bytes; even no bytes take one.
pub open spec fn chunks_needed(len: nat) -> nat {
    if len == 0 {
        1
    } else {
        (len + SCREENSHOT_CHUNK_SIZE - 1) as nat / SCREENSHOT_CHUNK_SIZE as nat
    }
}

/// The smaller of two numbers.
pub open spec fn smaller(a: int, b: int) -> int {
    if a < b {
        a
    } else {
        b
    }
}

/// The bytes that chunk `index` carries: all chunks but the last are full.
pub open spec fn chunk_data(data: Seq<u8>, index: int) -> Seq<u8> {
    data.subrange(
        smaller(index * SCREENSHOT_CHUNK_SIZE, data.len() as int),
        smaller((index + 1) * SCREENSHOT_CHUNK_SIZE, data.len() as int),
    )
}

/// The announcement of a screenshot.
pub open spec fn start_packet(id: u32, screenshot: Found) -> Start {
    Start {
        id,
        extension: screenshot.extension,
        chunk_count: chunks_needed(screenshot.data.len()) as u32,
        total_size: screenshot.data.len() as u64,
    }
}

/// Chunk `index` of a screenshot.
pub open spec fn chunk_packet(id: u32, screenshot: Found, index: int) -> Chunk {
    Chunk { id, index: index as u32, data: chunk_data(screenshot.data, index) }
}

/// All that is sent for a screenshot, in order: the announcement, then every chunk. Nothing is
/// sent for an empty capture.
pub open spec fn packets_of(id: u32, screenshot: Found) -> Seq<Packet> {
    if screenshot.data.len() == 0 {
        Seq::empty()
    } else {
        Seq::new(
            1 + chunks_needed(screenshot.data.len()),
            |n: int|
                if n == 0 {
                    Packet::Start(start_packet(id, screenshot))
                } else {
                    Packet::Chunk(chunk_packet(id, screenshot, n - 1))
                },
        )
    }
}

/// How many control-socket sized chunks `len` bytes are split into.
pub fn chunk_count(len: usize) -> (count: u32)
    ensures
        count == chunks_needed(len as nat) as u32,
{
    count_chunks(len) as u32
}

fn count_chunks(len: usize) -> (count: usize)
    ensures
        count == chunks_needed(len as nat),
        len > 0 ==> (count - 1) * SCREENSHOT_CHUNK_SIZE < len <= count * SCREENSHOT_CHUNK_SIZE,
{
    if len == 0 {
        1
    } else {
        (len - 1) / SCREENSHOT_CHUNK_SIZE + 1
    }
}

/// What the sender of a screenshot does next.
pub enum SendStep {
    /// Send this packet, then report whether it went out.
    Send(ControlPacket),
    /// Stop: the whole screenshot went out, or it did not.
    Done(bool),
}

/// The upload of one screenshot.
pub struct ScreenshotUpload<'a> {
    id: u32,
    screenshot: &'a FoundScreenshot,
    sent: usize,
    chunks: usize,
}

impl<'a> ScreenshotUpload<'a> {
    pub closed spec fn id(&self) -> u32 {
        self.id
    }

    pub closed spec fn screenshot(&self) -> Found {
        self.screenshot@
    }

    /// How many packets have been handed out.
    pub closed spec fn sent(&self) -> nat {
        self.sent as nat
    }

    /// Every packet of the upload, in order.
    pub open spec fn packets(&self) -> Seq<Packet> {
        packets_of(self.id(), self.screenshot())
    }

    /// The upload is in a state it can reach.
    pub closed spec fn wf(&self) -> bool {
        &&& self.chunks == chunks_needed(self.screenshot@.data.len())
        &&& self.sent <= self.packets().len()
    }

    /// Prepares the upload of a screenshot.
    pub fn new(id: u32, screenshot: &'a FoundScreenshot) -> (upload: Self)
        ensures
            upload.wf(),
            upload.id() == id,
            upload.screenshot() == screenshot@,
            upload.sent() == 0,
    {
        let chunks = count_chunks(screenshot.data.len());
        ScreenshotUpload { id, screenshot, sent: 0, chunks }
    }

    /// The next step of the upload. `connected` says whether everything so far went out: once a
    /// packet fails the connection is gone, and the partial transfer dies with the server side
    /// assembler. An empty capture is never announced, since the server would reject it anyway;
    /// it can come up if the capture was still being written when it was read.
    pub fn next_step(&mut self, connected: bool) -> (step: SendStep)
        requires
            old(self).wf(),
        ensures
            final(self).wf(),
            final(self).id() == old(self).id(),
            final(self).screenshot() == old(self).screenshot(),
            ({
                let packets = old(self).packets();
                let sent = old(self).sent();
                if packets.len() == 0 || !connected {
                    &&& step == SendStep::Done(false)
                    &&& final(self).sent() == sent
                } else if sent == packets.len() {
                    &&& step == SendStep::Done(true)
                    &&& final(self).sent() == sent
                } else {
                    &&& step matches SendStep::Send(packet)
                    &&& packet@ == packets[sent as int]
                    &&& final(self).sent() == sent + 1
                }
            }),
    {
        let len: usize = self.screenshot.data.len();
        if len == 0 || !connected {
            return SendStep::Done(false);
        }
        if self.sent == 0 {
            self.sent = 1;
            return SendStep::Send(
                ControlPacket::ScreenshotStart(
                    ScreenshotStart {
                        id: self.id,
                        extension: self.screenshot.extension.clone(),
                        chunk_count: chunk_count(len),
                        total_size: len as u64,
                    },
                ),
            );
        }
        let index: usize = self.sent - 1;
        if index == self.chunks {
            return SendStep::Done(true);
        }
        let from: usize = index * SCREENSHOT_CHUNK_SIZE;
        let to: usize = if len - from > SCREENSHOT_CHUNK_SIZE {
            from + SCREENSHOT_CHUNK_SIZE
        } else {
            len
        };
        let data = vstd::slice::slice_to_vec(
            vstd::slice::slice_subrange(self.screenshot.data.as_slice(), from, to),
        );
        self.sent = self.sent + 1;
        SendStep::Send(
            ControlPacket::ScreenshotChunk(
                ScreenshotChunk { id: self.id, chunk_index: index as u32, data },
            ),
        )
    }
}

/// Whether `send`, on a connection in state `before`, may report this outcome for this packet and
/// leave the connection in state `after`.
pub open spec fn sends<C, F: FnMut(C, &ControlPacket) -> (C, bool)>(
    send: F,
    before: C,
    packet: Packet,
    after: C,
    went_out: bool,
) -> bool {
    exists|sent: ControlPacket| #[trigger]
        call_ensures(send, (before, &sent), (after, went_out)) && sent@ == packet
}

/// Whether sending the packets one after another, each once, may take the connection through these
/// states, where every packet went out but the last is reported as `last_went_out`.
pub open spec fn sends_in_order<C, F: FnMut(C, &ControlPacket) -> (C, bool)>(
    send: F,
    packets: Seq<Packet>,
    states: Seq<C>,
    last_went_out: bool,
) -> bool {
    &&& states.len() == packets.len() + 1
    &&& forall|n: int|
        0 <= n < packets.len() ==> sends(
            send,
            states[n],
            #[trigger] packets[n],
            states[n + 1],
            n < packets.len() - 1 || last_went_out,
        )
}

/// Whether an upload of these packets may take the connection from `before` to `after` with this
/// outcome. It is delivered once all have gone out, and not where there are none or one fails; the
/// packets after that one are not sent.
pub open spec fn uploads<C, F: FnMut(C, &ControlPacket) -> (C, bool)>(
    send: F,
    packets: Seq<Packet>,
    before: C,
    after: C,
    delivered: bool,
) -> bool {
    exists|states: Seq<C>|
        {
            &&& states.len() > 0
            &&& states.first() == before
            &&& states.last() == after
            &&& states.len() - 1 <= packets.len()
            &&& delivered ==> states.len() - 1 == packets.len() && packets.len() > 0
            &&& !delivered ==> states.len() > 1 || packets.len() == 0
            &&& #[trigger] sends_in_order(
                send,
                packets.take(states.len() - 1),
                states,
                delivered,
            )
        }
}

/// Sends one screenshot over the control socket. Returns false if the connection went away
/// mid-transfer, in which case the partial transfer dies with the server side assembler.
///
/// `send` hands one packet to the connection and tells whether it went out. It is called once per
/// packet, so that the connection is free for other packets in between.
pub fn send_screenshot<C, F: FnMut(C, &ControlPacket) -> (C, bool)>(
    connection: C,
    id: u32,
    screenshot: &FoundScreenshot,
    send: F,
) -> (outcome: (C, bool))
    requires
        forall|connection: C, packet: &ControlPacket| call_requires(send, (connection, packet)),
    ensures
        uploads(send, packets_of(id, screenshot@), connection, outcome.0, outcome.1),
{
    let mut upload = ScreenshotUpload::new(id, screenshot);
    let ghost packets = packets_of(id, screenshot@);
    let ghost mut states: Seq<C> = seq![connection];
    let mut sending = send;
    let mut current = connection;
    let mut connected = true;
    loop
        invariant
            sending == send,
            forall|connection: C, packet: &ControlPacket|
                call_requires(send, (connection, packet)),
            packets == packets_of(id, screenshot@),
            upload.wf(),
            upload.packets() == packets,
            upload.sent() <= packets.len(),
            states.len() == upload.sent() + 1,
            states.first() == connection,
            states.last() == current,
            sends_in_order(send, packets.take(upload.sent() as int), states, connected),
            !connected ==> upload.sent() > 0,
        decreases packets.len() - upload.sent(),
    {
        let ghost sent = upload.sent() as int;
        match upload.next_step(connected) {
            SendStep::Send(packet) => {
                let ghost before = current;
                let (after, went_out) = sending(current, &packet);
                current = after;
                connected = went_out;
                proof {
                    assert(sends(send, before, packets[sent], after, went_out));
                    lemma_one_more_sent(send, packets, states, sent, after, went_out);
                    states = states.push(after);
                }
            },
            SendStep::Done(delivered) => {
                assert(sends_in_order(send, packets.take(states.len() - 1), states, delivered));
                return (current, delivered);
            },
        }
    }
}

proof fn lemma_one_more_sent<C, F: FnMut(C, &ControlPacket) -> (C, bool)>(
    send: F,
    packets: Seq<Packet>,
    states: Seq<C>,
    sent: int,
    after: C,
    went_out: bool,
)
    requires
        0 <= sent < packets.len(),
        sends_in_order(send, packets.take(sent), states, true),
        sends(send, states.last(), packets[sent], after, went_out),
    ensures
        sends_in_order(send, packets.take(sent + 1), states.push(after), went_out),
{
    let more = packets.take(sent + 1);
    let next = states.push(after);
    assert forall|n: int| 0 <= n < more.len() implies sends(
        send,
        next[n],
        #[trigger] more[n],
        next[n + 1],
        n < more.len() - 1 || went_out,
    ) by {
        if n < sent {
            assert(packets.take(sent)[n] == more[n]);
        }
    }
}

/// A connection that is given packets, of which it carries some, is given those of the screenshot
/// in order and each once, up to the first that it does not carry. The screenshot is delivered
/// exactly if it is not empty and the connection carries every packet of it. `given` tells what a
/// connection was given so far.
pub proof fn delivery_needs_every_packet<C, F: FnMut(C, &ControlPacket) -> (C, bool)>(
    send: F,
    given: spec_fn(C) -> Seq<Packet>,
    carried: Set<Packet>,
    packets: Seq<Packet>,
    before: C,
    after: C,
    delivered: bool,
)
    requires
        keeps_account(send, given, carried),
        given(before).len() == 0,
        uploads(send, packets, before, after, delivered),
    ensures
        given(after).is_prefix_of(packets),
        delivered == (packets.len() > 0 && forall|n: int|
            0 <= n < packets.len() ==> carried.contains(#[trigger] packets[n])),
        delivered ==> given(after) == packets,
        !delivered && packets.len() > 0 ==> {
            &&& given(after).len() > 0
            &&& !carried.contains(given(after).last())
            &&& forall|n: int|
                0 <= n < given(after).len() - 1 ==> carried.contains(#[trigger] packets[n])
        },
{
    let states = choose|states: Seq<C>|
        {
            &&& states.len() > 0
            &&& states.first() == before
            &&& states.last() == after
            &&& states.len() - 1 <= packets.len()
            &&& delivered ==> states.len() - 1 == packets.len() && packets.len() > 0
            &&& !delivered ==> states.len() > 1 || packets.len() == 0
            &&& #[trigger] sends_in_order(
                send,
                packets.take(states.len() - 1),
                states,
                delivered,
            )
        };
    let count = states.len() - 1;
    let part = packets.take(count);
    lemma_given(send, given, carried, part, states, delivered, count);
    assert(part.take(count) =~= part);
    assert forall|n: int| 0 <= n < count implies carried.contains(#[trigger] packets[n]) == (n
        < count - 1 || delivered) by {
        assert(packets[n] == part[n]);
        assert(sends(send, states[n], part[n], states[n + 1], n < count - 1 || delivered));
    }
    if delivered {
        assert(packets.take(count) =~= packets);
    } else if packets.len() > 0 {
        assert(!carried.contains(packets[count - 1]));
    }
}

/// Whether `send` gives the connection every packet, and reports those that it carries.
pub open spec fn keeps_account<C, F: FnMut(C, &ControlPacket) -> (C, bool)>(
    send: F,
    given: spec_fn(C) -> Seq<Packet>,
    carried: Set<Packet>,
) -> bool {
    forall|before: C, packet: ControlPacket, after: C, went_out: bool| #[trigger]
        call_ensures(send, (before, &packet), (after, went_out)) ==> {
            &&& given(after) == given(before).push(packet@)
            &&& went_out == carried.contains(packet@)
        }
}

proof fn lemma_given<C, F: FnMut(C, &ControlPacket) -> (C, bool)>(
    send: F,
    given: spec_fn(C) -> Seq<Packet>,
    carried: Set<Packet>,
    packets: Seq<Packet>,
    states: Seq<C>,
    delivered: bool,
    n: int,
)
    requires
        keeps_account(send, given, carried),
        sends_in_order(send, packets, states, delivered),
        given(states.first()).len() == 0,
        0 <= n <= packets.len(),
    ensures
        given(states[n]) == packets.take(n),
    decreases n,
{
    if n == 0 {
        assert(given(states[0]) =~= packets.take(0));
    } else {
        lemma_given(send, given, carried, packets, states, delivered, n - 1);
        assert(sends(
            send,
            states[n - 1],
            packets[n - 1],
            states[n],
            n - 1 < packets.len() - 1 || delivered,
        ));
        assert(packets.take(n) =~= packets.take(n - 1).push(packets[n - 1]));
    }
}

/// An upload holds the screenshot that it is of, and its packets are those of the screenshot.
pub proof fn uploads_are_of_their_screenshot(upload: ScreenshotUpload, found: FoundScreenshot)
    ensures
        upload.packets() == packets_of(upload.id(), upload.screenshot()),
        found@.display_name == found.display_name@,
        found@.extension == found.extension@,
        found@.data == found.data@,
{
}

/// As many chunks are needed as hold the bytes when all but the last are full; no bytes take one.
pub proof fn chunks_needed_are_enough_and_no_more(len: nat)
    ensures
        len == 0 ==> chunks_needed(len) == 1,
        len > 0 ==> (chunks_needed(len) - 1) * SCREENSHOT_CHUNK_SIZE < len <= chunks_needed(len)
            * SCREENSHOT_CHUNK_SIZE,
{
}

/// What is sent for a screenshot: nothing for an empty one. Otherwise the announcement, with the
/// number of chunks and of bytes, and then the chunks in order, each with its part of the bytes.
/// The parts are as long as a chunk may be, but for the last, and no packet carries more.
pub proof fn packets_carry_the_bytes_in_order(id: u32, screenshot: Found)
    ensures
        ({
            let packets = packets_of(id, screenshot);
            let data = screenshot.data;
            let count = packets.len() - 1;
            &&& data.len() == 0 ==> packets.len() == 0
            &&& data.len() > 0 ==> {
                &&& 0 < count
                &&& (count - 1) * SCREENSHOT_CHUNK_SIZE < data.len()
                &&& data.len() <= count * SCREENSHOT_CHUNK_SIZE
                &&& packets[0] == Packet::Start(
                    Start {
                        id,
                        extension: screenshot.extension,
                        chunk_count: count as u32,
                        total_size: data.len() as u64,
                    },
                )
                &&& forall|n: int|
                    1 <= n <= count ==> {
                        &&& #[trigger] packets[n] matches Packet::Chunk(chunk)
                        &&& chunk.id == id
                        &&& chunk.index == (n - 1) as u32
                        &&& chunk.data.len() <= SCREENSHOT_CHUNK_SIZE
                        &&& n < count ==> chunk.data.len() == SCREENSHOT_CHUNK_SIZE
                        &&& chunk.data == data.subrange(
                            (n - 1) * SCREENSHOT_CHUNK_SIZE,
                            if n < count {
                                n * SCREENSHOT_CHUNK_SIZE
                            } else {
                                data.len() as int
                            },
                        )
                    }
            }
        }),
{
}

/// Whatever a connection answers, and however its answers change, it is sent the packets in order
/// and each once, up to the first that does not go out and none after it. The upload is delivered
/// exactly if there are packets and all have gone out. `sent` tells what a connection was sent so
/// far, and whether it went out.
pub proof fn sending_stops_at_the_first_failure<C, F: FnMut(C, &ControlPacket) -> (C, bool)>(
    send: F,
    sent: spec_fn(C) -> Seq<(Packet, bool)>,
    packets: Seq<Packet>,
    before: C,
    after: C,
    delivered: bool,
)
    requires
        forall|from: C, packet: ControlPacket, to: C, went_out: bool| #[trigger]
            call_ensures(send, (from, &packet), (to, went_out)) ==> sent(to) == sent(from).push(
                (packet@, went_out),
            ),
        sent(before).len() == 0,
        uploads(send, packets, before, after, delivered),
    ensures
        sent(after).len() <= packets.len(),
        forall|n: int| 0 <= n < sent(after).len() ==> (#[trigger] sent(after)[n]).0 == packets[n],
        forall|n: int| 0 <= n < sent(after).len() - 1 ==> (#[trigger] sent(after)[n]).1,
        packets.len() > 0 ==> sent(after).len() > 0,
        delivered <==> packets.len() > 0 && sent(after).len() == packets.len()
            && sent(after).last().1,
        packets.len() > 0 && sent(after).last().1 ==> delivered,
{
    let states = choose|states: Seq<C>|
        {
            &&& states.len() > 0
            &&& states.first() == before
            &&& states.last() == after
            &&& states.len() - 1 <= packets.len()
            &&& delivered ==> states.len() - 1 == packets.len() && packets.len() > 0
            &&& !delivered ==> states.len() > 1 || packets.len() == 0
            &&& #[trigger] sends_in_order(
                send,
                packets.take(states.len() - 1),
                states,
                delivered,
            )
        };
    let count = states.len() - 1;
    lemma_sent(send, sent, packets.take(count), states, delivered, count);
}

proof fn lemma_sent<C, F: FnMut(C, &ControlPacket) -> (C, bool)>(
    send: F,
    sent: spec_fn(C) -> Seq<(Packet, bool)>,
    packets: Seq<Packet>,
    states: Seq<C>,
    delivered: bool,
    n: int,
)
    requires
        forall|from: C, packet: ControlPacket, to: C, went_out: bool| #[trigger]
            call_ensures(send, (from, &packet), (to, went_out)) ==> sent(to) == sent(from).push(
                (packet@, went_out),
            ),
        sends_in_order(send, packets, states, delivered),
        sent(states.first()).len() == 0,
        0 <= n <= packets.len(),
    ensures
        sent(states[n]) == Seq::new(
            n as nat,
            |i: int| (packets[i], i < packets.len() - 1 || delivered),
        ),
    decreases n,
{
    let expected = |k: int|
        Seq::new(k as nat, |i: int| (packets[i], i < packets.len() - 1 || delivered));
    if n == 0 {
        assert(sent(states[0]) =~= expected(0));
    } else {
        lemma_sent(send, sent, packets, states, delivered, n - 1);
        assert(sends(
            send,
            states[n - 1],
            packets[n - 1],
            states[n],
            n - 1 < packets.len() - 1 || delivered,
        ));
        assert(expected(n) =~= expected(n - 1).push(
            (packets[n - 1], n - 1 < packets.len() - 1 || delivered),
        ));
    }
}

} // verus!
