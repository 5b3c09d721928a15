//! The reliable event channel: at-least-once delivery with per-packet
//! resend tracking on the send side, and duplicate suppression on the
//! receive side.
//!
//! An outgoing event waits in a queue; popping it for a packet moves it
//! into the in-flight list keyed by that packet's sequence number. When
//! the packet is acknowledged the event is discarded; when the packet is
//! declared lost the event re-enters the queue, so no queued event is ever
//! dropped before some packet carrying it has been acknowledged.

use vstd::prelude::*;

verus! {

/// A serialized application event: its manifest variant tag and payload.
pub struct EventRecord {
    /// The manifest-defined variant tag.
    pub naia_id: u16,
    /// The variant's serialized bytes.
    pub payload: Vec<u8>,
}

impl EventRecord {
    /// Copies the record, byte for byte.
    pub fn duplicate(&self) -> (r: EventRecord)
        ensures
            r.naia_id == self.naia_id,
            r.payload@ == self.payload@,
    {
        let payload = self.payload.clone();
        proof {
            assert(payload@ =~= self.payload@);
        }
        EventRecord { naia_id: self.naia_id, payload }
    }
}

/// An event that has been written into a packet that is still unresolved.
pub struct InFlightEvent {
    /// The sequence number of the packet carrying the event.
    pub packet_seq: u16,
    /// The event itself, kept for retransmission on loss.
    pub record: EventRecord,
}

/// How many recently processed `(packet, index)` pairs the receive side
/// remembers for duplicate suppression.
pub const SEEN_CAPACITY: usize = 256;

/// Whether an in-flight entry is carried by packet `s`.
pub open spec fn carried_by(e: InFlightEvent, s: u16) -> bool {
    e.packet_seq == s
}

/// The seen window after one pair is recorded: the oldest pair falls out
/// once the window is full.
pub open spec fn spec_seen_after(seen: Seq<(u16, u8)>, packet_seq: u16, idx: u8) -> Seq<(u16, u8)> {
    (if seen.len() >= SEEN_CAPACITY as int {
        seen.skip(1)
    } else {
        seen
    }).push((packet_seq, idx))
}

/// What the receive side surfaces, and the seen window it leaves, when
/// the event items of one packet run through duplicate suppression from
/// item index `idx` on: each item already inside the window is skipped,
/// every other item is surfaced exactly once and recorded. Item indices
/// past the window capacity are not processed at all.
pub open spec fn spec_delivered(
    seen: Seq<(u16, u8)>,
    packet_seq: u16,
    items: Seq<(u16, Seq<u8>)>,
    idx: int,
) -> (Seq<(u16, Seq<u8>)>, Seq<(u16, u8)>)
    decreases items.len(),
{
    if items.len() == 0 || idx >= SEEN_CAPACITY as int || idx < 0 {
        (Seq::empty(), seen)
    } else if seen.contains((packet_seq, idx as u8)) {
        spec_delivered(seen, packet_seq, items.skip(1), idx + 1)
    } else {
        let rest = spec_delivered(
            spec_seen_after(seen, packet_seq, idx as u8),
            packet_seq,
            items.skip(1),
            idx + 1,
        );
        (seq![items[0]] + rest.0, rest.1)
    }
}

/// Largest event payload the channel accepts: its length must fit the
/// one-byte manifest entry, and then any single event fits a packet body.
pub const MAX_EVENT_PAYLOAD: usize = 255;

/// The reliable event channel of one connection.
pub struct EventManager {
    outgoing: Vec<EventRecord>,
    in_flight: Vec<InFlightEvent>,
    incoming: Vec<EventRecord>,
    seen: Vec<(u16, u8)>,
}

impl EventManager {
    /// Events queued and not currently in flight, oldest first.
    pub closed spec fn outgoing_events(self) -> Seq<EventRecord> {
        self.outgoing@
    }

    /// Events written into packets whose fate is still unknown.
    pub closed spec fn in_flight_events(self) -> Seq<InFlightEvent> {
        self.in_flight@
    }

    /// Received events not yet handed to the application, packet order.
    pub closed spec fn incoming_events(self) -> Seq<EventRecord> {
        self.incoming@
    }

    /// The duplicate-suppression window of `(packet_seq, index)` pairs.
    pub closed spec fn seen_window(self) -> Seq<(u16, u8)> {
        self.seen@
    }

    /// Every tracked outgoing payload fits one packet body.
    pub closed spec fn wf(self) -> bool {
        &&& forall|j: int|
            0 <= j < self.outgoing@.len() ==> (#[trigger] self.outgoing@[j]).payload@.len()
                <= MAX_EVENT_PAYLOAD as int
        &&& forall|j: int|
            0 <= j < self.in_flight@.len() ==> (
            #[trigger] self.in_flight@[j]).record.payload@.len() <= MAX_EVENT_PAYLOAD as int
    }

    /// Creates an empty event channel.
    pub fn new() -> (m: EventManager)
        ensures
            m.wf(),
            m.outgoing_events().len() == 0,
            m.in_flight_events().len() == 0,
            m.incoming_events().len() == 0,
            m.seen_window().len() == 0,
    {
        EventManager {
            outgoing: Vec::new(),
            in_flight: Vec::new(),
            incoming: Vec::new(),
            seen: Vec::new(),
        }
    }

    /// Whether any event waits to be written into a packet.
    pub fn has_outgoing_events(&self) -> (r: bool)
        ensures
            r == (self.outgoing_events().len() > 0),
    {
        self.outgoing.len() > 0
    }

    /// Queues an event for reliable delivery. It stays tracked until a
    /// packet carrying it is acknowledged.
    pub fn queue_outgoing_event(&mut self, naia_id: u16, payload: Vec<u8>)
        requires
            old(self).wf(),
            payload@.len() <= MAX_EVENT_PAYLOAD,
        ensures
            final(self).wf(),
            final(self).outgoing_events() == old(self).outgoing_events().push(
                EventRecord { naia_id, payload },
            ),
            final(self).in_flight_events() == old(self).in_flight_events(),
            final(self).incoming_events() == old(self).incoming_events(),
            final(self).seen_window() == old(self).seen_window(),
    {
        self.outgoing.push(EventRecord { naia_id, payload });
    }

    /// Takes the oldest queued event for packet `packet_seq`: the event
    /// moves to the in-flight list under that sequence number, and a copy
    /// is returned for the packet writer.
    pub fn pop_outgoing_event(&mut self, packet_seq: u16) -> (r: Option<EventRecord>)
        requires
            old(self).wf(),
        ensures
            final(self).wf(),
            match r {
                Some(rec) => {
                    &&& old(self).outgoing_events().len() > 0
                    &&& rec.naia_id == old(self).outgoing_events()[0].naia_id
                    &&& rec.payload@ == old(self).outgoing_events()[0].payload@
                    &&& rec.payload@.len() <= MAX_EVENT_PAYLOAD as int
                    &&& final(self).outgoing_events() == old(self).outgoing_events().subrange(
                        1,
                        old(self).outgoing_events().len() as int,
                    )
                    &&& final(self).in_flight_events() == old(self).in_flight_events().push(
                        InFlightEvent { packet_seq, record: old(self).outgoing_events()[0] },
                    )
                },
                None => {
                    &&& old(self).outgoing_events().len() == 0
                    &&& final(self).outgoing_events() == old(self).outgoing_events()
                    &&& final(self).in_flight_events() == old(self).in_flight_events()
                },
            },
            final(self).incoming_events() == old(self).incoming_events(),
            final(self).seen_window() == old(self).seen_window(),
    {
        if self.outgoing.len() == 0 {
            return None;
        }
        let rec = self.outgoing.remove(0);
        let copy = rec.duplicate();
        proof {
            assert(self.outgoing@ =~= old(self).outgoing@.subrange(
                1,
                old(self).outgoing@.len() as int,
            ));
        }
        self.in_flight.push(InFlightEvent { packet_seq, record: rec });
        Some(copy)
    }

    /// Reverses the most recent pop for `packet_seq`: the packet writer
    /// rejected the event, so the in-flight record returns to the head of
    /// the queue unchanged.
    pub fn unpop_outgoing_event(&mut self, packet_seq: u16)
        requires
            old(self).wf(),
            old(self).in_flight_events().len() > 0,
            old(self).in_flight_events().last().packet_seq == packet_seq,
        ensures
            final(self).wf(),
            final(self).outgoing_events() == seq![
                old(self).in_flight_events().last().record,
            ] + old(self).outgoing_events(),
            final(self).in_flight_events() == old(self).in_flight_events().drop_last(),
            final(self).incoming_events() == old(self).incoming_events(),
            final(self).seen_window() == old(self).seen_window(),
    {
        let p = match self.in_flight.pop() {
            Some(p) => p,
            None => vstd::pervasive::unreached(),
        };
        self.outgoing.insert(0, p.record);
        proof {
            assert(self.in_flight@ =~= old(self).in_flight@.drop_last());
            assert(self.outgoing@ =~= seq![old(self).in_flight@.last().record] + old(
                self,
            ).outgoing@);
        }
    }

    /// A packet was acknowledged: every event it carried is delivered and
    /// leaves the channel; all other events stay exactly where they were.
    #[verifier::loop_isolation(false)]
    pub fn notify_packet_acked(&mut self, packet_seq: u16)
        requires
            old(self).wf(),
        ensures
            final(self).wf(),
            final(self).in_flight_events() == old(self).in_flight_events().filter(
                |e: InFlightEvent| !carried_by(e, packet_seq),
            ),
            final(self).outgoing_events() == old(self).outgoing_events(),
            final(self).incoming_events() == old(self).incoming_events(),
            final(self).seen_window() == old(self).seen_window(),
    {
        let ghost pre = self.in_flight@;
        let ghost pred = |e: InFlightEvent| !carried_by(e, packet_seq);
        let mut work: Vec<InFlightEvent> = Vec::new();
        core::mem::swap(&mut work, &mut self.in_flight);
        let ghost n = pre.len();
        let ghost mut i: int = 0;
        proof {
            assert(pre.subrange(0, 0).filter(pred) =~= Seq::<InFlightEvent>::empty());
            assert(self.in_flight@ =~= pre.subrange(0, 0).filter(pred));
            assert(work@ =~= pre.subrange(0, n as int));
        }
        while work.len() > 0
            invariant
                0 <= i <= n,
                n == pre.len(),
                work@ == pre.subrange(i, n as int),
                self.in_flight@ == pre.subrange(0, i).filter(pred),
                self.outgoing@ == old(self).outgoing@,
                forall|j: int|
                    0 <= j < self.in_flight@.len() ==> (
                    #[trigger] self.in_flight@[j]).record.payload@.len()
                        <= MAX_EVENT_PAYLOAD as int,
                self.outgoing@ == old(self).outgoing@,
                self.incoming@ == old(self).incoming@,
                self.seen@ == old(self).seen@,
            decreases work@.len(),
        {
            let ghost prefix = pre.subrange(0, i);
            let e = work.remove(0);
            proof {
                assert(pre.subrange(i, n as int)[0] == pre[i]);
                assert(work@ =~= pre.subrange(i + 1, n as int));
            }
            if e.packet_seq != packet_seq {
                self.in_flight.push(e);
            }
            proof {
                let ii = i + 1;
                reveal(Seq::filter);
                assert(pre.subrange(0, ii).drop_last() =~= prefix);
                assert(pre.subrange(0, ii).last() == pre[i]);
                assert(pre.subrange(0, ii).filter(pred) == if pred(pre[i]) {
                    prefix.filter(pred).push(pre[i])
                } else {
                    prefix.filter(pred)
                });
                i = i + 1;
            }
        }
        proof {
            assert(pre.subrange(0, n as int) =~= pre);
        }
    }

    /// A packet was declared lost: every event it carried returns to the
    /// back of the outgoing queue for retransmission; nothing is dropped.
    #[verifier::loop_isolation(false)]
    pub fn notify_packet_lost(&mut self, packet_seq: u16)
        requires
            old(self).wf(),
        ensures
            final(self).wf(),
            final(self).in_flight_events() == old(self).in_flight_events().filter(
                |e: InFlightEvent| !carried_by(e, packet_seq),
            ),
            final(self).outgoing_events() == old(self).outgoing_events() + old(
                self,
            ).in_flight_events().filter(|e: InFlightEvent| carried_by(e, packet_seq)).map_values(
                |e: InFlightEvent| e.record,
            ),
            final(self).incoming_events() == old(self).incoming_events(),
            final(self).seen_window() == old(self).seen_window(),
    {
        let ghost pre = self.in_flight@;
        let ghost keep_pred = |e: InFlightEvent| !carried_by(e, packet_seq);
        let ghost take_pred = |e: InFlightEvent| carried_by(e, packet_seq);
        let ghost to_rec = |e: InFlightEvent| e.record;
        let mut work: Vec<InFlightEvent> = Vec::new();
        core::mem::swap(&mut work, &mut self.in_flight);
        let ghost n = pre.len();
        let ghost mut i: int = 0;
        proof {
            assert(pre.subrange(0, 0).filter(keep_pred) =~= Seq::<InFlightEvent>::empty());
            assert(old(self).outgoing@ + pre.subrange(0, 0).filter(take_pred).map_values(to_rec)
                =~= old(self).outgoing@);
            assert(self.in_flight@ =~= pre.subrange(0, 0).filter(keep_pred));
            assert(work@ =~= pre.subrange(0, n as int));
        }
        while work.len() > 0
            invariant
                0 <= i <= n,
                n == pre.len(),
                work@ == pre.subrange(i, n as int),
                self.in_flight@ == pre.subrange(0, i).filter(keep_pred),
                self.outgoing@ == old(self).outgoing@ + pre.subrange(0, i).filter(
                    take_pred,
                ).map_values(to_rec),
                forall|j: int|
                    0 <= j < self.in_flight@.len() ==> (
                    #[trigger] self.in_flight@[j]).record.payload@.len()
                        <= MAX_EVENT_PAYLOAD as int,
                forall|j: int|
                    0 <= j < self.outgoing@.len() ==> (
                    #[trigger] self.outgoing@[j]).payload@.len() <= MAX_EVENT_PAYLOAD as int,
                self.incoming@ == old(self).incoming@,
                self.seen@ == old(self).seen@,
            decreases work@.len(),
        {
            let ghost prefix = pre.subrange(0, i);
            let e = work.remove(0);
            proof {
                assert(pre.subrange(i, n as int)[0] == pre[i]);
                assert(work@ =~= pre.subrange(i + 1, n as int));
            }
            if e.packet_seq != packet_seq {
                self.in_flight.push(e);
            } else {
                self.outgoing.push(e.record);
            }
            proof {
                let ii = i + 1;
                reveal(Seq::filter);
                assert(pre.subrange(0, ii).drop_last() =~= prefix);
                assert(pre.subrange(0, ii).last() == pre[i]);
                assert(pre.subrange(0, ii).filter(keep_pred) == if keep_pred(pre[i]) {
                    prefix.filter(keep_pred).push(pre[i])
                } else {
                    prefix.filter(keep_pred)
                });
                assert(pre.subrange(0, ii).filter(take_pred).map_values(to_rec) =~= (
                if take_pred(pre[i]) {
                    prefix.filter(take_pred).map_values(to_rec).push(to_rec(pre[i]))
                } else {
                    prefix.filter(take_pred).map_values(to_rec)
                }));
                i = i + 1;
            }
        }
        proof {
            assert(pre.subrange(0, n as int) =~= pre);
        }
    }

    /// At-least-once delivery, the safety half: declaring a packet lost
    /// never drops an event. Every record tracked before the loss — queued
    /// or in flight — is still tracked after it, so an event can only
    /// leave the channel through `notify_packet_acked`, that is, once a
    /// packet carrying it was delivered.
    pub proof fn lemma_loss_preserves_events(pre: EventManager, post: EventManager, s: u16)
        requires
            post.in_flight_events() == pre.in_flight_events().filter(
                |e: InFlightEvent| !carried_by(e, s),
            ),
            post.outgoing_events() == pre.outgoing_events() + pre.in_flight_events().filter(
                |e: InFlightEvent| carried_by(e, s),
            ).map_values(|e: InFlightEvent| e.record),
        ensures
            forall|j: int|
                0 <= j < pre.in_flight_events().len() ==> post.in_flight_events().contains(
                    #[trigger] pre.in_flight_events()[j],
                ) || post.outgoing_events().contains(pre.in_flight_events()[j].record),
            forall|j: int|
                0 <= j < pre.outgoing_events().len() ==> post.outgoing_events().contains(
                    #[trigger] pre.outgoing_events()[j],
                ),
    {
        let keep = |e: InFlightEvent| !carried_by(e, s);
        let take = |e: InFlightEvent| carried_by(e, s);
        let to_rec = |e: InFlightEvent| e.record;
        let flight = pre.in_flight_events();
        let queued = pre.outgoing_events();
        assert forall|j: int| 0 <= j < flight.len() implies post.in_flight_events().contains(
            #[trigger] flight[j],
        ) || post.outgoing_events().contains(flight[j].record) by {
            if keep(flight[j]) {
                flight.lemma_filter_contains(keep, j);
            } else {
                flight.lemma_filter_contains(take, j);
                let w = choose|w: int|
                    0 <= w < flight.filter(take).len() && flight.filter(take)[w] == flight[j];
                assert(flight.filter(take).map_values(to_rec)[w] == flight[j].record);
                assert(post.outgoing_events()[queued.len() + w] == flight[j].record);
            }
        }
        assert forall|j: int| 0 <= j < queued.len() implies post.outgoing_events().contains(
            #[trigger] queued[j],
        ) by {
            assert(post.outgoing_events()[j] == queued[j]);
        }
    }

    /// Hands a received event to the application layer unless the pair
    /// `(packet_seq, index)` was already processed: a duplicated packet
    /// surfaces each of its events at most once while the pair is inside
    /// the bounded window.
    pub fn process_received_event(&mut self, packet_seq: u16, index: u8, naia_id: u16, payload: Vec<u8>)
        requires
            old(self).wf(),
        ensures
            final(self).wf(),
            old(self).seen_window().contains((packet_seq, index)) ==> final(self).incoming_events()
                == old(self).incoming_events() && final(self).seen_window() == old(
                self,
            ).seen_window(),
            !old(self).seen_window().contains((packet_seq, index)) ==> {
                &&& final(self).incoming_events() == old(self).incoming_events().push(
                    EventRecord { naia_id, payload },
                )
                &&& final(self).seen_window() == (if old(self).seen_window().len() >= SEEN_CAPACITY {
                    old(self).seen_window().subrange(1, old(self).seen_window().len() as int)
                } else {
                    old(self).seen_window()
                }).push((packet_seq, index))
            },
            final(self).outgoing_events() == old(self).outgoing_events(),
            final(self).in_flight_events() == old(self).in_flight_events(),
    {
        let mut k: usize = 0;
        let mut dup = false;
        while k < self.seen.len()
            invariant
                k <= self.seen@.len(),
                dup == exists|j: int| 0 <= j < k && self.seen@[j] == (packet_seq, index),
                self.seen@ == old(self).seen@,
            decreases self.seen@.len() - k,
        {
            let (s, ix) = self.seen[k];
            if s == packet_seq && ix == index {
                dup = true;
            }
            k = k + 1;
        }
        if dup {
            return ;
        }
        if self.seen.len() >= SEEN_CAPACITY {
            self.seen.remove(0);
        }
        self.seen.push((packet_seq, index));
        self.incoming.push(EventRecord { naia_id, payload });
    }

    /// The next received event for the application, oldest first.
    pub fn pop_incoming_event(&mut self) -> (r: Option<EventRecord>)
        requires
            old(self).wf(),
        ensures
            final(self).wf(),
            match r {
                Some(rec) => {
                    &&& old(self).incoming_events().len() > 0
                    &&& rec == old(self).incoming_events()[0]
                    &&& final(self).incoming_events() == old(self).incoming_events().subrange(
                        1,
                        old(self).incoming_events().len() as int,
                    )
                },
                None => {
                    &&& old(self).incoming_events().len() == 0
                    &&& final(self).incoming_events() == old(self).incoming_events()
                },
            },
            final(self).outgoing_events() == old(self).outgoing_events(),
            final(self).in_flight_events() == old(self).in_flight_events(),
            final(self).seen_window() == old(self).seen_window(),
    {
        if self.incoming.len() == 0 {
            return None;
        }
        let rec = self.incoming.remove(0);
        proof {
            assert(self.incoming@ =~= old(self).incoming@.subrange(
                1,
                old(self).incoming@.len() as int,
            ));
        }
        Some(rec)
    }
}

/// One acknowledgement step keeps every event of a baseline state
/// tracked, except those whose carrying packet the step settles — and that
/// packet is excused (acknowledged by the header being processed).
pub proof fn lemma_ack_step_keeps_events(
    pre: EventManager,
    post: EventManager,
    base: EventManager,
    s: u16,
    excused: spec_fn(u16) -> bool,
)
    requires
        post.in_flight_events() == pre.in_flight_events().filter(
            |e: InFlightEvent| !carried_by(e, s),
        ),
        post.outgoing_events() == pre.outgoing_events(),
        excused(s),
        forall|j: int|
            0 <= j < base.outgoing_events().len() ==> pre.outgoing_events().contains(
                #[trigger] base.outgoing_events()[j],
            ),
        forall|j: int|
            0 <= j < base.in_flight_events().len() ==> pre.in_flight_events().contains(
                #[trigger] base.in_flight_events()[j],
            ) || pre.outgoing_events().contains(base.in_flight_events()[j].record) || excused(
                base.in_flight_events()[j].packet_seq,
            ),
    ensures
        forall|j: int|
            0 <= j < base.outgoing_events().len() ==> post.outgoing_events().contains(
                #[trigger] base.outgoing_events()[j],
            ),
        forall|j: int|
            0 <= j < base.in_flight_events().len() ==> post.in_flight_events().contains(
                #[trigger] base.in_flight_events()[j],
            ) || post.outgoing_events().contains(base.in_flight_events()[j].record) || excused(
                base.in_flight_events()[j].packet_seq,
            ),
{
    let keep = |e: InFlightEvent| !carried_by(e, s);
    assert forall|j: int| 0 <= j < base.in_flight_events().len() implies post.in_flight_events()
        .contains(#[trigger] base.in_flight_events()[j]) || post.outgoing_events().contains(
        base.in_flight_events()[j].record,
    ) || excused(base.in_flight_events()[j].packet_seq) by {
        let e = base.in_flight_events()[j];
        if pre.in_flight_events().contains(e) {
            let w = choose|w: int|
                0 <= w < pre.in_flight_events().len() && pre.in_flight_events()[w] == e;
            if keep(e) {
                pre.in_flight_events().lemma_filter_contains(keep, w);
            } else {
                assert(e.packet_seq == s);
            }
        }
    }
}

/// One settling step only removes in-flight entries: whatever remains was
/// there before, and nothing carried by the settled packet remains.
pub proof fn lemma_settle_step_membership(pre: EventManager, post: EventManager, s: u16)
    requires
        post.in_flight_events() == pre.in_flight_events().filter(
            |e: InFlightEvent| !carried_by(e, s),
        ),
    ensures
        forall|j: int|
            0 <= j < post.in_flight_events().len() ==> pre.in_flight_events().contains(
                #[trigger] post.in_flight_events()[j],
            ) && post.in_flight_events()[j].packet_seq != s,
{
    let keep = |e: InFlightEvent| !carried_by(e, s);
    assert forall|j: int| 0 <= j < post.in_flight_events().len() implies pre.in_flight_events()
        .contains(#[trigger] post.in_flight_events()[j]) && post.in_flight_events()[j].packet_seq
        != s by {
        pre.in_flight_events().lemma_filter_pred(keep, j);
        assert(post.in_flight_events().contains(post.in_flight_events()[j]));
        pre.in_flight_events().lemma_filter_contains_rev(keep, post.in_flight_events()[j]);
    }
}

/// `rec` is the record of some in-flight entry carried by packet `s`.
pub open spec fn record_carried_by(flight: Seq<InFlightEvent>, rec: EventRecord, s: u16) -> bool {
    exists|w: int|
        0 <= w < flight.len() && (#[trigger] flight[w]).record == rec && flight[w].packet_seq == s
}

/// One loss step keeps the outgoing queue's prefix and appends exactly
/// records of entries the lost packet carried.
pub proof fn lemma_loss_step_outgoing(pre: EventManager, post: EventManager, s: u16)
    requires
        post.outgoing_events() == pre.outgoing_events() + pre.in_flight_events().filter(
            |e: InFlightEvent| carried_by(e, s),
        ).map_values(|e: InFlightEvent| e.record),
    ensures
        post.outgoing_events().len() >= pre.outgoing_events().len(),
        post.outgoing_events().subrange(0, pre.outgoing_events().len() as int) == pre.outgoing_events(),
        forall|j: int|
            pre.outgoing_events().len() <= j < post.outgoing_events().len() ==> record_carried_by(
                pre.in_flight_events(),
                #[trigger] post.outgoing_events()[j],
                s,
            ),
{
    let take = |e: InFlightEvent| carried_by(e, s);
    let to_rec = |e: InFlightEvent| e.record;
    assert(post.outgoing_events().subrange(0, pre.outgoing_events().len() as int)
        =~= pre.outgoing_events());
    assert forall|j: int|
        pre.outgoing_events().len() <= j < post.outgoing_events().len() implies record_carried_by(
        pre.in_flight_events(),
        #[trigger] post.outgoing_events()[j],
        s,
    ) by {
        let idx = j - pre.outgoing_events().len();
        let fl = pre.in_flight_events().filter(take);
        assert(post.outgoing_events()[j] == fl.map_values(to_rec)[idx]);
        assert(fl.map_values(to_rec)[idx] == to_rec(fl[idx]));
        pre.in_flight_events().lemma_filter_pred(take, idx);
        assert(fl.contains(fl[idx]));
        pre.in_flight_events().lemma_filter_contains_rev(take, fl[idx]);
        let w = choose|w: int|
            0 <= w < pre.in_flight_events().len() && pre.in_flight_events()[w] == fl[idx];
        assert((#[trigger] pre.in_flight_events()[w]).record == post.outgoing_events()[j]
            && pre.in_flight_events()[w].packet_seq == s);
    }
}

/// One loss step keeps every event of a baseline state tracked: events of
/// the lost packet fall back into the outgoing queue, everything else
/// stays where it was.
pub proof fn lemma_loss_step_keeps_events(
    pre: EventManager,
    post: EventManager,
    base: EventManager,
    s: u16,
    excused: spec_fn(u16) -> bool,
)
    requires
        post.in_flight_events() == pre.in_flight_events().filter(
            |e: InFlightEvent| !carried_by(e, s),
        ),
        post.outgoing_events() == pre.outgoing_events() + pre.in_flight_events().filter(
            |e: InFlightEvent| carried_by(e, s),
        ).map_values(|e: InFlightEvent| e.record),
        forall|j: int|
            0 <= j < base.outgoing_events().len() ==> pre.outgoing_events().contains(
                #[trigger] base.outgoing_events()[j],
            ),
        forall|j: int|
            0 <= j < base.in_flight_events().len() ==> pre.in_flight_events().contains(
                #[trigger] base.in_flight_events()[j],
            ) || pre.outgoing_events().contains(base.in_flight_events()[j].record) || excused(
                base.in_flight_events()[j].packet_seq,
            ),
    ensures
        forall|j: int|
            0 <= j < base.outgoing_events().len() ==> post.outgoing_events().contains(
                #[trigger] base.outgoing_events()[j],
            ),
        forall|j: int|
            0 <= j < base.in_flight_events().len() ==> post.in_flight_events().contains(
                #[trigger] base.in_flight_events()[j],
            ) || post.outgoing_events().contains(base.in_flight_events()[j].record) || excused(
                base.in_flight_events()[j].packet_seq,
            ),
{
    EventManager::lemma_loss_preserves_events(pre, post, s);
    assert forall|j: int| 0 <= j < base.outgoing_events().len() implies post.outgoing_events()
        .contains(#[trigger] base.outgoing_events()[j]) by {
        let e = base.outgoing_events()[j];
        let w = choose|w: int|
            0 <= w < pre.outgoing_events().len() && pre.outgoing_events()[w] == e;
        assert(post.outgoing_events()[w] == e);
    }
    assert forall|j: int| 0 <= j < base.in_flight_events().len() implies post.in_flight_events()
        .contains(#[trigger] base.in_flight_events()[j]) || post.outgoing_events().contains(
        base.in_flight_events()[j].record,
    ) || excused(base.in_flight_events()[j].packet_seq) by {
        let e = base.in_flight_events()[j];
        if pre.in_flight_events().contains(e) {
            let w = choose|w: int|
                0 <= w < pre.in_flight_events().len() && pre.in_flight_events()[w] == e;
            assert(post.in_flight_events().contains(pre.in_flight_events()[w])
                || post.outgoing_events().contains(pre.in_flight_events()[w].record));
        } else if pre.outgoing_events().contains(e.record) {
            let w = choose|w: int|
                0 <= w < pre.outgoing_events().len() && pre.outgoing_events()[w] == e.record;
            assert(post.outgoing_events()[w] == e.record);
        }
    }
}

} // verus!
