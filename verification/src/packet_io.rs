//! Framing of a data packet body: manager sections, each a tag byte and an
//! item count followed by that many items, within an MTU budget.
//!
//! An event item is its variant tag then its payload; an entity item is an
//! action byte, the key, and the action's own fields. Items that do not
//! fit the budget are refused so the caller can push them back unsent.

use vstd::prelude::*;
use crate::entity_manager::OutgoingEntityMessage;
use crate::event_manager::EventRecord;
use crate::manifest::{EntityManifest, EventManifest};
use crate::packet_type::{
    EntityActionType, ManagerType, entity_action_from_u8, entity_action_to_u8, manager_type_from_u8,
    manager_type_to_u8, spec_entity_action_to_u8, spec_manager_type_to_u8,
};
use crate::state_mask::{spec_count_set, StateMask};
use crate::wire::{
    read_u16_be, read_u32_be, spec_u16_be, spec_u16_from_be, spec_u32_be, spec_u32_from_be,
    write_u16_be, write_u32_be,
};

verus! {

/// Largest packet body after the 9-byte header: the MTU target.
pub const MAX_PAYLOAD: usize = 508;

/// The wire bytes of a run of event items, in order.
pub open spec fn spec_event_items_bytes(evs: Seq<EventRecord>) -> Seq<u8>
    decreases evs.len(),
{
    if evs.len() == 0 {
        Seq::empty()
    } else {
        spec_event_items_bytes(evs.drop_last()) + spec_event_item(
            evs.last().naia_id,
            evs.last().payload@,
        )
    }
}

/// The wire bytes of a run of entity items, in order.
pub open spec fn spec_entity_items_bytes(msgs: Seq<OutgoingEntityMessage>) -> Seq<u8>
    decreases msgs.len(),
{
    if msgs.len() == 0 {
        Seq::empty()
    } else {
        spec_entity_items_bytes(msgs.drop_last()) + spec_entity_item(msgs.last())
    }
}

/// A packet body made of the two manager sections: each section, when its
/// count is positive, is its manager tag, the count, then the item bytes.
pub open spec fn spec_sections(
    event_count: int,
    event_bytes: Seq<u8>,
    entity_count: int,
    entity_bytes: Seq<u8>,
) -> Seq<u8> {
    (if event_count > 0 {
        seq![spec_manager_type_to_u8(ManagerType::Event), event_count as u8] + event_bytes
    } else {
        Seq::<u8>::empty()
    }) + (if entity_count > 0 {
        seq![spec_manager_type_to_u8(ManagerType::Entity), entity_count as u8] + entity_bytes
    } else {
        Seq::<u8>::empty()
    })
}

/// The wire bytes of one event item.
pub open spec fn spec_event_item(naia_id: u16, payload: Seq<u8>) -> Seq<u8> {
    spec_u16_be(naia_id) + payload
}

/// The wire bytes of one entity item.
pub open spec fn spec_entity_item(m: OutgoingEntityMessage) -> Seq<u8> {
    seq![spec_entity_action_to_u8(m.action)] + spec_u16_be(m.key) + match m.action {
        EntityActionType::Create => spec_u16_be(m.variant_tag) + m.fields@,
        EntityActionType::Update => spec_u32_be(m.mask.bits) + m.fields@,
        EntityActionType::Delete => Seq::<u8>::empty(),
    }
}

/// Builds the body of one data packet.
pub struct PacketWriter {
    event_count: u8,
    event_bytes: Vec<u8>,
    entity_count: u8,
    entity_bytes: Vec<u8>,
}

impl PacketWriter {
    /// Number of events written so far.
    pub closed spec fn events_written(self) -> u8 {
        self.event_count
    }

    /// Number of entity messages written so far.
    pub closed spec fn entities_written(self) -> u8 {
        self.entity_count
    }

    /// The event section's item bytes so far.
    pub closed spec fn event_section(self) -> Seq<u8> {
        self.event_bytes@
    }

    /// The entity section's item bytes so far.
    pub closed spec fn entity_section(self) -> Seq<u8> {
        self.entity_bytes@
    }

    /// The body this writer would emit: each non-empty section is its
    /// manager tag, its item count, then its items.
    pub open spec fn spec_body(self) -> Seq<u8> {
        spec_sections(
            self.events_written() as int,
            self.event_section(),
            self.entities_written() as int,
            self.entity_section(),
        )
    }

    /// The writer's sections are consistent: an empty count means an empty
    /// section, and both sections fit the MTU budget.
    pub open spec fn wf(self) -> bool {
        &&& self.events_written() == 0 ==> self.event_section().len() == 0
        &&& self.entities_written() == 0 ==> self.entity_section().len() == 0
        &&& self.event_section().len() <= MAX_PAYLOAD as int
        &&& self.entity_section().len() <= MAX_PAYLOAD as int
    }

    /// An empty writer.
    pub fn new() -> (w: PacketWriter)
        ensures
            w.wf(),
            w.events_written() == 0,
            w.entities_written() == 0,
            w.event_section().len() == 0,
            w.entity_section().len() == 0,
    {
        PacketWriter {
            event_count: 0,
            event_bytes: Vec::new(),
            entity_count: 0,
            entity_bytes: Vec::new(),
        }
    }

    /// Bytes the body occupies so far.
    fn body_size(&self) -> (n: usize)
        requires
            self.wf(),
        ensures
            n == self.spec_body().len(),
    {
        let ev = if self.event_count > 0 {
            2 + self.event_bytes.len()
        } else {
            0
        };
        let en = if self.entity_count > 0 {
            2 + self.entity_bytes.len()
        } else {
            0
        };
        ev + en
    }

    /// Whether anything was written.
    pub fn has_bytes(&self) -> (r: bool)
        ensures
            r == (self.events_written() > 0 || self.entities_written() > 0),
    {
        self.event_count > 0 || self.entity_count > 0
    }

    /// Writes one event item if it fits the MTU budget and the section's
    /// count; returns false, changing nothing, when it does not fit.
    pub fn write_event(&mut self, event: &EventRecord) -> (ok: bool)
        requires
            old(self).wf(),
            event.payload@.len() <= MAX_PAYLOAD,
        ensures
            final(self).wf(),
            final(self).entity_section() == old(self).entity_section(),
            final(self).entities_written() == old(self).entities_written(),
            ok ==> {
                &&& final(self).events_written() == old(self).events_written() + 1
                &&& final(self).event_section() == old(self).event_section() + spec_event_item(
                    event.naia_id,
                    event.payload@,
                )
                &&& final(self).spec_body().len() <= MAX_PAYLOAD
            },
            !ok ==> *final(self) == *old(self),
            // An event that fits the remaining budget is never refused.
            (old(self).events_written() < 255 && old(self).spec_body().len() + 4
                + event.payload@.len() <= MAX_PAYLOAD as int) ==> ok,
    {
        if self.event_count == 255 {
            return false;
        }
        let item_len = 2 + event.payload.len();
        let added = if self.event_count == 0 {
            2 + item_len
        } else {
            item_len
        };
        if self.body_size() + added > MAX_PAYLOAD {
            return false;
        }
        write_u16_be(&mut self.event_bytes, event.naia_id);
        let mut i: usize = 0;
        while i < event.payload.len()
            invariant
                i <= event.payload@.len(),
                self.event_bytes@ == old(self).event_bytes@ + spec_u16_be(event.naia_id)
                    + event.payload@.subrange(0, i as int),
                self.event_count == old(self).event_count,
                self.entity_count == old(self).entity_count,
                self.entity_bytes@ == old(self).entity_bytes@,
            decreases event.payload@.len() - i,
        {
            self.event_bytes.push(event.payload[i]);
            i = i + 1;
            proof {
                assert(self.event_bytes@ =~= old(self).event_bytes@ + spec_u16_be(event.naia_id)
                    + event.payload@.subrange(0, i as int));
            }
        }
        proof {
            assert(event.payload@.subrange(0, event.payload@.len() as int) =~= event.payload@);
            assert(self.event_bytes@ =~= old(self).event_bytes@ + spec_event_item(
                event.naia_id,
                event.payload@,
            ));
        }
        self.event_count = self.event_count + 1;
        proof {
            assert(self.event_bytes@.len() == old(self).event_bytes@.len() + 2
                + event.payload@.len());
            assert(self.spec_body().len() == old(self).spec_body().len() + added);
            assert(self.spec_body().len() <= MAX_PAYLOAD as int);
        }
        true
    }

    /// Writes one entity item if it fits the MTU budget and the section's
    /// count; returns false, changing nothing, when it does not fit.
    pub fn write_entity_message(&mut self, message: &OutgoingEntityMessage) -> (ok: bool)
        requires
            old(self).wf(),
            message.fields@.len() <= 32,
        ensures
            final(self).wf(),
            final(self).event_section() == old(self).event_section(),
            final(self).events_written() == old(self).events_written(),
            ok ==> {
                &&& final(self).entities_written() == old(self).entities_written() + 1
                &&& final(self).entity_section() == old(self).entity_section() + spec_entity_item(
                    *message,
                )
                &&& final(self).spec_body().len() <= MAX_PAYLOAD
            },
            !ok ==> *final(self) == *old(self),
            // A message that fits the remaining budget is never refused.
            (old(self).entities_written() < 255 && old(self).spec_body().len() + 9
                + message.fields@.len() <= MAX_PAYLOAD as int) ==> ok,
    {
        if self.entity_count == 255 {
            return false;
        }
        let is_create = match message.action {
            EntityActionType::Create => true,
            _ => false,
        };
        let is_update = match message.action {
            EntityActionType::Update => true,
            _ => false,
        };
        let item_len: usize = 3 + if is_create {
            2 + message.fields.len()
        } else if is_update {
            4 + message.fields.len()
        } else {
            0
        };
        let added = if self.entity_count == 0 {
            2 + item_len
        } else {
            item_len
        };
        if self.body_size() + added > MAX_PAYLOAD {
            return false;
        }
        let ghost pre = self.entity_bytes@;
        self.entity_bytes.push(entity_action_to_u8(message.action));
        write_u16_be(&mut self.entity_bytes, message.key);
        if is_create {
            write_u16_be(&mut self.entity_bytes, message.variant_tag);
        } else if is_update {
            write_u32_be(&mut self.entity_bytes, message.mask.bits);
        }
        let mut i: usize = 0;
        let write_fields = is_create || is_update;
        let upto = if write_fields {
            message.fields.len()
        } else {
            0
        };
        proof {
            assert(self.entity_bytes@ =~= pre + seq![spec_entity_action_to_u8(message.action)]
                + spec_u16_be(message.key) + (if is_create {
                spec_u16_be(message.variant_tag)
            } else if is_update {
                spec_u32_be(message.mask.bits)
            } else {
                Seq::<u8>::empty()
            }) + message.fields@.subrange(0, 0));
        }
        while i < upto
            invariant
                i <= upto,
                upto <= message.fields@.len(),
                self.entity_bytes@ == pre + seq![spec_entity_action_to_u8(message.action)]
                    + spec_u16_be(message.key) + (if is_create {
                    spec_u16_be(message.variant_tag)
                } else if is_update {
                    spec_u32_be(message.mask.bits)
                } else {
                    Seq::<u8>::empty()
                }) + message.fields@.subrange(0, i as int),
                self.event_count == old(self).event_count,
                self.entity_count == old(self).entity_count,
                self.event_bytes@ == old(self).event_bytes@,
            decreases upto - i,
        {
            self.entity_bytes.push(message.fields[i]);
            i = i + 1;
            proof {
                assert(self.entity_bytes@ =~= pre + seq![
                    spec_entity_action_to_u8(message.action),
                ] + spec_u16_be(message.key) + (if is_create {
                    spec_u16_be(message.variant_tag)
                } else if is_update {
                    spec_u32_be(message.mask.bits)
                } else {
                    Seq::<u8>::empty()
                }) + message.fields@.subrange(0, i as int));
            }
        }
        proof {
            if is_create || is_update {
                assert(message.fields@.subrange(0, message.fields@.len() as int)
                    =~= message.fields@);
                assert(self.entity_bytes@ =~= pre + spec_entity_item(*message));
            } else {
                assert(self.entity_bytes@ =~= pre + seq![
                    spec_entity_action_to_u8(message.action),
                ] + spec_u16_be(message.key));
                assert(self.entity_bytes@ =~= pre + spec_entity_item(*message));
            }
        }
        self.entity_count = self.entity_count + 1;
        proof {
            assert(spec_entity_item(*message).len() == item_len);
            assert(self.spec_body().len() == old(self).spec_body().len() + added);
            assert(self.spec_body().len() <= MAX_PAYLOAD as int);
        }
        true
    }

    /// Emits the body: each non-empty section with its tag and count.
    pub fn get_bytes(&self) -> (out: Vec<u8>)
        requires
            self.wf(),
        ensures
            out@ == self.spec_body(),
    {
        let mut out: Vec<u8> = Vec::new();
        if self.event_count > 0 {
            out.push(manager_type_to_u8(ManagerType::Event));
            out.push(self.event_count);
            let mut i: usize = 0;
            while i < self.event_bytes.len()
                invariant
                    i <= self.event_bytes@.len(),
                    out@ == seq![
                        spec_manager_type_to_u8(ManagerType::Event),
                        self.event_count,
                    ] + self.event_bytes@.subrange(0, i as int),
                decreases self.event_bytes@.len() - i,
            {
                out.push(self.event_bytes[i]);
                i = i + 1;
                proof {
                    assert(out@ =~= seq![
                        spec_manager_type_to_u8(ManagerType::Event),
                        self.event_count,
                    ] + self.event_bytes@.subrange(0, i as int));
                }
            }
            proof {
                assert(self.event_bytes@.subrange(0, self.event_bytes@.len() as int)
                    =~= self.event_bytes@);
            }
        }
        if self.entity_count > 0 {
            let ghost mid = out@;
            out.push(manager_type_to_u8(ManagerType::Entity));
            out.push(self.entity_count);
            let mut i: usize = 0;
            while i < self.entity_bytes.len()
                invariant
                    i <= self.entity_bytes@.len(),
                    out@ == mid + seq![
                        spec_manager_type_to_u8(ManagerType::Entity),
                        self.entity_count,
                    ] + self.entity_bytes@.subrange(0, i as int),
                decreases self.entity_bytes@.len() - i,
            {
                out.push(self.entity_bytes[i]);
                i = i + 1;
                proof {
                    assert(out@ =~= mid + seq![
                        spec_manager_type_to_u8(ManagerType::Entity),
                        self.entity_count,
                    ] + self.entity_bytes@.subrange(0, i as int));
                }
            }
            proof {
                assert(self.entity_bytes@.subrange(0, self.entity_bytes@.len() as int)
                    =~= self.entity_bytes@);
            }
        }
        proof {
            assert(out@ =~= self.spec_body());
        }
        out
    }
}

/// An entity item as read off the wire, before it is applied.
pub enum EntityWireMessage {
    /// Instantiate: key, variant tag, full one-byte-per-field state.
    Create { key: u16, variant_tag: u16, fields: Vec<u8> },
    /// Apply dirty fields: key, raw mask bits, the masked field bytes.
    Update { key: u16, mask_bits: u32, bytes: Vec<u8> },
    /// Remove the entity.
    Delete { key: u16 },
}

/// A parsed entity item at the specification level, payloads as plain
/// byte sequences.
pub enum GhostEntityMsg {
    /// Instantiate: key, variant tag, full one-byte-per-field state.
    Create { key: u16, variant_tag: u16, fields: Seq<u8> },
    /// Apply dirty fields: key, raw mask bits, the masked field bytes.
    Update { key: u16, mask_bits: u32, bytes: Seq<u8> },
    /// Remove the entity.
    Delete { key: u16 },
}

/// The specification view of a parsed event item.
pub open spec fn event_item_view(e: EventRecord) -> (u16, Seq<u8>) {
    (e.naia_id, e.payload@)
}

/// The specification view of a parsed entity item.
pub open spec fn entity_msg_view(m: EntityWireMessage) -> GhostEntityMsg {
    match m {
        EntityWireMessage::Create { key, variant_tag, fields } => GhostEntityMsg::Create {
            key,
            variant_tag,
            fields: fields@,
        },
        EntityWireMessage::Update { key, mask_bits, bytes } => GhostEntityMsg::Update {
            key,
            mask_bits,
            bytes: bytes@,
        },
        EntityWireMessage::Delete { key } => GhostEntityMsg::Delete { key },
    }
}

/// What a data packet body denotes: the event items and entity items of
/// its sections, in order, from position `at` on — or nothing, when the
/// body is malformed from `at` on. This is the grammar the reader must
/// realise.
pub open spec fn spec_parse_from(
    body: Seq<u8>,
    at: int,
    evm: EventManifest,
    enm: EntityManifest,
) -> Option<(Seq<(u16, Seq<u8>)>, Seq<GhostEntityMsg>)>
    decreases body.len() - at, 0int,
{
    if at >= body.len() {
        Some((Seq::empty(), Seq::empty()))
    } else {
        match crate::packet_type::spec_manager_type_from_u8(body[at]) {
            None => None,
            Some(section) => if at + 2 > body.len() {
                None
            } else {
                spec_parse_items(body, at + 2, section, body[at + 1] as nat, evm, enm)
            },
        }
    }
}

/// `count` remaining items of one section, then the rest of the body.
pub open spec fn spec_parse_items(
    body: Seq<u8>,
    at: int,
    section: ManagerType,
    count: nat,
    evm: EventManifest,
    enm: EntityManifest,
) -> Option<(Seq<(u16, Seq<u8>)>, Seq<GhostEntityMsg>)>
    decreases body.len() - at, count + 1,
{
    if count == 0 {
        spec_parse_from(body, at, evm, enm)
    } else {
        match section {
            ManagerType::Event => {
                if at + 2 > body.len() {
                    None
                } else {
                    let naia_id = spec_u16_from_be(body[at], body[at + 1]);
                    match evm.spec_payload_len(naia_id) {
                        None => None,
                        Some(n) => if at + 2 + n > body.len() {
                            None
                        } else {
                            match spec_parse_items(
                                body,
                                at + 2 + n,
                                section,
                                (count - 1) as nat,
                                evm,
                                enm,
                            ) {
                                None => None,
                                Some((evs, ms)) => Some(
                                    (
                                        seq![
                                            (naia_id, body.subrange(at + 2, at + 2 + n)),
                                        ] + evs,
                                        ms,
                                    ),
                                ),
                            }
                        },
                    }
                }
            },
            ManagerType::Entity => {
                if at + 3 > body.len() {
                    None
                } else {
                    match crate::packet_type::spec_entity_action_from_u8(body[at]) {
                        None => None,
                        Some(action) => {
                            let key = spec_u16_from_be(body[at + 1], body[at + 2]);
                            match action {
                                EntityActionType::Create => {
                                    if at + 5 > body.len() {
                                        None
                                    } else {
                                        let tag = spec_u16_from_be(body[at + 3], body[at + 4]);
                                        match enm.spec_field_count(tag) {
                                            None => None,
                                            Some(fc) => if at + 5 + fc > body.len() {
                                                None
                                            } else {
                                                match spec_parse_items(
                                                    body,
                                                    at + 5 + fc,
                                                    section,
                                                    (count - 1) as nat,
                                                    evm,
                                                    enm,
                                                ) {
                                                    None => None,
                                                    Some((evs, ms)) => Some(
                                                        (
                                                            evs,
                                                            seq![
                                                                GhostEntityMsg::Create {
                                                                    key,
                                                                    variant_tag: tag,
                                                                    fields: body.subrange(
                                                                        at + 5,
                                                                        at + 5 + fc,
                                                                    ),
                                                                },
                                                            ] + ms,
                                                        ),
                                                    ),
                                                }
                                            },
                                        }
                                    }
                                },
                                EntityActionType::Update => {
                                    if at + 7 > body.len() {
                                        None
                                    } else {
                                        let bits = spec_u32_from_be(
                                            body[at + 3],
                                            body[at + 4],
                                            body[at + 5],
                                            body[at + 6],
                                        );
                                        let n = spec_count_set(bits, 32);
                                        if n < 0 || at + 7 + n > body.len() {
                                            None
                                        } else {
                                            match spec_parse_items(
                                                body,
                                                at + 7 + n,
                                                section,
                                                (count - 1) as nat,
                                                evm,
                                                enm,
                                            ) {
                                                None => None,
                                                Some((evs, ms)) => Some(
                                                    (
                                                        evs,
                                                        seq![
                                                            GhostEntityMsg::Update {
                                                                key,
                                                                mask_bits: bits,
                                                                bytes: body.subrange(
                                                                    at + 7,
                                                                    at + 7 + n,
                                                                ),
                                                            },
                                                        ] + ms,
                                                    ),
                                                ),
                                            }
                                        }
                                    }
                                },
                                EntityActionType::Delete => {
                                    match spec_parse_items(
                                        body,
                                        at + 3,
                                        section,
                                        (count - 1) as nat,
                                        evm,
                                        enm,
                                    ) {
                                        None => None,
                                        Some((evs, ms)) => Some(
                                            (evs, seq![GhostEntityMsg::Delete { key }] + ms),
                                        ),
                                    }
                                },
                            }
                        },
                    }
                }
            },
        }
    }
}

/// What a whole data packet body denotes.
pub open spec fn spec_parse_body(body: Seq<u8>, evm: EventManifest, enm: EntityManifest) -> Option<
    (Seq<(u16, Seq<u8>)>, Seq<GhostEntityMsg>),
> {
    spec_parse_from(body, 0, evm, enm)
}

/// A partial parse, continued: the items already taken, then the rest.
pub open spec fn spec_parse_cont(
    rest: Option<(Seq<(u16, Seq<u8>)>, Seq<GhostEntityMsg>)>,
    acc_events: Seq<(u16, Seq<u8>)>,
    acc_msgs: Seq<GhostEntityMsg>,
) -> Option<(Seq<(u16, Seq<u8>)>, Seq<GhostEntityMsg>)> {
    match rest {
        None => None,
        Some((evs, ms)) => Some((acc_events + evs, acc_msgs + ms)),
    }
}

/// The parsed-event view of a record list.
pub open spec fn events_view(evs: Seq<EventRecord>) -> Seq<(u16, Seq<u8>)> {
    evs.map_values(|e: EventRecord| event_item_view(e))
}

/// The parsed-item view of a wire message list.
pub open spec fn msgs_view(ms: Seq<EntityWireMessage>) -> Seq<GhostEntityMsg> {
    ms.map_values(|m: EntityWireMessage| entity_msg_view(m))
}

/// Continuing a parse after one more event item moves the item into the
/// accumulator.
proof fn lemma_cont_prepend_event(
    rest: Option<(Seq<(u16, Seq<u8>)>, Seq<GhostEntityMsg>)>,
    item: (u16, Seq<u8>),
    acc_events: Seq<(u16, Seq<u8>)>,
    acc_msgs: Seq<GhostEntityMsg>,
)
    ensures
        spec_parse_cont(
            match rest {
                None => None,
                Some((evs, ms)) => Some((seq![item] + evs, ms)),
            },
            acc_events,
            acc_msgs,
        ) == spec_parse_cont(rest, acc_events.push(item), acc_msgs),
{
    match rest {
        None => {},
        Some((evs, ms)) => {
            assert(acc_events + (seq![item] + evs) =~= acc_events.push(item) + evs);
        },
    }
}

/// Continuing a parse after one more entity item moves the item into the
/// accumulator.
proof fn lemma_cont_prepend_msg(
    rest: Option<(Seq<(u16, Seq<u8>)>, Seq<GhostEntityMsg>)>,
    item: GhostEntityMsg,
    acc_events: Seq<(u16, Seq<u8>)>,
    acc_msgs: Seq<GhostEntityMsg>,
)
    ensures
        spec_parse_cont(
            match rest {
                None => None,
                Some((evs, ms)) => Some((evs, seq![item] + ms)),
            },
            acc_events,
            acc_msgs,
        ) == spec_parse_cont(rest, acc_events, acc_msgs.push(item)),
{
    match rest {
        None => {},
        Some((evs, ms)) => {
            assert(acc_msgs + (seq![item] + ms) =~= acc_msgs.push(item) + ms);
        },
    }
}

/// Parses a data packet body into its event and entity items. The reader
/// realises the body grammar exactly: it succeeds if and only if the body
/// denotes an item list, and then returns exactly those items. A malformed
/// body — unknown section tag, unknown event variant, unknown entity
/// variant, truncated item — yields `None` and the packet is discarded.
#[verifier::loop_isolation(false)]
#[verifier::rlimit(100)]
#[verifier::spinoff_prover]
pub fn read_packet_body(
    body: &[u8],
    event_manifest: &EventManifest,
    entity_manifest: &EntityManifest,
) -> (r: Option<(Vec<EventRecord>, Vec<EntityWireMessage>)>)
    ensures
        body@.len() == 0 ==> r is Some,
        r is Some <==> spec_parse_body(body@, *event_manifest, *entity_manifest) is Some,
        r matches Some((events, msgs)) ==> {
            &&& spec_parse_body(body@, *event_manifest, *entity_manifest) == Some(
                (events_view(events@), msgs_view(msgs@)),
            )
            &&& forall|j: int|
                0 <= j < events@.len() ==> event_manifest.spec_payload_len(
                    (#[trigger] events@[j]).naia_id,
                ) == Some(events@[j].payload@.len() as u8)
            &&& forall|j: int|
                0 <= j < msgs@.len() ==> ((#[trigger] msgs@[j]) matches
                    EntityWireMessage::Create { key, variant_tag, fields }
                    ==> entity_manifest.spec_field_count(variant_tag) == Some(
                    fields@.len() as u8,
                ))
            &&& forall|j: int|
                0 <= j < msgs@.len() ==> ((#[trigger] msgs@[j]) matches
                    EntityWireMessage::Update { key, mask_bits, bytes } ==> bytes@.len()
                    == spec_count_set(mask_bits, 32))
        },
{
    let ghost evm = *event_manifest;
    let ghost enm = *entity_manifest;
    let mut events: Vec<EventRecord> = Vec::new();
    let mut msgs: Vec<EntityWireMessage> = Vec::new();
    let mut at: usize = 0;
    proof {
        assert(events_view(events@) =~= Seq::<(u16, Seq<u8>)>::empty());
        assert(msgs_view(msgs@) =~= Seq::<GhostEntityMsg>::empty());
    }
    while at < body.len()
        invariant
            at <= body@.len(),
            spec_parse_body(body@, evm, enm) == spec_parse_cont(
                spec_parse_from(body@, at as int, evm, enm),
                events_view(events@),
                msgs_view(msgs@),
            ),
            forall|j: int|
                0 <= j < events@.len() ==> event_manifest.spec_payload_len(
                    (#[trigger] events@[j]).naia_id,
                ) == Some(events@[j].payload@.len() as u8),
            forall|j: int|
                0 <= j < msgs@.len() ==> ((#[trigger] msgs@[j]) matches
                    EntityWireMessage::Create { key, variant_tag, fields }
                    ==> entity_manifest.spec_field_count(variant_tag) == Some(
                    fields@.len() as u8,
                )),
            forall|j: int|
                0 <= j < msgs@.len() ==> ((#[trigger] msgs@[j]) matches
                    EntityWireMessage::Update { key, mask_bits, bytes } ==> bytes@.len()
                    == spec_count_set(mask_bits, 32)),
        decreases body@.len() - at,
    {
        let ghost at_outer = at as int;
        let section = match manager_type_from_u8(body[at]) {
            Some(t) => t,
            None => {
                proof {
                    assert(spec_parse_from(body@, at_outer, evm, enm) is None);
                }
                return None;
            },
        };
        at = at + 1;
        if at >= body.len() {
            proof {
                assert(spec_parse_from(body@, at_outer, evm, enm) is None);
            }
            return None;
        }
        let count = body[at];
        at = at + 1;
        proof {
            assert(spec_parse_from(body@, at_outer, evm, enm) == spec_parse_items(
                body@,
                at as int,
                section,
                count as nat,
                evm,
                enm,
            ));
        }
        let mut item: u8 = 0;
        while item < count
            invariant
                at <= body@.len(),
                at_outer + 2 <= at,
                item <= count,
                spec_parse_body(body@, evm, enm) == spec_parse_cont(
                    spec_parse_items(
                        body@,
                        at as int,
                        section,
                        (count - item) as nat,
                        evm,
                        enm,
                    ),
                    events_view(events@),
                    msgs_view(msgs@),
                ),
                forall|j: int|
                    0 <= j < events@.len() ==> event_manifest.spec_payload_len(
                        (#[trigger] events@[j]).naia_id,
                    ) == Some(events@[j].payload@.len() as u8),
                forall|j: int|
                    0 <= j < msgs@.len() ==> ((#[trigger] msgs@[j]) matches
                        EntityWireMessage::Create { key, variant_tag, fields }
                        ==> entity_manifest.spec_field_count(variant_tag) == Some(
                        fields@.len() as u8,
                    )),
                forall|j: int|
                    0 <= j < msgs@.len() ==> ((#[trigger] msgs@[j]) matches
                        EntityWireMessage::Update { key, mask_bits, bytes } ==> bytes@.len()
                        == spec_count_set(mask_bits, 32)),
            decreases count - item,
        {
            let ghost rem = (count - item) as nat;
            let ghost p0 = at as int;
            match section {
                ManagerType::Event => {
                    if body.len() - at < 2 {
                        proof {
                            assert(spec_parse_items(body@, p0, section, rem, evm, enm) is None);
                        }
                        return None;
                    }
                    let naia_id = read_u16_be(body, at);
                    at = at + 2;
                    let payload_len = match event_manifest.payload_len(naia_id) {
                        Some(n) => n as usize,
                        None => {
                            proof {
                                assert(spec_parse_items(
                                    body@,
                                    p0,
                                    section,
                                    rem,
                                    evm,
                                    enm,
                                ) is None);
                            }
                            return None;
                        },
                    };
                    if body.len() - at < payload_len {
                        proof {
                            assert(spec_parse_items(body@, p0, section, rem, evm, enm) is None);
                        }
                        return None;
                    }
                    let mut payload: Vec<u8> = Vec::new();
                    let mut i: usize = 0;
                    while i < payload_len
                        invariant
                            i <= payload_len,
                            at + payload_len <= body@.len(),
                            payload@ == body@.subrange(at as int, at as int + i),
                        decreases payload_len - i,
                    {
                        payload.push(body[at + i]);
                        i = i + 1;
                        proof {
                            assert(payload@ =~= body@.subrange(at as int, at as int + i));
                        }
                    }
                    let ghost item_v = (naia_id, body@.subrange(p0 + 2, p0 + 2 + payload_len));
                    proof {
                        assert(payload@ == body@.subrange(p0 + 2, p0 + 2 + payload_len));
                        let rest = spec_parse_items(
                            body@,
                            p0 + 2 + payload_len,
                            section,
                            (rem - 1) as nat,
                            evm,
                            enm,
                        );
                        assert(spec_parse_items(body@, p0, section, rem, evm, enm)
                            == (match rest {
                            None => None,
                            Some((evs, ms)) => Some((seq![item_v] + evs, ms)),
                        }));
                        lemma_cont_prepend_event(
                            rest,
                            item_v,
                            events_view(events@),
                            msgs_view(msgs@),
                        );
                    }
                    at = at + payload_len;
                    let ghost evs_pre = events@;
                    events.push(EventRecord { naia_id, payload });
                    proof {
                        assert(events_view(events@) =~= events_view(evs_pre).push(item_v));
                    }
                },
                ManagerType::Entity => {
                    if body.len() - at < 3 {
                        proof {
                            assert(spec_parse_items(body@, p0, section, rem, evm, enm) is None);
                        }
                        return None;
                    }
                    let action = match entity_action_from_u8(body[at]) {
                        Some(a) => a,
                        None => {
                            proof {
                                assert(spec_parse_items(
                                    body@,
                                    p0,
                                    section,
                                    rem,
                                    evm,
                                    enm,
                                ) is None);
                            }
                            return None;
                        },
                    };
                    at = at + 1;
                    let key = read_u16_be(body, at);
                    at = at + 2;
                    match action {
                        EntityActionType::Create => {
                            if body.len() - at < 2 {
                                proof {
                                    assert(spec_parse_items(
                                        body@,
                                        p0,
                                        section,
                                        rem,
                                        evm,
                                        enm,
                                    ) is None);
                                }
                                return None;
                            }
                            let variant_tag = read_u16_be(body, at);
                            at = at + 2;
                            let field_count = match entity_manifest.field_count(variant_tag) {
                                Some(n) => n as usize,
                                None => {
                                    proof {
                                        assert(spec_parse_items(
                                            body@,
                                            p0,
                                            section,
                                            rem,
                                            evm,
                                            enm,
                                        ) is None);
                                    }
                                    return None;
                                },
                            };
                            if body.len() - at < field_count {
                                proof {
                                    assert(spec_parse_items(
                                        body@,
                                        p0,
                                        section,
                                        rem,
                                        evm,
                                        enm,
                                    ) is None);
                                }
                                return None;
                            }
                            let mut fields: Vec<u8> = Vec::new();
                            let mut i: usize = 0;
                            while i < field_count
                                invariant
                                    i <= field_count,
                                    at + field_count <= body@.len(),
                                    fields@ == body@.subrange(at as int, at as int + i),
                                decreases field_count - i,
                            {
                                fields.push(body[at + i]);
                                i = i + 1;
                                proof {
                                    assert(fields@ =~= body@.subrange(
                                        at as int,
                                        at as int + i,
                                    ));
                                }
                            }
                            let ghost item_v = GhostEntityMsg::Create {
                                key,
                                variant_tag,
                                fields: body@.subrange(p0 + 5, p0 + 5 + field_count),
                            };
                            proof {
                                let rest = spec_parse_items(
                                    body@,
                                    p0 + 5 + field_count,
                                    section,
                                    (rem - 1) as nat,
                                    evm,
                                    enm,
                                );
                                assert(spec_parse_items(body@, p0, section, rem, evm, enm)
                                    == (match rest {
                                    None => None,
                                    Some((evs, ms)) => Some((evs, seq![item_v] + ms)),
                                }));
                                lemma_cont_prepend_msg(
                                    rest,
                                    item_v,
                                    events_view(events@),
                                    msgs_view(msgs@),
                                );
                            }
                            at = at + field_count;
                            let ghost msgs_pre = msgs@;
                            msgs.push(EntityWireMessage::Create { key, variant_tag, fields });
                            proof {
                                assert(msgs_view(msgs@) =~= msgs_view(msgs_pre).push(item_v));
                            }
                        },
                        EntityActionType::Update => {
                            if body.len() - at < 4 {
                                proof {
                                    assert(spec_parse_items(
                                        body@,
                                        p0,
                                        section,
                                        rem,
                                        evm,
                                        enm,
                                    ) is None);
                                }
                                return None;
                            }
                            let mask_bits = read_u32_be(body, at);
                            at = at + 4;
                            let full = StateMask { bits: mask_bits, width: 32 };
                            let n = full.count_set() as usize;
                            if body.len() - at < n {
                                proof {
                                    assert(spec_parse_items(
                                        body@,
                                        p0,
                                        section,
                                        rem,
                                        evm,
                                        enm,
                                    ) is None);
                                }
                                return None;
                            }
                            let mut bytes: Vec<u8> = Vec::new();
                            let mut i: usize = 0;
                            while i < n
                                invariant
                                    i <= n,
                                    at + n <= body@.len(),
                                    bytes@ == body@.subrange(at as int, at as int + i),
                                decreases n - i,
                            {
                                bytes.push(body[at + i]);
                                i = i + 1;
                                proof {
                                    assert(bytes@ =~= body@.subrange(at as int, at as int + i));
                                }
                            }
                            let ghost item_v = GhostEntityMsg::Update {
                                key,
                                mask_bits,
                                bytes: body@.subrange(p0 + 7, p0 + 7 + n),
                            };
                            proof {
                                let rest = spec_parse_items(
                                    body@,
                                    p0 + 7 + n,
                                    section,
                                    (rem - 1) as nat,
                                    evm,
                                    enm,
                                );
                                assert(spec_parse_items(body@, p0, section, rem, evm, enm)
                                    == (match rest {
                                    None => None,
                                    Some((evs, ms)) => Some((evs, seq![item_v] + ms)),
                                }));
                                lemma_cont_prepend_msg(
                                    rest,
                                    item_v,
                                    events_view(events@),
                                    msgs_view(msgs@),
                                );
                            }
                            at = at + n;
                            let ghost msgs_pre = msgs@;
                            msgs.push(EntityWireMessage::Update { key, mask_bits, bytes });
                            proof {
                                assert(msgs_view(msgs@) =~= msgs_view(msgs_pre).push(item_v));
                            }
                        },
                        EntityActionType::Delete => {
                            let ghost item_v = GhostEntityMsg::Delete { key };
                            proof {
                                let rest = spec_parse_items(
                                    body@,
                                    p0 + 3,
                                    section,
                                    (rem - 1) as nat,
                                    evm,
                                    enm,
                                );
                                assert(spec_parse_items(body@, p0, section, rem, evm, enm)
                                    == (match rest {
                                    None => None,
                                    Some((evs, ms)) => Some((evs, seq![item_v] + ms)),
                                }));
                                lemma_cont_prepend_msg(
                                    rest,
                                    item_v,
                                    events_view(events@),
                                    msgs_view(msgs@),
                                );
                            }
                            let ghost msgs_pre = msgs@;
                            msgs.push(EntityWireMessage::Delete { key });
                            proof {
                                assert(msgs_view(msgs@) =~= msgs_view(msgs_pre).push(item_v));
                            }
                        },
                    }
                },
            }
            item = item + 1;
        }
    }
    proof {
        assert(spec_parse_from(body@, at as int, evm, enm) == Some(
            (Seq::<(u16, Seq<u8>)>::empty(), Seq::<GhostEntityMsg>::empty()),
        ));
        assert(events_view(events@) + Seq::<(u16, Seq<u8>)>::empty() =~= events_view(events@));
        assert(msgs_view(msgs@) + Seq::<GhostEntityMsg>::empty() =~= msgs_view(msgs@));
    }
    Some((events, msgs))
}

} // verus!
