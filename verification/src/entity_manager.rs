//! Server-side entity replication: per-peer dirty masks, create / update /
//! delete messages, and per-packet resend tracking.
//!
//! Every mutation sets the field's bit in the entity's live state mask.
//! Popping a message for a packet snapshots the live mask into the message
//! and clears it; if the packet is lost the snapshot is folded back in, so
//! a dirty bit stays tracked — in the live mask or in some unresolved
//! snapshot — until a packet carrying it is acknowledged.

use vstd::prelude::*;
use crate::manifest::{entity_wf, Entity};
use crate::packet_type::EntityActionType;
use crate::state_mask::{mask_wf, spec_bit, StateMask};

verus! {

/// One replicated entity as this peer's connection tracks it.
pub struct EntityRecord {
    /// The server-assigned 16-bit key.
    pub key: u16,
    /// The entity value replicated to this peer.
    pub entity: Entity,
    /// The live dirty mask: fields changed since their last snapshot.
    pub state_mask: StateMask,
    /// Whether the peer has acknowledged a packet carrying the create.
    pub creation_acked: bool,
    /// Whether the entity was removed; kept until the delete is acked.
    pub deleted: bool,
}

/// A replication message as written into a packet.
pub struct OutgoingEntityMessage {
    /// Create, update or delete.
    pub action: EntityActionType,
    /// The entity key.
    pub key: u16,
    /// The entity's variant tag (used by create).
    pub variant_tag: u16,
    /// The dirty-mask snapshot taken when the message was popped.
    pub mask: StateMask,
    /// Full state for create, masked partial state for update, empty for
    /// delete.
    pub fields: Vec<u8>,
}

impl OutgoingEntityMessage {
    /// Copies the message.
    pub fn duplicate(&self) -> (r: OutgoingEntityMessage)
        ensures
            r.action == self.action,
            r.key == self.key,
            r.variant_tag == self.variant_tag,
            r.mask == self.mask,
            r.fields@ == self.fields@,
    {
        let fields = self.fields.clone();
        proof {
            assert(fields@ =~= self.fields@);
        }
        OutgoingEntityMessage {
            action: self.action,
            key: self.key,
            variant_tag: self.variant_tag,
            mask: self.mask,
            fields,
        }
    }
}

/// A message written into a packet whose fate is still unknown.
pub struct PendingEntityMessage {
    /// The sequence number of the carrying packet.
    pub packet_seq: u16,
    /// The message, kept so a loss can restore its mask snapshot.
    pub message: OutgoingEntityMessage,
}

/// The record whose key is `key`, first match.
pub open spec fn spec_record(s: Seq<EntityRecord>, key: u16) -> Option<EntityRecord>
    decreases s.len(),
{
    if s.len() == 0 {
        None
    } else if s[0].key == key {
        Some(s[0])
    } else {
        spec_record(s.skip(1), key)
    }
}

/// Field bit `i` of `key` is dirty in some snapshot of the list.
pub open spec fn pending_in(s: Seq<PendingEntityMessage>, key: u16, i: u8) -> bool {
    exists|j: int|
        0 <= j < s.len() && (#[trigger] s[j]).message.key == key && spec_bit(
            s[j].message.mask.bits,
            i,
        )
}

/// Some snapshot carried by packet `packet_seq` covers bit `i` of `key`.
pub open spec fn snapshot_covers(
    s: Seq<PendingEntityMessage>,
    packet_seq: u16,
    key: u16,
    i: u8,
) -> bool {
    exists|j: int|
        0 <= j < s.len() && (#[trigger] s[j]).packet_seq == packet_seq && s[j].message.key == key
            && spec_bit(s[j].message.mask.bits, i)
}

/// Packet `packet_seq` carries a delete message for `key`.
pub open spec fn carries_delete(s: Seq<PendingEntityMessage>, packet_seq: u16, key: u16) -> bool {
    exists|j: int|
        0 <= j < s.len() && (#[trigger] s[j]).packet_seq == packet_seq && s[j].message.key == key
            && s[j].message.action is Delete
}

/// Field bit `i` of `key` is dirty in the live mask of the record list.
pub open spec fn live_in(s: Seq<EntityRecord>, key: u16, i: u8) -> bool {
    match spec_record(s, key) {
        Some(r) => spec_bit(r.state_mask.bits, i),
        None => false,
    }
}

/// Server-side entity replication state for one peer.
pub struct ServerEntityManager {
    records: Vec<EntityRecord>,
    queued: Vec<(u16, EntityActionType)>,
    in_flight: Vec<PendingEntityMessage>,
}

impl ServerEntityManager {
    /// The tracked entity records.
    pub closed spec fn records(self) -> Seq<EntityRecord> {
        self.records@
    }

    /// Replication messages not yet written into a packet, oldest first.
    pub closed spec fn queued(self) -> Seq<(u16, EntityActionType)> {
        self.queued@
    }

    /// Messages inside packets whose fate is still unknown.
    pub closed spec fn in_flight(self) -> Seq<PendingEntityMessage> {
        self.in_flight@
    }

    /// The record tracked under `key`, if any.
    pub open spec fn record_of(self, key: u16) -> Option<EntityRecord> {
        spec_record(self.records(), key)
    }

    /// Field bit `i` of `key` is dirty in the live mask.
    pub open spec fn live_bit(self, key: u16, i: u8) -> bool {
        live_in(self.records(), key, i)
    }

    /// Field bit `i` of `key` sits in some unresolved snapshot.
    pub open spec fn pending_bit(self, key: u16, i: u8) -> bool {
        pending_in(self.in_flight(), key, i)
    }

    /// Field bit `i` of `key` is still owed to the peer: dirty in the live
    /// mask or carried by an unresolved packet. Only an acknowledgement of
    /// a packet carrying the bit ever clears it.
    pub open spec fn tracked_bit(self, key: u16, i: u8) -> bool {
        self.live_bit(key, i) || self.pending_bit(key, i)
    }

    /// Well-formedness: every record is internally consistent, keys are
    /// unique, and every queued or in-flight message resolves to a record
    /// of matching mask width.
    pub open spec fn wf(self) -> bool {
        &&& forall|j: int|
            0 <= j < self.records().len() ==> {
                &&& entity_wf((#[trigger] self.records()[j]).entity)
                &&& mask_wf(self.records()[j].state_mask)
                &&& self.records()[j].state_mask.width as int
                    == self.records()[j].entity.fields@.len()
            }
        &&& forall|j1: int, j2: int|
            0 <= j1 < j2 < self.records().len() ==> (#[trigger] self.records()[j1]).key != (
            #[trigger] self.records()[j2]).key
        &&& forall|j: int|
            0 <= j < self.queued().len() ==> spec_record(
                self.records(),
                (#[trigger] self.queued()[j]).0,
            ) is Some
        &&& forall|j: int|
            0 <= j < self.in_flight().len() ==> {
                &&& spec_record(
                    self.records(),
                    (#[trigger] self.in_flight()[j]).message.key,
                ) is Some
                &&& mask_wf(self.in_flight()[j].message.mask)
                &&& self.in_flight()[j].message.mask.width == spec_record(
                    self.records(),
                    self.in_flight()[j].message.key,
                )->Some_0.state_mask.width
            }
    }

    /// An empty manager.
    pub fn new() -> (m: ServerEntityManager)
        ensures
            m.wf(),
            m.records().len() == 0,
            m.queued().len() == 0,
            m.in_flight().len() == 0,
            forall|k: u16| m.record_of(k) is None,
    {
        ServerEntityManager { records: Vec::new(), queued: Vec::new(), in_flight: Vec::new() }
    }

    /// Index of the record whose key is `key`, if any.
    fn find_index(&self, key: u16) -> (r: Option<usize>)
        ensures
            match r {
                Some(i) => {
                    &&& i < self.records().len()
                    &&& self.records()[i as int].key == key
                    &&& self.record_of(key) == Some(self.records()[i as int])
                },
                None => self.record_of(key) is None,
            },
    {
        let mut i: usize = 0;
        proof {
            assert(self.records@.skip(0) =~= self.records@);
        }
        while i < self.records.len()
            invariant
                i <= self.records@.len(),
                spec_record(self.records@, key) == spec_record(
                    self.records@.skip(i as int),
                    key,
                ),
            decreases self.records@.len() - i,
        {
            proof {
                assert(self.records@.skip(i as int)[0] == self.records@[i as int]);
                assert(self.records@.skip(i as int).skip(1) =~= self.records@.skip(i as int + 1));
            }
            if self.records[i].key == key {
                return Some(i);
            }
            i = i + 1;
        }
        None
    }

    /// Whether an entity is tracked under `key`.
    pub fn has_entity(&self, key: u16) -> (r: bool)
        ensures
            r == (self.record_of(key) is Some),
    {
        self.find_index(key).is_some()
    }

    /// Whether any replication message waits to be written into a packet.
    pub fn has_outgoing_messages(&self) -> (r: bool)
        ensures
            r == (self.queued().len() > 0),
    {
        self.queued.len() > 0
    }

    /// Starts replicating `entity` under `key`: the entity is fully dirty
    /// for this peer and a create message is queued.
    pub fn add_entity(&mut self, key: u16, entity: Entity)
        requires
            old(self).wf(),
            entity_wf(entity),
            old(self).record_of(key) is None,
        ensures
            final(self).wf(),
            final(self).record_of(key) matches Some(r) && {
                &&& r.entity.variant_tag == entity.variant_tag
                &&& r.entity.fields@ == entity.fields@
                &&& !r.creation_acked
                &&& !r.deleted
                &&& forall|i: u8| i < entity.fields@.len() ==> spec_bit(r.state_mask.bits, i)
            },
            forall|k: u16|
                k != key ==> #[trigger] final(self).record_of(k) == old(self).record_of(k),
            final(self).queued() == old(self).queued().push((key, EntityActionType::Create)),
            final(self).in_flight() == old(self).in_flight(),
    {
        let width = entity.fields.len() as u8;
        let record = EntityRecord {
            key,
            entity,
            state_mask: StateMask::new_full(width),
            creation_acked: false,
            deleted: false,
        };
        proof {
            lemma_record_push(self.records@, record, key);
            assert forall|k: u16| k != key implies spec_record(
                self.records@.push(record),
                k,
            ) == spec_record(self.records@, k) by {
                lemma_record_push(self.records@, record, k);
            }
        }
        self.records.push(record);
        self.queued.push((key, EntityActionType::Create));
        proof {
            assert forall|j1: int, j2: int|
                0 <= j1 < j2 < self.records@.len() implies (#[trigger] self.records@[j1]).key != (
            #[trigger] self.records@[j2]).key by {
                if j2 == self.records@.len() - 1 {
                    lemma_record_index_any(old(self).records@, j1);
                    assert(self.records@[j1] == old(self).records@[j1]);
                }
            }
            assert forall|j: int| 0 <= j < self.records@.len() implies spec_record(
                self.records@,
                (#[trigger] self.records@[j]).key,
            ) is Some by {
                lemma_record_index_any(self.records@, j);
            }
        }
    }

    /// Records a field mutation: the field value changes and its dirty bit
    /// is set; it stays tracked until a packet carrying it is acked.
    pub fn mutate_entity(&mut self, key: u16, field_index: u8, value: u8)
        requires
            old(self).wf(),
            old(self).record_of(key) matches Some(r) && !r.deleted && (field_index as int)
                < r.entity.fields@.len(),
        ensures
            final(self).wf(),
            final(self).record_of(key) matches Some(r) && {
                &&& r.entity.fields@ == old(self).record_of(key)->Some_0.entity.fields@.update(
                    field_index as int,
                    value,
                )
                &&& spec_bit(r.state_mask.bits, field_index)
                &&& r.creation_acked == old(self).record_of(key)->Some_0.creation_acked
                &&& r.deleted == old(self).record_of(key)->Some_0.deleted
                &&& r.entity.variant_tag == old(self).record_of(key)->Some_0.entity.variant_tag
            },
            forall|k: u16|
                k != key ==> #[trigger] final(self).record_of(k) == old(self).record_of(k),
            final(self).queued() == old(self).queued(),
            final(self).in_flight() == old(self).in_flight(),
            // The mutated bit is tracked; every other tracked bit is kept.
            final(self).tracked_bit(key, field_index),
            forall|k: u16, i: u8|
                i < 32 && old(self).tracked_bit(k, i) ==> final(self).tracked_bit(k, i),
    {
        let idx = match self.find_index(key) {
            Some(i) => i,
            None => {
                proof {
                    assert(false);
                }
                0
            },
        };
        let ghost pre = self.records@;
        let rec = &mut self.records[idx];
        rec.entity.fields[field_index as usize] = value;
        rec.state_mask.set_bit(field_index);
        proof {
            assert(self.records@ =~= pre.update(idx as int, self.records@[idx as int]));
            lemma_record_update(pre, idx as int, self.records@[idx as int]);
            assert forall|k: u16, i: u8|
                i < 32 && old(self).tracked_bit(k, i) implies self.tracked_bit(k, i) by {
                if old(self).live_bit(k, i) {
                    assert(self.live_bit(k, i));
                }
            }
        }
    }

    /// Marks the entity removed, drops its not-yet-sent updates, and
    /// queues a delete message. The record is kept until the delete is
    /// acknowledged.
    pub fn remove_entity(&mut self, key: u16)
        requires
            old(self).wf(),
            old(self).record_of(key) matches Some(r) && !r.deleted,
        ensures
            final(self).wf(),
            final(self).record_of(key) matches Some(r) && r.deleted,
            forall|k: u16|
                k != key ==> #[trigger] final(self).record_of(k) == old(self).record_of(k),
            final(self).queued() == old(self).queued().filter(
                |q: (u16, EntityActionType)| !(q.0 == key && q.1 is Update),
            ).push((key, EntityActionType::Delete)),
            final(self).in_flight() == old(self).in_flight(),
    {
        let idx = match self.find_index(key) {
            Some(i) => i,
            None => {
                proof {
                    assert(false);
                }
                0
            },
        };
        let ghost pre = self.records@;
        let rec = &mut self.records[idx];
        rec.deleted = true;
        proof {
            lemma_record_update(pre, idx as int, self.records@[idx as int]);
            assert(self.records@ =~= pre.update(idx as int, self.records@[idx as int]));
        }
        // Drop pending updates for the key: the delete supersedes them.
        let ghost qpre = self.queued@;
        let ghost keep = |q: (u16, EntityActionType)| !(q.0 == key && q.1 is Update);
        let mut work: Vec<(u16, EntityActionType)> = Vec::new();
        core::mem::swap(&mut work, &mut self.queued);
        let ghost n = qpre.len();
        let ghost mut i: int = 0;
        proof {
            assert(self.queued@ =~= qpre.subrange(0, 0).filter(keep));
            assert(work@ =~= qpre.subrange(0, n as int));
        }
        #[verifier::loop_isolation(false)]
        while work.len() > 0
            invariant
                0 <= i <= n,
                n == qpre.len(),
                work@ == qpre.subrange(i, n as int),
                self.queued@ == qpre.subrange(0, i).filter(keep),
                self.records@ == pre.update(idx as int, pre[idx as int].union_deleted()),
                self.in_flight@ == old(self).in_flight@,
                forall|j: int|
                    0 <= j < self.queued@.len() ==> spec_record(
                        self.records@,
                        (#[trigger] self.queued@[j]).0,
                    ) is Some,
            decreases work@.len(),
        {
            let ghost prefix = qpre.subrange(0, i);
            let q = work.remove(0);
            proof {
                assert(qpre.subrange(i, n as int)[0] == qpre[i]);
                assert(work@ =~= qpre.subrange(i + 1, n as int));
            }
            let is_update = match q.1 {
                EntityActionType::Update => true,
                _ => false,
            };
            if !(q.0 == key && is_update) {
                self.queued.push(q);
            }
            proof {
                let ii = i + 1;
                reveal(Seq::filter);
                assert(qpre.subrange(0, ii).drop_last() =~= prefix);
                assert(qpre.subrange(0, ii).last() == qpre[i]);
                i = i + 1;
            }
        }
        proof {
            assert(qpre.subrange(0, n as int) =~= qpre);
        }
        self.queued.push((key, EntityActionType::Delete));
        proof {
            let post = self.records@;
            assert forall|j: int| 0 <= j < post.len() implies {
                &&& entity_wf((#[trigger] post[j]).entity)
                &&& mask_wf(post[j].state_mask)
                &&& post[j].state_mask.width as int == post[j].entity.fields@.len()
            } by {
                assert(post[j] == if j == idx as int {
                    pre[idx as int].union_deleted()
                } else {
                    pre[j]
                });
            }
        }
    }

    /// The entity value tracked under `key`, for inspection.
    pub fn entity_state(&self, key: u16) -> (r: Option<&Entity>)
        ensures
            match r {
                Some(e) => self.record_of(key) matches Some(rec) && rec.entity == *e,
                None => self.record_of(key) is None,
            },
    {
        match self.find_index(key) {
            Some(i) => Some(&self.records[i].entity),
            None => None,
        }
    }

    /// Whether a mutation of field `field_index` of `key` is possible now:
    /// the entity is tracked, live, and has such a field.
    pub fn can_mutate(&self, key: u16, field_index: u8) -> (r: bool)
        ensures
            r == (self.record_of(key) matches Some(rec) && !rec.deleted && (field_index as int)
                < rec.entity.fields@.len()),
    {
        match self.find_index(key) {
            Some(i) => !self.records[i].deleted && (field_index as usize)
                < self.records[i].entity.fields.len(),
            None => false,
        }
    }

    /// Whether the entity is tracked and not already removed.
    pub fn can_remove(&self, key: u16) -> (r: bool)
        ensures
            r == (self.record_of(key) matches Some(rec) && !rec.deleted),
    {
        match self.find_index(key) {
            Some(i) => !self.records[i].deleted,
            None => false,
        }
    }

    /// Whether `(key, Update)` already waits in the queue.
    fn update_already_queued(&self, key: u16) -> (r: bool)
        ensures
            r == self.queued().contains((key, EntityActionType::Update)),
    {
        let mut i: usize = 0;
        let mut found = false;
        while i < self.queued.len()
            invariant
                i <= self.queued@.len(),
                found == exists|j: int|
                    0 <= j < i && self.queued@[j] == (key, EntityActionType::Update),
            decreases self.queued@.len() - i,
        {
            let (k, a) = self.queued[i];
            let is_update = match a {
                EntityActionType::Update => true,
                _ => false,
            };
            if k == key && is_update {
                found = true;
            }
            i = i + 1;
        }
        found
    }

    /// Scans the live entities once per tick: every live, creation-acked
    /// entity with a dirty field gets an update message queued, unless one
    /// is already waiting.
    #[verifier::loop_isolation(false)]
    pub fn collect_entity_updates(&mut self)
        requires
            old(self).wf(),
        ensures
            final(self).wf(),
            final(self).records() == old(self).records(),
            final(self).in_flight() == old(self).in_flight(),
            // The queue only grows, by update messages for dirty entities.
            final(self).queued().subrange(0, old(self).queued().len() as int) == old(
                self,
            ).queued(),
            forall|j: int|
                old(self).queued().len() <= j < final(self).queued().len() ==> {
                    &&& (#[trigger] final(self).queued()[j]).1 is Update
                    &&& final(self).record_of(final(self).queued()[j].0) matches Some(r)
                        && !r.deleted && r.creation_acked && r.state_mask.bits != 0
                },
            // Every dirty, live, creation-acked entity has an update queued.
            forall|j: int|
                0 <= j < old(self).records().len() && !(#[trigger] old(self).records()[j]).deleted
                    && old(self).records()[j].creation_acked && old(
                    self,
                ).records()[j].state_mask.bits != 0 ==> final(self).queued().contains(
                    (old(self).records()[j].key, EntityActionType::Update),
                ),
    {
        let ghost q0 = self.queued@;
        let mut i: usize = 0;
        while i < self.records.len()
            invariant
                i <= self.records@.len(),
                self.records@ == old(self).records@,
                self.in_flight@ == old(self).in_flight@,
                self.queued@.subrange(0, q0.len() as int) == q0,
                q0.len() <= self.queued@.len(),
                forall|j: int|
                    q0.len() <= j < self.queued@.len() ==> {
                        &&& (#[trigger] self.queued@[j]).1 is Update
                        &&& spec_record(self.records@, self.queued@[j].0) matches Some(r)
                            && !r.deleted && r.creation_acked && r.state_mask.bits != 0
                    },
                forall|j: int|
                    0 <= j < i && !(#[trigger] self.records@[j]).deleted
                        && self.records@[j].creation_acked && self.records@[j].state_mask.bits
                        != 0 ==> self.queued@.contains(
                        (self.records@[j].key, EntityActionType::Update),
                    ),
            decreases self.records@.len() - i,
        {
            let ghost qpre = self.queued@;
            let key = self.records[i].key;
            let dirty = !self.records[i].state_mask.is_clear();
            let eligible = !self.records[i].deleted && self.records[i].creation_acked && dirty;
            proof {
                lemma_record_index_any(self.records@, i as int);
            }
            if eligible && !self.update_already_queued(key) {
                self.queued.push((key, EntityActionType::Update));
            } else if eligible {
                proof {
                    assert(self.queued@.contains((key, EntityActionType::Update)));
                }
            }
            i = i + 1;
            proof {
                assert(self.queued@.subrange(0, q0.len() as int) =~= q0);
                assert forall|j: int|
                    0 <= j < i && !(#[trigger] self.records@[j]).deleted
                        && self.records@[j].creation_acked && self.records@[j].state_mask.bits
                        != 0 implies self.queued@.contains(
                    (self.records@[j].key, EntityActionType::Update),
                ) by {
                    if j < i - 1 {
                        let w = choose|w: int|
                            0 <= w < qpre.len() && qpre[w] == (
                            self.records@[j].key,
                            EntityActionType::Update,
                            );
                        assert(self.queued@[w] == (self.records@[j].key, EntityActionType::Update));
                    } else {
                        if self.queued@.len() > qpre.len() {
                            assert(self.queued@.last() == (
                                self.records@[j].key,
                                EntityActionType::Update,
                            ));
                        }
                    }
                }
            }
        }
        proof {
            let ghost qfin = self.queued@;
            assert forall|j: int| 0 <= j < qfin.len() implies spec_record(
                self.records@,
                (#[trigger] qfin[j]).0,
            ) is Some by {
                if j < q0.len() {
                    assert(qfin[j] == qfin.subrange(0, q0.len() as int)[j]);
                } else {
                    assert((#[trigger] qfin[j]).1 is Update);
                }
            }
        }
    }

    /// Takes the oldest queued message for packet `packet_seq`. A create
    /// or update message snapshots the entity's live dirty mask and clears
    /// it; the snapshot rides with the message so a loss can restore it,
    /// and every dirty bit stays tracked.
    #[verifier::rlimit(60)]
    pub fn pop_outgoing_message(&mut self, packet_seq: u16) -> (r: Option<OutgoingEntityMessage>)
        requires
            old(self).wf(),
        ensures
            final(self).wf(),
            r is None ==> old(self).queued().len() == 0 && *final(self) == *old(self),
            r matches Some(msg) ==> {
                &&& old(self).queued().len() > 0
                &&& (msg.key, msg.action) == old(self).queued()[0]
                &&& final(self).queued() == old(self).queued().subrange(
                    1,
                    old(self).queued().len() as int,
                )
                &&& old(self).record_of(msg.key) matches Some(rec) && {
                    &&& msg.variant_tag == rec.entity.variant_tag
                    &&& (msg.action is Create ==> msg.mask == rec.state_mask && msg.fields@
                        == rec.entity.fields@)
                    &&& (msg.action is Update ==> msg.mask == rec.state_mask && msg.fields@
                        == crate::manifest::spec_masked_fields(
                        rec.entity.fields@,
                        rec.state_mask.bits,
                        rec.entity.fields@.len() as int,
                    ))
                    &&& (msg.action is Delete ==> msg.mask.bits == 0 && msg.fields@.len() == 0)
                }
                &&& final(self).in_flight().len() == old(self).in_flight().len() + 1
                &&& final(self).in_flight().subrange(0, old(self).in_flight().len() as int)
                    == old(self).in_flight()
                &&& final(self).in_flight().last().packet_seq == packet_seq
                &&& final(self).in_flight().last().message.key == msg.key
                &&& final(self).in_flight().last().message.action == msg.action
                &&& final(self).in_flight().last().message.mask == msg.mask
                &&& msg.fields@.len() <= 32
                &&& ((msg.action is Create || msg.action is Update) ==> (final(self).record_of(
                    msg.key,
                ) matches Some(r2) && r2.state_mask.bits == 0 && r2.entity
                    == old(self).record_of(msg.key)->Some_0.entity))
                &&& (msg.action is Delete ==> final(self).record_of(msg.key) == old(
                    self,
                ).record_of(msg.key))
                &&& forall|k: u16|
                    k != msg.key ==> #[trigger] final(self).record_of(k) == old(self).record_of(k)
            },
            // Dirty bits move between mask and snapshot, never away: every
            // bit tracked before is tracked after, and vice versa.
            forall|k: u16, i: u8|
                i < 32 ==> #[trigger] final(self).tracked_bit(k, i) == old(self).tracked_bit(k, i),
    {
        if self.queued.len() == 0 {
            return None;
        }
        let (key, action) = self.queued.remove(0);
        proof {
            assert(self.queued@ =~= old(self).queued@.subrange(
                1,
                old(self).queued@.len() as int,
            ));
        }
        let idx = match self.find_index(key) {
            Some(i) => i,
            None => {
                proof {
                    assert(old(self).queued@[0] == (key, action));
                    assert(false);
                }
                0
            },
        };
        let ghost pre = self.records@;
        let variant_tag = self.records[idx].entity.variant_tag;
        let width = self.records[idx].state_mask.width;
        let is_delete = match action {
            EntityActionType::Delete => true,
            _ => false,
        };
        let mask = if is_delete {
            StateMask::new(width)
        } else {
            self.records[idx].state_mask
        };
        let fields = match action {
            EntityActionType::Create => self.records[idx].entity.duplicate().fields,
            EntityActionType::Update => self.records[idx].entity.masked_fields(&mask),
            EntityActionType::Delete => Vec::new(),
        };
        proof {
            if action is Update {
                crate::manifest::lemma_masked_fields_len(
                    self.records@[idx as int].entity.fields@,
                    mask.bits,
                    self.records@[idx as int].entity.fields@.len() as int,
                );
                crate::state_mask::lemma_count_set_bound(
                    mask.bits,
                    self.records@[idx as int].entity.fields@.len() as int,
                );
            }
        }
        if !is_delete {
            self.records[idx].state_mask.clear_all();
        }
        proof {
            lemma_record_update(pre, idx as int, self.records@[idx as int]);
            assert(self.records@ =~= pre.update(idx as int, self.records@[idx as int]));
        }
        let msg = OutgoingEntityMessage { action, key, variant_tag, mask, fields };
        let copy = msg.duplicate();
        self.in_flight.push(PendingEntityMessage { packet_seq, message: msg });
        proof {
            assert(self.in_flight@.subrange(0, old(self).in_flight@.len() as int) =~= old(
                self,
            ).in_flight@);
            let fin = *self;
            let prev = *old(self);
            assert forall|k: u16, i: u8| i < 32 implies #[trigger] fin.tracked_bit(k, i)
                == prev.tracked_bit(k, i) by {
                if k == key && !is_delete {
                    // The live bit moved into the snapshot at the end of
                    // the in-flight list.
                    let last = fin.in_flight().len() - 1;
                    if spec_bit(prev.record_of(key)->Some_0.state_mask.bits, i) {
                        assert(fin.in_flight()[last].message.key == key);
                        assert(fin.pending_bit(k, i));
                    }
                    if prev.pending_bit(k, i) {
                        let j = choose|j: int|
                            0 <= j < prev.in_flight().len() && (
                            #[trigger] prev.in_flight()[j]).message.key == k && spec_bit(
                                prev.in_flight()[j].message.mask.bits,
                                i,
                            );
                        assert(fin.in_flight()[j].message.key == k);
                        assert(fin.pending_bit(k, i));
                    }
                    if fin.pending_bit(k, i) && !prev.pending_bit(k, i) {
                        let j = choose|j: int|
                            0 <= j < fin.in_flight().len() && (
                            #[trigger] fin.in_flight()[j]).message.key == k && spec_bit(
                                fin.in_flight()[j].message.mask.bits,
                                i,
                            );
                        if j < prev.in_flight().len() {
                            assert(prev.pending_bit(k, i));
                        } else {
                            assert(spec_bit(prev.record_of(key)->Some_0.state_mask.bits, i));
                        }
                    }
                } else {
                    if prev.pending_bit(k, i) {
                        let j = choose|j: int|
                            0 <= j < prev.in_flight().len() && (
                            #[trigger] prev.in_flight()[j]).message.key == k && spec_bit(
                                prev.in_flight()[j].message.mask.bits,
                                i,
                            );
                        assert(fin.in_flight()[j].message.key == k);
                        assert(fin.pending_bit(k, i));
                    }
                    if fin.pending_bit(k, i) {
                        let j = choose|j: int|
                            0 <= j < fin.in_flight().len() && (
                            #[trigger] fin.in_flight()[j]).message.key == k && spec_bit(
                                fin.in_flight()[j].message.mask.bits,
                                i,
                            );
                        if j < prev.in_flight().len() {
                            assert(prev.pending_bit(k, i));
                        } else {
                            assert(spec_bit(fin.in_flight()[j].message.mask.bits, i));
                            if is_delete {
                                assert(!spec_bit(mask.bits, i)) by {
                                    crate::state_mask::lemma_bit_zero(i);
                                }
                            }
                        }
                    }
                }
            }
        }
        Some(copy)
    }

    /// Reverses the most recent pop for `packet_seq`: the message returns
    /// to the head of the queue and its mask snapshot folds back into the
    /// entity's live mask, so no dirty bit is dropped.
    #[verifier::rlimit(60)]
    pub fn unpop_outgoing_message(&mut self, packet_seq: u16)
        requires
            old(self).wf(),
            old(self).in_flight().len() > 0,
            old(self).in_flight().last().packet_seq == packet_seq,
        ensures
            final(self).wf(),
            final(self).in_flight() == old(self).in_flight().drop_last(),
            final(self).queued() == seq![
                (
                    old(self).in_flight().last().message.key,
                    old(self).in_flight().last().message.action,
                ),
            ] + old(self).queued(),
            forall|k: u16, i: u8|
                i < 32 ==> #[trigger] final(self).tracked_bit(k, i) == old(self).tracked_bit(k, i),
    {
        let p = match self.in_flight.pop() {
            Some(p) => p,
            None => vstd::pervasive::unreached(),
        };
        proof {
            assert(self.in_flight@ =~= old(self).in_flight@.drop_last());
        }
        let idx = match self.find_index(p.message.key) {
            Some(i) => i,
            None => {
                proof {
                    assert(old(self).in_flight@.last() == p);
                    assert(false);
                }
                0
            },
        };
        let ghost pre = self.records@;
        proof {
            assert(old(self).in_flight@.last() == p);
            lemma_record_index_any(pre, idx as int);
        }
        self.records[idx].state_mask.or_mask(&p.message.mask);
        proof {
            lemma_record_update(pre, idx as int, self.records@[idx as int]);
            assert(self.records@ =~= pre.update(idx as int, self.records@[idx as int]));
        }
        self.queued.insert(0, (p.message.key, p.message.action));
        proof {
            assert(self.queued@ =~= seq![(p.message.key, p.message.action)] + old(self).queued@);
            let fin = *self;
            let prev = *old(self);
            let key = p.message.key;
            assert forall|k: u16, i: u8| i < 32 implies #[trigger] fin.tracked_bit(k, i)
                == prev.tracked_bit(k, i) by {
                if prev.pending_bit(k, i) {
                    let j = choose|j: int|
                        0 <= j < prev.in_flight().len() && (
                        #[trigger] prev.in_flight()[j]).message.key == k && spec_bit(
                            prev.in_flight()[j].message.mask.bits,
                            i,
                        );
                    if j < prev.in_flight().len() - 1 {
                        assert(fin.in_flight()[j].message.key == k);
                        assert(fin.pending_bit(k, i));
                    } else {
                        assert(k == key);
                        assert(fin.live_bit(k, i));
                    }
                }
                if fin.pending_bit(k, i) {
                    let j = choose|j: int|
                        0 <= j < fin.in_flight().len() && (
                        #[trigger] fin.in_flight()[j]).message.key == k && spec_bit(
                            fin.in_flight()[j].message.mask.bits,
                            i,
                        );
                    assert(prev.in_flight()[j].message.key == k);
                    assert(prev.pending_bit(k, i));
                }
                if fin.live_bit(k, i) && !prev.live_bit(k, i) {
                    assert(k == key);
                    assert(spec_bit(p.message.mask.bits, i));
                    assert(prev.pending_bit(k, i)) by {
                        let last = prev.in_flight().len() - 1;
                        assert(prev.in_flight()[last].message.key == k);
                    }
                }
            }
        }
    }

    /// A packet was acknowledged: its snapshots are settled, a carried
    /// create marks the entity's creation acknowledged, and a carried
    /// delete purges the record once nothing else references it. Dirty
    /// bits only ever leave the tracked state here.
    #[verifier::loop_isolation(false)]
    #[verifier::rlimit(60)]
    pub fn notify_packet_acked(&mut self, packet_seq: u16)
        requires
            old(self).wf(),
        ensures
            final(self).wf(),
            final(self).queued() == old(self).queued(),
            // No message of the packet stays in flight, and nothing new
            // enters it.
            forall|j: int|
                0 <= j < final(self).in_flight().len() ==> (
                #[trigger] final(self).in_flight()[j]).packet_seq != packet_seq,
            forall|j: int|
                0 <= j < final(self).in_flight().len() ==> old(self).in_flight().contains(
                    #[trigger] final(self).in_flight()[j],
                ),
            // Acknowledgement only clears tracked dirty bits, never sets
            // one.
            forall|k: u16, i: u8|
                i < 32 && #[trigger] final(self).tracked_bit(k, i) ==> old(self).tracked_bit(k, i),
            // Preservation: a tracked bit leaves only when this packet
            // carried a snapshot covering it, or the key's delete.
            forall|k: u16, i: u8|
                i < 32 && old(self).tracked_bit(k, i) && !snapshot_covers(
                    old(self).in_flight(),
                    packet_seq,
                    k,
                    i,
                ) && !carries_delete(old(self).in_flight(), packet_seq, k)
                    ==> #[trigger] final(self).tracked_bit(k, i),
    {
        let ghost pre = self.in_flight@;
        let mut work: Vec<PendingEntityMessage> = Vec::new();
        core::mem::swap(&mut work, &mut self.in_flight);
        let ghost n = pre.len();
        let ghost mut i: int = 0;
        let mut resolved: Vec<PendingEntityMessage> = Vec::new();
        proof {
            assert(work@ =~= pre.subrange(0, n as int));
        }
        while work.len() > 0
            invariant
                0 <= i <= n,
                n == pre.len(),
                work@ == pre.subrange(i, n as int),
                self.records@ == old(self).records@,
                self.queued@ == old(self).queued@,
                forall|j: int|
                    0 <= j < self.in_flight@.len() ==> (#[trigger] self.in_flight@[j]).packet_seq
                        != packet_seq,
                forall|j: int|
                    0 <= j < self.in_flight@.len() ==> pre.contains(
                        #[trigger] self.in_flight@[j],
                    ),
                forall|w: int|
                    0 <= w < i && (#[trigger] pre[w]).packet_seq != packet_seq
                        ==> self.in_flight@.contains(pre[w]),
                forall|j: int|
                    0 <= j < resolved@.len() ==> (#[trigger] resolved@[j]).packet_seq == packet_seq
                        && pre.contains(resolved@[j]),
            decreases work@.len(),
        {
            let ghost flight_pre = self.in_flight@;
            let p = work.remove(0);
            proof {
                assert(pre.subrange(i, n as int)[0] == pre[i]);
                assert(pre.contains(pre[i]));
                assert(work@ =~= pre.subrange(i + 1, n as int));
                i = i + 1;
            }
            if p.packet_seq != packet_seq {
                self.in_flight.push(p);
                proof {
                    assert forall|w: int|
                        0 <= w < i && (#[trigger] pre[w]).packet_seq != packet_seq implies self.in_flight@.contains(
                        pre[w],
                    ) by {
                        if w < i - 1 {
                            let idx = choose|idx: int|
                                0 <= idx < flight_pre.len() && flight_pre[idx] == pre[w];
                            assert(self.in_flight@[idx] == pre[w]);
                        } else {
                            assert(self.in_flight@[self.in_flight@.len() - 1] == pre[w]);
                        }
                    }
                }
            } else {
                resolved.push(p);
                proof {
                    assert forall|w: int|
                        0 <= w < i && (#[trigger] pre[w]).packet_seq != packet_seq implies self.in_flight@.contains(
                        pre[w],
                    ) by {
                        assert(w < i - 1);
                    }
                }
            }
        }
        // Settle the resolved messages against the records.
        let ghost mid_flight = self.in_flight@;
        let mut r: usize = 0;
        while r < resolved.len()
            invariant
                r <= resolved@.len(),
                self.queued@ == old(self).queued@,
                self.in_flight@ == mid_flight,
                forall|j: int|
                    0 <= j < self.in_flight@.len() ==> (#[trigger] self.in_flight@[j]).packet_seq
                        != packet_seq,
                forall|j: int|
                    0 <= j < self.in_flight@.len() ==> pre.contains(
                        #[trigger] self.in_flight@[j],
                    ),
                forall|w: int|
                    0 <= w < pre.len() && (#[trigger] pre[w]).packet_seq != packet_seq
                        ==> self.in_flight@.contains(pre[w]),
                forall|j: int|
                    0 <= j < resolved@.len() ==> (#[trigger] resolved@[j]).packet_seq == packet_seq
                        && pre.contains(resolved@[j]),
                // The records only lose dirty bits or whole records.
                forall|k: u16, i2: u8|
                    i2 < 32 && #[trigger] live_in(self.records@, k, i2) ==> live_in(
                        old(self).records@,
                        k,
                        i2,
                    ),
                // A live bit is lost only to an acknowledged delete.
                forall|k: u16, i2: u8|
                    i2 < 32 && live_in(old(self).records@, k, i2) && !carries_delete(
                        pre,
                        packet_seq,
                        k,
                    ) ==> #[trigger] live_in(self.records@, k, i2),
                // Well-formedness pieces over the evolving record list.
                forall|j: int|
                    0 <= j < self.records@.len() ==> {
                        &&& entity_wf((#[trigger] self.records@[j]).entity)
                        &&& mask_wf(self.records@[j].state_mask)
                        &&& self.records@[j].state_mask.width as int
                            == self.records@[j].entity.fields@.len()
                    },
                forall|j1: int, j2: int|
                    0 <= j1 < j2 < self.records@.len() ==> (#[trigger] self.records@[j1]).key != (
                    #[trigger] self.records@[j2]).key,
                forall|j: int|
                    0 <= j < self.queued@.len() ==> spec_record(
                        self.records@,
                        (#[trigger] self.queued@[j]).0,
                    ) is Some,
                forall|j: int|
                    0 <= j < self.in_flight@.len() ==> {
                        &&& spec_record(
                            self.records@,
                            (#[trigger] self.in_flight@[j]).message.key,
                        ) is Some
                        &&& mask_wf(self.in_flight@[j].message.mask)
                        &&& self.in_flight@[j].message.mask.width == spec_record(
                            self.records@,
                            self.in_flight@[j].message.key,
                        )->Some_0.state_mask.width
                    },
            decreases resolved@.len() - r,
        {
            let key = resolved[r].message.key;
            let is_create = match resolved[r].message.action {
                EntityActionType::Create => true,
                _ => false,
            };
            let is_delete = match resolved[r].message.action {
                EntityActionType::Delete => true,
                _ => false,
            };
            if is_create {
                match self.find_index(key) {
                    Some(idx) => {
                        let ghost recs = self.records@;
                        let rec = &mut self.records[idx];
                        rec.creation_acked = true;
                        proof {
                            lemma_record_update(recs, idx as int, self.records@[idx as int]);
                            assert(self.records@ =~= recs.update(
                                idx as int,
                                self.records@[idx as int],
                            ));
                            assert forall|k: u16, i2: u8|
                                i2 < 32 && #[trigger] live_in(self.records@, k, i2) implies live_in(
                                old(self).records@,
                                k,
                                i2,
                            ) by {
                                if k == key {
                                    assert(spec_record(recs, key) == Some(recs[idx as int]));
                                    assert(spec_record(self.records@, key)
                                        == Some(self.records@[idx as int]));
                                    assert(self.records@[idx as int].state_mask
                                        == recs[idx as int].state_mask);
                                    assert(live_in(recs, k, i2));
                                } else {
                                    assert(spec_record(self.records@, k) == spec_record(recs, k));
                                    assert(live_in(recs, k, i2));
                                }
                            }
                            assert forall|k: u16, i2: u8|
                                i2 < 32 && live_in(old(self).records@, k, i2) && !carries_delete(
                                    pre,
                                    packet_seq,
                                    k,
                                ) implies #[trigger] live_in(self.records@, k, i2) by {
                                assert(live_in(recs, k, i2));
                                if k == key {
                                    assert(spec_record(recs, key) == Some(recs[idx as int]));
                                    assert(spec_record(self.records@, key)
                                        == Some(self.records@[idx as int]));
                                    assert(self.records@[idx as int].state_mask
                                        == recs[idx as int].state_mask);
                                } else {
                                    assert(spec_record(self.records@, k) == spec_record(recs, k));
                                }
                            }
                        }
                    },
                    None => {},
                }
            } else if is_delete {
                // Purge the record once nothing else references the key.
                match self.find_index(key) {
                    Some(idx) => {
                        if !self.key_referenced(key) {
                            let ghost recs = self.records@;
                            self.records.remove(idx);
                            proof {
                                assert(self.records@ =~= recs.remove(idx as int));
                                lemma_record_remove(recs, idx as int);
                                assert forall|j: int| 0 <= j < self.queued@.len() implies
                                    spec_record(
                                        self.records@,
                                        (#[trigger] self.queued@[j]).0,
                                    ) is Some by {
                                    assert(self.queued@[j].0 != key);
                                }
                                assert forall|j: int| 0 <= j < self.in_flight@.len() implies
                                    spec_record(
                                        self.records@,
                                        (#[trigger] self.in_flight@[j]).message.key,
                                    ) is Some by {
                                    assert(self.in_flight@[j].message.key != key);
                                }
                                assert forall|k: u16, i2: u8|
                                    i2 < 32 && #[trigger] live_in(
                                        self.records@,
                                        k,
                                        i2,
                                    ) implies live_in(old(self).records@, k, i2) by {
                                    if k != key {
                                        assert(live_in(recs, k, i2));
                                    }
                                }
                                assert forall|k: u16, i2: u8|
                                    i2 < 32 && live_in(old(self).records@, k, i2)
                                        && !carries_delete(
                                        pre,
                                        packet_seq,
                                        k,
                                    ) implies #[trigger] live_in(self.records@, k, i2) by {
                                    assert(live_in(recs, k, i2));
                                    if k == key {
                                        let w = choose|w: int|
                                            0 <= w < pre.len() && pre[w] == resolved@[r as int];
                                        assert((#[trigger] pre[w]).packet_seq == packet_seq
                                            && pre[w].message.key == key
                                            && pre[w].message.action is Delete);
                                        assert(false);
                                    } else {
                                        assert(spec_record(self.records@, k)
                                            == spec_record(recs, k));
                                    }
                                }
                            }
                        }
                    },
                    None => {},
                }
            }
            r = r + 1;
        }
        proof {
            let fin = *self;
            assert forall|k: u16, i2: u8|
                i2 < 32 && #[trigger] fin.tracked_bit(k, i2) implies old(self).tracked_bit(
                k,
                i2,
            ) by {
                if fin.pending_bit(k, i2) {
                    let j = choose|j: int|
                        0 <= j < fin.in_flight().len() && (#[trigger] fin.in_flight()[j]).message.key
                            == k && spec_bit(fin.in_flight()[j].message.mask.bits, i2);
                    let w = choose|w: int| 0 <= w < pre.len() && pre[w] == fin.in_flight()[j];
                    assert(old(self).in_flight()[w].message.key == k);
                }
            }
            assert forall|k: u16, i2: u8|
                i2 < 32 && old(self).tracked_bit(k, i2) && !snapshot_covers(
                    pre,
                    packet_seq,
                    k,
                    i2,
                ) && !carries_delete(pre, packet_seq, k) implies #[trigger] fin.tracked_bit(
                k,
                i2,
            ) by {
                if live_in(old(self).records@, k, i2) {
                    assert(live_in(self.records@, k, i2));
                } else {
                    assert(pending_in(pre, k, i2));
                    let w = choose|w: int|
                        0 <= w < pre.len() && (#[trigger] pre[w]).message.key == k && spec_bit(
                            pre[w].message.mask.bits,
                            i2,
                        );
                    assert(pre[w].packet_seq != packet_seq);
                    assert(self.in_flight@.contains(pre[w]));
                    let idx = choose|idx: int|
                        0 <= idx < self.in_flight@.len() && self.in_flight@[idx] == pre[w];
                    assert((#[trigger] self.in_flight@[idx]).message.key == k && spec_bit(
                        self.in_flight@[idx].message.mask.bits,
                        i2,
                    ));
                    assert(pending_in(self.in_flight@, k, i2));
                }
            }
        }
    }

    /// Whether any queued or in-flight message references `key`.
    #[verifier::loop_isolation(false)]
    fn key_referenced(&self, key: u16) -> (r: bool)
        ensures
            r == ((exists|j: int| 0 <= j < self.queued@.len() && (#[trigger] self.queued@[j]).0
                == key) || (exists|j: int|
                0 <= j < self.in_flight@.len() && (#[trigger] self.in_flight@[j]).message.key
                    == key)),
    {
        let mut i: usize = 0;
        let mut found = false;
        while i < self.queued.len()
            invariant
                i <= self.queued@.len(),
                found == exists|j: int| 0 <= j < i && (#[trigger] self.queued@[j]).0 == key,
            decreases self.queued@.len() - i,
        {
            if self.queued[i].0 == key {
                found = true;
            }
            i = i + 1;
        }
        if found {
            return true;
        }
        let mut i2: usize = 0;
        let mut found2 = false;
        while i2 < self.in_flight.len()
            invariant
                i2 <= self.in_flight@.len(),
                found2 == exists|j: int|
                    0 <= j < i2 && (#[trigger] self.in_flight@[j]).message.key == key,
            decreases self.in_flight@.len() - i2,
        {
            if self.in_flight[i2].message.key == key {
                found2 = true;
            }
            i2 = i2 + 1;
        }
        found2
    }

    /// A packet was declared lost: each snapshot it carried folds back
    /// into its entity's live mask, and a lost create or delete message is
    /// queued again. No tracked dirty bit is gained or lost.
    #[verifier::loop_isolation(false)]
    #[verifier::rlimit(60)]
    pub fn notify_packet_lost(&mut self, packet_seq: u16)
        requires
            old(self).wf(),
        ensures
            final(self).wf(),
            final(self).records().len() == old(self).records().len(),
            forall|j: int|
                0 <= j < final(self).in_flight().len() ==> (
                #[trigger] final(self).in_flight()[j]).packet_seq != packet_seq,
            forall|j: int|
                0 <= j < final(self).in_flight().len() ==> old(self).in_flight().contains(
                    #[trigger] final(self).in_flight()[j],
                ),
            // Retransmission keeps every tracked dirty bit, and adds none.
            forall|k: u16, i: u8|
                i < 32 ==> #[trigger] final(self).tracked_bit(k, i) == old(self).tracked_bit(k, i),
            // Nothing already queued is dropped.
            final(self).queued().subrange(0, old(self).queued().len() as int) == old(
                self,
            ).queued(),
    {
        let ghost pre = self.in_flight@;
        let ghost rec0 = self.records@;
        let ghost q0 = self.queued@;
        let mut work: Vec<PendingEntityMessage> = Vec::new();
        core::mem::swap(&mut work, &mut self.in_flight);
        let ghost n = pre.len();
        let ghost mut i: int = 0;
        proof {
            assert(work@ =~= pre.subrange(0, n as int));
            assert forall|k: u16, i2: u8|
                i2 < 32 implies (live_in(self.records@, k, i2) || pending_in(
                self.in_flight@,
                k,
                i2,
            ) || pending_in(work@, k, i2)) == old(self).tracked_bit(k, i2) by {
                if pending_in(pre, k, i2) {
                    let j = choose|j: int|
                        0 <= j < pre.len() && (#[trigger] pre[j]).message.key == k && spec_bit(
                            pre[j].message.mask.bits,
                            i2,
                        );
                    assert(work@[j] == pre[j]);
                }
                if pending_in(work@, k, i2) {
                    let j = choose|j: int|
                        0 <= j < work@.len() && (#[trigger] work@[j]).message.key == k && spec_bit(
                            work@[j].message.mask.bits,
                            i2,
                        );
                    assert(pre[j] == work@[j]);
                }
            }
        }
        while work.len() > 0
            invariant
                0 <= i <= n,
                n == pre.len(),
                work@ == pre.subrange(i, n as int),
                self.records@.len() == rec0.len(),
                self.queued@.subrange(0, q0.len() as int) == q0,
                q0.len() <= self.queued@.len(),
                forall|j: int|
                    0 <= j < self.in_flight@.len() ==> (#[trigger] self.in_flight@[j]).packet_seq
                        != packet_seq,
                forall|k: u16, i2: u8|
                    i2 < 32 ==> (live_in(self.records@, k, i2) || pending_in(
                        self.in_flight@,
                        k,
                        i2,
                    ) || pending_in(work@, k, i2)) == old(self).tracked_bit(k, i2),
                forall|j: int|
                    0 <= j < self.records@.len() ==> {
                        &&& entity_wf((#[trigger] self.records@[j]).entity)
                        &&& mask_wf(self.records@[j].state_mask)
                        &&& self.records@[j].state_mask.width as int
                            == self.records@[j].entity.fields@.len()
                    },
                forall|j1: int, j2: int|
                    0 <= j1 < j2 < self.records@.len() ==> (#[trigger] self.records@[j1]).key != (
                    #[trigger] self.records@[j2]).key,
                forall|k: u16|
                    spec_record(self.records@, k) is Some == spec_record(rec0, k) is Some,
                forall|k: u16|
                    spec_record(self.records@, k) is Some ==> spec_record(
                        self.records@,
                        k,
                    )->Some_0.state_mask.width == spec_record(rec0, k)->Some_0.state_mask.width,
                forall|j: int|
                    0 <= j < self.queued@.len() ==> spec_record(
                        self.records@,
                        (#[trigger] self.queued@[j]).0,
                    ) is Some,
                forall|j: int|
                    0 <= j < self.in_flight@.len() ==> {
                        &&& spec_record(
                            self.records@,
                            (#[trigger] self.in_flight@[j]).message.key,
                        ) is Some
                        &&& mask_wf(self.in_flight@[j].message.mask)
                        &&& self.in_flight@[j].message.mask.width == spec_record(
                            self.records@,
                            self.in_flight@[j].message.key,
                        )->Some_0.state_mask.width
                    },
                forall|j: int|
                    0 <= j < work@.len() ==> {
                        &&& spec_record(
                            self.records@,
                            (#[trigger] work@[j]).message.key,
                        ) is Some
                        &&& mask_wf(work@[j].message.mask)
                        &&& work@[j].message.mask.width == spec_record(
                            self.records@,
                            work@[j].message.key,
                        )->Some_0.state_mask.width
                    },
                forall|j: int|
                    0 <= j < self.in_flight@.len() ==> pre.contains(
                        #[trigger] self.in_flight@[j],
                    ),
            decreases work@.len(),
        {
            let ghost work_pre = work@;
            let ghost flight_pre = self.in_flight@;
            let ghost recs_pre = self.records@;
            let p = work.remove(0);
            proof {
                assert(work_pre[0] == pre.subrange(i, n as int)[0]);
                assert(work@ =~= pre.subrange(i + 1, n as int));
                i = i + 1;
            }
            if p.packet_seq != packet_seq {
                self.in_flight.push(p);
                proof {
                    assert(work@ =~= work_pre.skip(1));
                    assert(self.in_flight@ == flight_pre.push(work_pre[0]));
                    assert forall|j: int|
                        0 <= j < self.in_flight@.len() implies pre.contains(
                        #[trigger] self.in_flight@[j],
                    ) by {
                        if j < self.in_flight@.len() - 1 {
                            assert(self.in_flight@[j] == flight_pre[j]);
                        } else {
                            assert(self.in_flight@[j] == pre[i - 1]);
                        }
                    }
                    assert forall|k: u16, i2: u8|
                        i2 < 32 implies (live_in(self.records@, k, i2) || pending_in(
                        self.in_flight@,
                        k,
                        i2,
                    ) || pending_in(work@, k, i2)) == old(self).tracked_bit(k, i2) by {
                        lemma_pending_shift(flight_pre, work_pre, work@, self.in_flight@, k, i2);
                    }
                }
            } else {
                let key = p.message.key;
                let idx = match self.find_index(key) {
                    Some(idx) => idx,
                    None => vstd::pervasive::unreached(),
                };
                let ghost recs = self.records@;
                self.records[idx].state_mask.or_mask(&p.message.mask);
                proof {
                    lemma_record_update(recs, idx as int, self.records@[idx as int]);
                    assert(self.records@ =~= recs.update(idx as int, self.records@[idx as int]));
                }
                let requeue = match p.message.action {
                    EntityActionType::Create => true,
                    EntityActionType::Delete => true,
                    EntityActionType::Update => false,
                };
                if requeue {
                    self.queued.push((key, p.message.action));
                    proof {
                        assert(self.queued@.subrange(0, q0.len() as int) =~= q0);
                    }
                }
                proof {
                    assert forall|k: u16, i2: u8|
                        i2 < 32 implies (live_in(self.records@, k, i2) || pending_in(
                        self.in_flight@,
                        k,
                        i2,
                    ) || pending_in(work@, k, i2)) == old(self).tracked_bit(k, i2) by {
                        if k == key {
                            // The snapshot folded into the live mask; the
                            // rest of the work list shifted down by one.
                            if pending_in(work_pre, k, i2) {
                                let j = choose|j: int|
                                    0 <= j < work_pre.len() && (#[trigger] work_pre[j]).message.key
                                        == k && spec_bit(work_pre[j].message.mask.bits, i2);
                                if j > 0 {
                                    assert(work@[j - 1] == work_pre[j]);
                                    assert(pending_in(work@, k, i2));
                                } else {
                                    assert(live_in(self.records@, k, i2));
                                }
                            }
                            if pending_in(work@, k, i2) {
                                let j = choose|j: int|
                                    0 <= j < work@.len() && (#[trigger] work@[j]).message.key == k
                                        && spec_bit(work@[j].message.mask.bits, i2);
                                assert(work_pre[j + 1] == work@[j]);
                                assert(pending_in(work_pre, k, i2));
                            }
                            if live_in(self.records@, k, i2) && !live_in(recs_pre, k, i2) {
                                assert(spec_bit(p.message.mask.bits, i2));
                                assert(pending_in(work_pre, k, i2)) by {
                                    assert((#[trigger] work_pre[0]).message.key == k);
                                }
                            }
                        } else {
                            assert(work@ =~= work_pre.skip(1));
                            lemma_pending_shift(flight_pre, work_pre, work@, self.in_flight@, k, i2);
                            assert(live_in(self.records@, k, i2) == live_in(recs_pre, k, i2));
                        }
                    }
                }
            }
        }
        proof {
            let fin = *self;
            assert forall|k: u16, i2: u8| i2 < 32 implies #[trigger] fin.tracked_bit(k, i2) == old(
                self,
            ).tracked_bit(k, i2) by {
                assert(!pending_in(work@, k, i2));
            }
            assert(self.queued@.subrange(0, q0.len() as int) =~= q0);
        }
    }

}

impl EntityRecord {
    /// The same record with `deleted` set.
    pub open spec fn union_deleted(self) -> EntityRecord {
        EntityRecord {
            key: self.key,
            entity: self.entity,
            state_mask: self.state_mask,
            creation_acked: self.creation_acked,
            deleted: true,
        }
    }
}

/// When an entry moves from the front of the work list to the back of the
/// kept list (or is dropped with its bits accounted for elsewhere), the
/// union of pending bits over both lists is unchanged for keys the moved
/// entry does not dirty.
pub proof fn lemma_pending_shift(
    flight_pre: Seq<PendingEntityMessage>,
    work_pre: Seq<PendingEntityMessage>,
    work_post: Seq<PendingEntityMessage>,
    flight_post: Seq<PendingEntityMessage>,
    k: u16,
    i: u8,
)
    requires
        work_pre.len() > 0,
        work_post == work_pre.skip(1),
        flight_post == flight_pre || flight_post == flight_pre.push(work_pre[0]),
        flight_post == flight_pre ==> !(work_pre[0].message.key == k && spec_bit(
            work_pre[0].message.mask.bits,
            i,
        )),
    ensures
        (pending_in(flight_post, k, i) || pending_in(work_post, k, i)) == (pending_in(
            flight_pre,
            k,
            i,
        ) || pending_in(work_pre, k, i)),
{
    if pending_in(flight_pre, k, i) {
        let j = choose|j: int|
            0 <= j < flight_pre.len() && (#[trigger] flight_pre[j]).message.key == k && spec_bit(
                flight_pre[j].message.mask.bits,
                i,
            );
        assert(flight_post[j] == flight_pre[j]);
        assert(pending_in(flight_post, k, i));
    }
    if pending_in(work_pre, k, i) {
        let j = choose|j: int|
            0 <= j < work_pre.len() && (#[trigger] work_pre[j]).message.key == k && spec_bit(
                work_pre[j].message.mask.bits,
                i,
            );
        if j == 0 {
            assert(flight_post == flight_pre.push(work_pre[0]));
            assert(flight_post[flight_post.len() - 1] == work_pre[0]);
            assert(pending_in(flight_post, k, i));
        } else {
            assert(work_post[j - 1] == work_pre[j]);
            assert(pending_in(work_post, k, i));
        }
    }
    if pending_in(flight_post, k, i) {
        let j = choose|j: int|
            0 <= j < flight_post.len() && (#[trigger] flight_post[j]).message.key == k && spec_bit(
                flight_post[j].message.mask.bits,
                i,
            );
        if j < flight_pre.len() {
            assert(flight_pre[j] == flight_post[j]);
            assert(pending_in(flight_pre, k, i));
        } else {
            assert(work_pre[0] == flight_post[j]);
            assert(pending_in(work_pre, k, i));
        }
    }
    if pending_in(work_post, k, i) {
        let j = choose|j: int|
            0 <= j < work_post.len() && (#[trigger] work_post[j]).message.key == k && spec_bit(
                work_post[j].message.mask.bits,
                i,
            );
        assert(work_pre[j + 1] == work_post[j]);
        assert(pending_in(work_pre, k, i));
    }
}

/// Lookup after removing index `i`: the removed key answers `None` and
/// other keys are unchanged, provided keys are unique.
pub proof fn lemma_record_remove(s: Seq<EntityRecord>, i: int)
    requires
        0 <= i < s.len(),
        forall|j1: int, j2: int|
            0 <= j1 < j2 < s.len() ==> (#[trigger] s[j1]).key != (#[trigger] s[j2]).key,
    ensures
        spec_record(s.remove(i), s[i].key) is None,
        forall|k: u16| k != s[i].key ==> spec_record(s.remove(i), k) == spec_record(s, k),
        forall|j1: int, j2: int|
            0 <= j1 < j2 < s.remove(i).len() ==> (#[trigger] s.remove(i)[j1]).key != (
            #[trigger] s.remove(i)[j2]).key,
    decreases s.len(),
{
    let t = s.remove(i);
    assert forall|j1: int, j2: int|
        0 <= j1 < j2 < t.len() implies (#[trigger] t[j1]).key != (#[trigger] t[j2]).key by {
        assert(t[j1] == if j1 < i {
            s[j1]
        } else {
            s[j1 + 1]
        });
        assert(t[j2] == if j2 < i {
            s[j2]
        } else {
            s[j2 + 1]
        });
    }
    if i == 0 {
        assert(t =~= s.skip(1));
        assert forall|k: u16| k != s[0].key implies spec_record(t, k) == spec_record(s, k) by {
            assert(spec_record(s, k) == spec_record(s.skip(1), k));
        }
        assert forall|j: int| 0 <= j < t.len() implies (#[trigger] t[j]).key != s[0].key by {
            assert(t[j] == s[j + 1]);
        }
        lemma_record_absent(t, s[0].key);
    } else {
        assert(t[0] == s[0]);
        assert(t.skip(1) =~= s.skip(1).remove(i - 1));
        assert(s.skip(1)[i - 1] == s[i]);
        assert forall|j1: int, j2: int|
            0 <= j1 < j2 < s.skip(1).len() implies (#[trigger] s.skip(1)[j1]).key != (
        #[trigger] s.skip(1)[j2]).key by {
            assert(s.skip(1)[j1] == s[j1 + 1]);
            assert(s.skip(1)[j2] == s[j2 + 1]);
        }
        lemma_record_remove(s.skip(1), i - 1);
        assert(s[0].key != s[i].key);
        assert forall|k: u16| k != s[i].key implies spec_record(t, k) == spec_record(s, k) by {
            if s[0].key != k {
                assert(spec_record(t, k) == spec_record(t.skip(1), k));
                assert(spec_record(s, k) == spec_record(s.skip(1), k));
            }
        }
        assert(spec_record(t, s[i].key) == spec_record(t.skip(1), s[i].key));
    }
}

/// A key held by no record is not found.
pub proof fn lemma_record_absent(s: Seq<EntityRecord>, key: u16)
    requires
        forall|j: int| 0 <= j < s.len() ==> (#[trigger] s[j]).key != key,
    ensures
        spec_record(s, key) is None,
    decreases s.len(),
{
    if s.len() > 0 {
        assert(s[0].key != key);
        assert forall|j: int| 0 <= j < s.skip(1).len() implies (#[trigger] s.skip(1)[j]).key
            != key by {
            assert(s.skip(1)[j] == s[j + 1]);
        }
        lemma_record_absent(s.skip(1), key);
    }
}

/// Lookup after a push: unchanged for present keys, answers the pushed
/// record for its own key when absent before.
pub proof fn lemma_record_push(s: Seq<EntityRecord>, r: EntityRecord, key: u16)
    ensures
        spec_record(s, key) is Some ==> spec_record(s.push(r), key) == spec_record(s, key),
        spec_record(s, key) is None && r.key == key ==> spec_record(s.push(r), key) == Some(r),
        spec_record(s, key) is None && r.key != key ==> spec_record(s.push(r), key) is None,
    decreases s.len(),
{
    if s.len() == 0 {
        assert(s.push(r)[0] == r);
        assert(s.push(r).skip(1) =~= Seq::<EntityRecord>::empty());
        assert(spec_record(Seq::<EntityRecord>::empty(), key) is None);
    } else {
        assert(s.push(r)[0] == s[0]);
        assert(s.push(r).skip(1) =~= s.skip(1).push(r));
        lemma_record_push(s.skip(1), r, key);
    }
}

/// Lookup finds the first matching record, so the record at any index is
/// found under its key provided no earlier record shares it.
pub proof fn lemma_record_index_any(s: Seq<EntityRecord>, j: int)
    requires
        0 <= j < s.len(),
        forall|j1: int, j2: int|
            0 <= j1 < j2 < s.len() ==> (#[trigger] s[j1]).key != (#[trigger] s[j2]).key,
    ensures
        spec_record(s, s[j].key) == Some(s[j]),
    decreases s.len(),
{
    if j == 0 {
    } else {
        assert(s[0].key != s[j].key);
        assert(s.skip(1)[j - 1] == s[j]);
        assert forall|j1: int, j2: int|
            0 <= j1 < j2 < s.skip(1).len() implies (#[trigger] s.skip(1)[j1]).key != (
        #[trigger] s.skip(1)[j2]).key by {
            assert(s.skip(1)[j1] == s[j1 + 1]);
            assert(s.skip(1)[j2] == s[j2 + 1]);
        }
        lemma_record_index_any(s.skip(1), j - 1);
    }
}

/// Lookup after updating index `i`: the updated key answers the new
/// record; other keys are unchanged, provided keys are unique and the
/// update keeps the key.
pub proof fn lemma_record_update(s: Seq<EntityRecord>, i: int, r: EntityRecord)
    requires
        0 <= i < s.len(),
        r.key == s[i].key,
        forall|j1: int, j2: int|
            0 <= j1 < j2 < s.len() ==> (#[trigger] s[j1]).key != (#[trigger] s[j2]).key,
    ensures
        spec_record(s.update(i, r), r.key) == Some(r),
        forall|k: u16| k != r.key ==> spec_record(s.update(i, r), k) == spec_record(s, k),
        forall|j1: int, j2: int|
            0 <= j1 < j2 < s.update(i, r).len() ==> (#[trigger] s.update(i, r)[j1]).key != (
            #[trigger] s.update(i, r)[j2]).key,
    decreases s.len(),
{
    let t = s.update(i, r);
    assert forall|j1: int, j2: int|
        0 <= j1 < j2 < t.len() implies (#[trigger] t[j1]).key != (#[trigger] t[j2]).key by {
        assert(t[j1] == if j1 == i {
            r
        } else {
            s[j1]
        });
        assert(t[j2] == if j2 == i {
            r
        } else {
            s[j2]
        });
    }
    if i == 0 {
        assert(t[0] == r);
        assert forall|k: u16| k != r.key implies spec_record(t, k) == spec_record(s, k) by {
            assert(t.skip(1) =~= s.skip(1));
            assert(s[0].key == r.key);
            assert(spec_record(t, k) == spec_record(t.skip(1), k));
            assert(spec_record(s, k) == spec_record(s.skip(1), k));
        }
    } else {
        assert(t[0] == s[0]);
        assert(t.skip(1) =~= s.skip(1).update(i - 1, r));
        assert(s.skip(1)[i - 1] == s[i]);
        assert forall|j1: int, j2: int|
            0 <= j1 < j2 < s.skip(1).len() implies (#[trigger] s.skip(1)[j1]).key != (
        #[trigger] s.skip(1)[j2]).key by {
            assert(s.skip(1)[j1] == s[j1 + 1]);
            assert(s.skip(1)[j2] == s[j2 + 1]);
        }
        lemma_record_update(s.skip(1), i - 1, r);
        assert(s[0].key != r.key);
        assert forall|k: u16| k != r.key implies spec_record(t, k) == spec_record(s, k) by {
            assert(t[0] == s[0]);
            if s[0].key != k {
                assert(spec_record(t, k) == spec_record(t.skip(1), k));
                assert(spec_record(s, k) == spec_record(s.skip(1), k));
            }
        }
    }
}

} // verus!
