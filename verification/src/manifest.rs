//! The application-supplied catalogs ("manifests") of event and entity
//! variants, and the plain entity value the replication layer works on.
//!
//! A variant tag (`naia_id`) names a constructor and decoder that client
//! and server agree on. In this runtime every replicated field carries one
//! byte of state, so a decoder is fully described by its field or payload
//! count, and construction succeeds for every registered tag; an
//! unregistered tag in a received message is a protocol error and the
//! packet is discarded.

use vstd::prelude::*;
use crate::state_mask::{spec_bit, spec_count_set, MAX_MASK_WIDTH, StateMask};

verus! {

/// A replicated entity value: its variant tag and one byte per field.
pub struct Entity {
    /// The manifest-defined variant tag.
    pub variant_tag: u16,
    /// The field values, one byte each, at most 32 fields.
    pub fields: Vec<u8>,
}

/// An entity is well formed when its field count fits a state mask.
pub open spec fn entity_wf(e: Entity) -> bool {
    e.fields@.len() <= MAX_MASK_WIDTH as int
}

impl Entity {
    /// Builds an entity value from its variant tag and field bytes.
    pub fn new(variant_tag: u16, fields: Vec<u8>) -> (e: Entity)
        requires
            fields@.len() <= MAX_MASK_WIDTH as int,
        ensures
            entity_wf(e),
            e.variant_tag == variant_tag,
            e.fields@ == fields@,
    {
        Entity { variant_tag, fields }
    }

    /// Copies the entity value.
    pub fn duplicate(&self) -> (r: Entity)
        ensures
            r.variant_tag == self.variant_tag,
            r.fields@ == self.fields@,
    {
        let fields = self.fields.clone();
        proof {
            assert(fields@ =~= self.fields@);
        }
        Entity { variant_tag: self.variant_tag, fields }
    }

    /// The bytes of the fields named by `mask`, in ascending field order:
    /// the partial state an update message carries.
    pub fn masked_fields(&self, mask: &StateMask) -> (r: Vec<u8>)
        requires
            entity_wf(*self),
            mask.width as int == self.fields@.len(),
        ensures
            r@ == spec_masked_fields(self.fields@, mask.bits, self.fields@.len() as int),
    {
        let mut out: Vec<u8> = Vec::new();
        let mut i: usize = 0;
        while i < self.fields.len()
            invariant
                i <= self.fields@.len(),
                self.fields@.len() <= 32,
                out@ == spec_masked_fields(self.fields@, mask.bits, i as int),
            decreases self.fields@.len() - i,
        {
            if mask.bit(i as u8) {
                out.push(self.fields[i]);
            }
            i = i + 1;
        }
        out
    }

    /// Overwrites the fields named by `mask` with the partial state bytes,
    /// in ascending field order; unnamed fields keep their values.
    pub fn apply_masked_fields(&mut self, mask: &StateMask, bytes: &[u8])
        requires
            entity_wf(*old(self)),
            mask.width as int == old(self).fields@.len(),
            bytes@.len() == spec_count_set(mask.bits, old(self).fields@.len() as int),
        ensures
            entity_wf(*final(self)),
            final(self).variant_tag == old(self).variant_tag,
            final(self).fields@.len() == old(self).fields@.len(),
            final(self).fields@ == spec_apply_masked(old(self).fields@, mask.bits, bytes@),
            forall|i: int|
                0 <= i < old(self).fields@.len() && !spec_bit(mask.bits, i as u8)
                    ==> final(self).fields@[i] == old(self).fields@[i],
            forall|i: int|
                0 <= i < old(self).fields@.len() && spec_bit(mask.bits, i as u8)
                    ==> final(self).fields@[i] == bytes@[spec_count_set(mask.bits, i)],
    {
        let ghost pre = self.fields@;
        let mut i: usize = 0;
        let mut next: usize = 0;
        while i < self.fields.len()
            invariant
                i <= self.fields@.len(),
                self.fields@.len() == pre.len(),
                pre.len() <= 32,
                next == spec_count_set(mask.bits, i as int),
                bytes@.len() == spec_count_set(mask.bits, pre.len() as int),
                mask.width as int == pre.len(),
                self.variant_tag == old(self).variant_tag,
                forall|j: int| i <= j < pre.len() ==> self.fields@[j] == pre[j],
                forall|j: int|
                    0 <= j < i && !spec_bit(mask.bits, j as u8) ==> self.fields@[j] == pre[j],
                forall|j: int|
                    0 <= j < i && spec_bit(mask.bits, j as u8) ==> self.fields@[j] == bytes@[
                        spec_count_set(mask.bits, j)
                    ],
            decreases self.fields@.len() - i,
        {
            proof {
                lemma_count_set_monotonic(mask.bits, i as int + 1, pre.len() as int);
            }
            if mask.bit(i as u8) {
                let b = bytes[next];
                self.fields[i] = b;
                next = next + 1;
            }
            i = i + 1;
        }
        proof {
            lemma_apply_masked_pointwise(pre, mask.bits, bytes@);
            assert(self.fields@ =~= spec_apply_masked(pre, mask.bits, bytes@));
        }
    }
}

/// The partial-state bytes for the masked fields among the first `upto`.
pub open spec fn spec_masked_fields(fields: Seq<u8>, bits: u32, upto: int) -> Seq<u8>
    decreases upto,
{
    if upto <= 0 {
        Seq::empty()
    } else {
        spec_masked_fields(fields, bits, upto - 1) + if spec_bit(bits, (upto - 1) as u8) {
            seq![fields[upto - 1]]
        } else {
            Seq::empty()
        }
    }
}

/// The field vector after overwriting the masked fields with `bytes`.
pub open spec fn spec_apply_masked(fields: Seq<u8>, bits: u32, bytes: Seq<u8>) -> Seq<u8> {
    Seq::new(
        fields.len(),
        |i: int|
            if spec_bit(bits, i as u8) {
                bytes[spec_count_set(bits, i)]
            } else {
                fields[i]
            },
    )
}

/// Counting set bits is monotonic in the number of positions counted.
pub proof fn lemma_count_set_monotonic(bits: u32, a: int, b: int)
    requires
        0 <= a <= b,
    ensures
        spec_count_set(bits, a) <= spec_count_set(bits, b),
    decreases b - a,
{
    if a < b {
        lemma_count_set_monotonic(bits, a, b - 1);
    }
}

/// The masked-field extraction reads, for each masked position, the byte
/// at that field's rank among the masked fields.
pub proof fn lemma_masked_fields_len(fields: Seq<u8>, bits: u32, upto: int)
    requires
        0 <= upto <= fields.len(),
    ensures
        spec_masked_fields(fields, bits, upto).len() == spec_count_set(bits, upto),
    decreases upto,
{
    if upto > 0 {
        lemma_masked_fields_len(fields, bits, upto - 1);
    }
}

/// Each byte of the extracted partial state is the field whose rank among
/// the masked fields matches its position.
pub proof fn lemma_masked_fields_index(fields: Seq<u8>, bits: u32, upto: int, i: int)
    requires
        0 <= i < upto <= fields.len(),
        spec_bit(bits, i as u8),
    ensures
        spec_count_set(bits, i) < spec_masked_fields(fields, bits, upto).len(),
        spec_masked_fields(fields, bits, upto)[spec_count_set(bits, i)] == fields[i],
    decreases upto,
{
    lemma_masked_fields_len(fields, bits, upto);
    lemma_count_set_monotonic(bits, 0, i);
    lemma_count_set_monotonic(bits, i + 1, upto);
    if i == upto - 1 {
        lemma_masked_fields_len(fields, bits, upto - 1);
        assert(spec_masked_fields(fields, bits, upto) == spec_masked_fields(fields, bits, upto - 1)
            + seq![fields[upto - 1]]);
        assert((spec_masked_fields(fields, bits, upto - 1) + seq![fields[upto - 1]])[
            spec_masked_fields(fields, bits, upto - 1).len() as int
        ] == fields[upto - 1]);
    } else {
        lemma_masked_fields_index(fields, bits, upto - 1, i);
        let head = spec_masked_fields(fields, bits, upto - 1);
        let tail = if spec_bit(bits, (upto - 1) as u8) {
            seq![fields[upto - 1]]
        } else {
            Seq::<u8>::empty()
        };
        assert(spec_masked_fields(fields, bits, upto) == head + tail);
        assert((head + tail)[spec_count_set(bits, i)] == head[spec_count_set(bits, i)]);
    }
}

/// Pointwise description of `spec_apply_masked` (helper for its users).
pub proof fn lemma_apply_masked_pointwise(fields: Seq<u8>, bits: u32, bytes: Seq<u8>)
    ensures
        spec_apply_masked(fields, bits, bytes).len() == fields.len(),
        forall|i: int|
            0 <= i < fields.len() && !spec_bit(bits, i as u8) ==> spec_apply_masked(
                fields,
                bits,
                bytes,
            )[i] == fields[i],
        forall|i: int|
            0 <= i < fields.len() && spec_bit(bits, i as u8) ==> spec_apply_masked(
                fields,
                bits,
                bytes,
            )[i] == bytes[spec_count_set(bits, i)],
{
}

/// Applying a full extraction of `src` onto `dst` yields `src` wherever
/// the mask covers the differing fields: the convergence step of entity
/// replication. If every index where `dst` and `src` differ is masked,
/// the update repairs `dst` to equal `src` exactly.
pub proof fn lemma_apply_masked_converges(dst: Seq<u8>, src: Seq<u8>, bits: u32)
    requires
        dst.len() == src.len(),
        src.len() <= 32,
        forall|i: int| 0 <= i < dst.len() && dst[i] != src[i] ==> spec_bit(bits, i as u8),
    ensures
        spec_apply_masked(dst, bits, spec_masked_fields(src, bits, src.len() as int)) == src,
{
    let bytes = spec_masked_fields(src, bits, src.len() as int);
    let out = spec_apply_masked(dst, bits, bytes);
    assert forall|i: int| 0 <= i < src.len() implies out[i] == src[i] by {
        if spec_bit(bits, i as u8) {
            lemma_masked_fields_index(src, bits, src.len() as int, i);
        }
    }
    assert(out =~= src);
}

/// The entity catalog: variant tag to field count, tags unique.
pub struct EntityManifest {
    entries: Vec<(u16, u8)>,
}

/// The field count registered for `tag`, if any.
pub open spec fn spec_lookup(entries: Seq<(u16, u8)>, tag: u16) -> Option<u8>
    decreases entries.len(),
{
    if entries.len() == 0 {
        None
    } else if entries[0].0 == tag {
        Some(entries[0].1)
    } else {
        spec_lookup(entries.skip(1), tag)
    }
}

impl EntityManifest {
    /// The registered entries in registration order.
    pub closed spec fn entries(self) -> Seq<(u16, u8)> {
        self.entries@
    }

    /// The field count registered for a variant tag.
    pub open spec fn spec_field_count(self, tag: u16) -> Option<u8> {
        spec_lookup(self.entries(), tag)
    }

    /// An empty catalog.
    pub fn new() -> (m: EntityManifest)
        ensures
            m.entries().len() == 0,
            forall|t: u16| m.spec_field_count(t) is None,
    {
        EntityManifest { entries: Vec::new() }
    }

    /// Registers a variant: its tag and how many one-byte fields it has.
    /// Keys are unique: registering a tag again neither shadows nor
    /// changes the earlier entry, and no other tag is touched.
    pub fn register(&mut self, tag: u16, field_count: u8)
        requires
            field_count <= MAX_MASK_WIDTH,
        ensures
            final(self).entries() == old(self).entries().push((tag, field_count)),
            old(self).spec_field_count(tag) is None ==> final(self).spec_field_count(tag)
                == Some(field_count),
            old(self).spec_field_count(tag) is Some ==> final(self).spec_field_count(tag)
                == old(self).spec_field_count(tag),
            forall|t: u16|
                t != tag ==> #[trigger] final(self).spec_field_count(t) == old(self).spec_field_count(t),
    {
        self.entries.push((tag, field_count));
        proof {
            lemma_lookup_push(old(self).entries@, tag, field_count);
            assert forall|t: u16| t != tag implies #[trigger] spec_lookup(self.entries@, t)
                == spec_lookup(old(self).entries@, t) by {
                lemma_lookup_push_other(old(self).entries@, tag, field_count, t);
            }
        }
    }

    /// Looks a variant tag up; `None` means the tag is unknown.
    pub fn field_count(&self, tag: u16) -> (r: Option<u8>)
        ensures
            r == self.spec_field_count(tag),
    {
        let mut i: usize = 0;
        proof {
            assert(self.entries@.skip(0) =~= self.entries@);
        }
        while i < self.entries.len()
            invariant
                i <= self.entries@.len(),
                spec_lookup(self.entries@, tag) == spec_lookup(
                    self.entries@.skip(i as int),
                    tag,
                ),
            decreases self.entries@.len() - i,
        {
            let (t, c) = self.entries[i];
            proof {
                assert(self.entries@.skip(i as int)[0] == self.entries@[i as int]);
                assert(self.entries@.skip(i as int).skip(1) =~= self.entries@.skip(i as int + 1));
            }
            if t == tag {
                return Some(c);
            }
            i = i + 1;
        }
        proof {
            assert(self.entries@.skip(i as int).len() == 0);
        }
        None
    }
}

/// Appending an entry leaves earlier lookups unchanged and answers for a
/// tag not seen before.
pub proof fn lemma_lookup_push(entries: Seq<(u16, u8)>, tag: u16, count: u8)
    ensures
        spec_lookup(entries, tag) is Some ==> spec_lookup(entries.push((tag, count)), tag)
            == spec_lookup(entries, tag),
        spec_lookup(entries, tag) is None ==> spec_lookup(entries.push((tag, count)), tag)
            == Some(count),
    decreases entries.len(),
{
    if entries.len() == 0 {
        assert(entries.push((tag, count))[0] == (tag, count));
    } else {
        assert(entries.push((tag, count))[0] == entries[0]);
        assert(entries.push((tag, count)).skip(1) =~= entries.skip(1).push((tag, count)));
        lemma_lookup_push(entries.skip(1), tag, count);
    }
}

/// Appending an entry for one tag leaves every other tag's lookup
/// unchanged.
pub proof fn lemma_lookup_push_other(entries: Seq<(u16, u8)>, tag: u16, count: u8, t: u16)
    requires
        t != tag,
    ensures
        spec_lookup(entries.push((tag, count)), t) == spec_lookup(entries, t),
    decreases entries.len(),
{
    if entries.len() == 0 {
        assert(entries.push((tag, count))[0] == (tag, count));
        assert(entries.push((tag, count)).skip(1) =~= entries);
    } else {
        assert(entries.push((tag, count))[0] == entries[0]);
        assert(entries.push((tag, count)).skip(1) =~= entries.skip(1).push((tag, count)));
        lemma_lookup_push_other(entries.skip(1), tag, count, t);
    }
}

/// The event catalog: variant tag to payload byte count, tags unique.
pub struct EventManifest {
    entries: Vec<(u16, u8)>,
}

impl EventManifest {
    /// The registered entries in registration order.
    pub closed spec fn entries(self) -> Seq<(u16, u8)> {
        self.entries@
    }

    /// The payload length registered for an event variant tag.
    pub open spec fn spec_payload_len(self, tag: u16) -> Option<u8> {
        spec_lookup(self.entries(), tag)
    }

    /// An empty catalog.
    pub fn new() -> (m: EventManifest)
        ensures
            m.entries().len() == 0,
            forall|t: u16| m.spec_payload_len(t) is None,
    {
        EventManifest { entries: Vec::new() }
    }

    /// Registers an event variant: its tag and its payload byte count.
    pub fn register(&mut self, tag: u16, payload_len: u8)
        ensures
            final(self).entries() == old(self).entries().push((tag, payload_len)),
            old(self).spec_payload_len(tag) is None ==> final(self).spec_payload_len(tag)
                == Some(payload_len),
            old(self).spec_payload_len(tag) is Some ==> final(self).spec_payload_len(tag)
                == old(self).spec_payload_len(tag),
            forall|t: u16|
                t != tag ==> #[trigger] final(self).spec_payload_len(t) == old(self).spec_payload_len(t),
    {
        self.entries.push((tag, payload_len));
        proof {
            lemma_lookup_push(old(self).entries@, tag, payload_len);
            assert forall|t: u16| t != tag implies #[trigger] spec_lookup(self.entries@, t)
                == spec_lookup(old(self).entries@, t) by {
                lemma_lookup_push_other(old(self).entries@, tag, payload_len, t);
            }
        }
    }

    /// Looks an event variant tag up; `None` means the tag is unknown.
    pub fn payload_len(&self, tag: u16) -> (r: Option<u8>)
        ensures
            r == self.spec_payload_len(tag),
    {
        let mut i: usize = 0;
        proof {
            assert(self.entries@.skip(0) =~= self.entries@);
        }
        while i < self.entries.len()
            invariant
                i <= self.entries@.len(),
                spec_lookup(self.entries@, tag) == spec_lookup(
                    self.entries@.skip(i as int),
                    tag,
                ),
            decreases self.entries@.len() - i,
        {
            let (t, c) = self.entries[i];
            proof {
                assert(self.entries@.skip(i as int)[0] == self.entries@[i as int]);
                assert(self.entries@.skip(i as int).skip(1) =~= self.entries@.skip(i as int + 1));
            }
            if t == tag {
                return Some(c);
            }
            i = i + 1;
        }
        proof {
            assert(self.entries@.skip(i as int).len() == 0);
        }
        None
    }
}

} // verus!
