//! A sample replicated entity: a point with two one-byte fields.

use vstd::prelude::*;
use crate::manifest::{entity_wf, Entity};
use crate::state_mask::{spec_bit, spec_count_set, StateMask};

verus! {

/// The manifest variant tag of the point entity.
pub const POINT_ENTITY_TAG: u16 = 1;

/// Number of replicated fields of the point entity.
pub const POINT_ENTITY_FIELDS: u8 = 2;

/// A point with two replicated one-byte fields.
#[derive(Clone, Copy, PartialEq, Eq, Structural, Debug)]
pub struct PointEntity {
    /// The horizontal coordinate: field bit 0.
    pub x: u8,
    /// The vertical coordinate: field bit 1.
    pub y: u8,
}

impl PointEntity {
    /// A point at the given coordinates.
    pub fn new(x: u8, y: u8) -> (p: PointEntity)
        ensures
            p.x == x,
            p.y == y,
    {
        PointEntity { x, y }
    }

    /// Reads full state: the first byte is `x`, the second `y`.
    pub fn read(&mut self, bytes: &[u8])
        requires
            bytes@.len() >= 2,
        ensures
            final(self).x == bytes@[0],
            final(self).y == bytes@[1],
    {
        self.x = bytes[0];
        self.y = bytes[1];
    }

    /// Reads partial state: masked fields in ascending order, one byte
    /// each. Only as many bytes as the mask names are needed.
    pub fn read_partial(&mut self, state_mask: &StateMask, bytes: &[u8])
        requires
            bytes@.len() >= spec_count_set(state_mask.bits, 2),
        ensures
            spec_bit(state_mask.bits, 0) ==> final(self).x == bytes@[0],
            !spec_bit(state_mask.bits, 0) ==> final(self).x == old(self).x,
            spec_bit(state_mask.bits, 0) && spec_bit(state_mask.bits, 1) ==> final(self).y
                == bytes@[1],
            !spec_bit(state_mask.bits, 0) && spec_bit(state_mask.bits, 1) ==> final(self).y
                == bytes@[0],
            !spec_bit(state_mask.bits, 1) ==> final(self).y == old(self).y,
    {
        proof {
            assert(spec_count_set(state_mask.bits, 2) == spec_count_set(state_mask.bits, 1)
                + if spec_bit(state_mask.bits, 1) {
                1int
            } else {
                0int
            });
            assert(spec_count_set(state_mask.bits, 0) == 0);
            assert(spec_count_set(state_mask.bits, 1) == spec_count_set(state_mask.bits, 0)
                + if spec_bit(state_mask.bits, 0) {
                1int
            } else {
                0int
            });
        }
        let mut at: usize = 0;
        if state_mask.bit(0) {
            self.x = bytes[at];
            at = at + 1;
        }
        if state_mask.bit(1) {
            self.y = bytes[at];
        }
    }
}

/// The application's entity catalog as a closed sum of variants.
#[derive(Clone, Copy, PartialEq, Eq, Structural, Debug)]
pub enum ExampleEntity {
    /// The point variant.
    PointEntity(PointEntity),
}

impl ExampleEntity {
    /// Reads full state into the variant.
    pub fn read(&mut self, bytes: &[u8])
        requires
            bytes@.len() >= 2,
        ensures
            old(self) matches ExampleEntity::PointEntity(_) ==> (*final(self) matches
                ExampleEntity::PointEntity(p) && p.x == bytes@[0] && p.y == bytes@[1]),
    {
        match self {
            ExampleEntity::PointEntity(p) => p.read(bytes),
        }
    }

    /// Reads partial state into the variant: the mask names the fields,
    /// the bytes fill them in ascending field order.
    pub fn read_partial(&mut self, state_mask: &StateMask, bytes: &[u8])
        requires
            bytes@.len() >= spec_count_set(state_mask.bits, 2),
        ensures
            *old(self) matches ExampleEntity::PointEntity(p0) ==> (*final(self) matches
                ExampleEntity::PointEntity(p1) && {
                &&& (spec_bit(state_mask.bits, 0) ==> p1.x == bytes@[0])
                &&& (!spec_bit(state_mask.bits, 0) ==> p1.x == p0.x)
                &&& (spec_bit(state_mask.bits, 0) && spec_bit(state_mask.bits, 1) ==> p1.y
                    == bytes@[1])
                &&& (!spec_bit(state_mask.bits, 0) && spec_bit(state_mask.bits, 1) ==> p1.y
                    == bytes@[0])
                &&& (!spec_bit(state_mask.bits, 1) ==> p1.y == p0.y)
            }),
    {
        match self {
            ExampleEntity::PointEntity(p) => p.read_partial(state_mask, bytes),
        }
    }

    /// The replication-layer value of this entity.
    pub fn to_entity(&self) -> (e: Entity)
        ensures
            entity_wf(e),
            *self matches ExampleEntity::PointEntity(p) ==> e.variant_tag == POINT_ENTITY_TAG
                && e.fields@ == seq![p.x, p.y],
    {
        match self {
            ExampleEntity::PointEntity(p) => {
                let mut fields: Vec<u8> = Vec::new();
                fields.push(p.x);
                fields.push(p.y);
                proof {
                    assert(fields@ =~= seq![p.x, p.y]);
                }
                Entity::new(POINT_ENTITY_TAG, fields)
            },
        }
    }

    /// Reconstructs a variant from a replication-layer value; an unknown
    /// tag or a wrong field count yields `None`.
    pub fn from_entity(e: &Entity) -> (r: Option<ExampleEntity>)
        ensures
            (e.variant_tag == POINT_ENTITY_TAG && e.fields@.len() == POINT_ENTITY_FIELDS as int)
                <==> r is Some,
            r matches Some(x) ==> (x matches ExampleEntity::PointEntity(p) && p.x == e.fields@[0]
                && p.y == e.fields@[1]),
    {
        if e.variant_tag == POINT_ENTITY_TAG && e.fields.len() == 2 {
            Some(ExampleEntity::PointEntity(PointEntity { x: e.fields[0], y: e.fields[1] }))
        } else {
            None
        }
    }
}

} // verus!
