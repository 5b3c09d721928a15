//! Client-side entity replication: applies create / update / delete
//! messages from the server to a local store keyed by the server's 16-bit
//! entity key, and surfaces them to the application.
//!
//! Unknown keys in update or delete messages are ignored: a reordered
//! segment whose create is still in flight will be repaired when the
//! server retransmits.

use vstd::prelude::*;
use crate::manifest::{entity_wf, Entity};
use crate::state_mask::{mask_wf, spec_count_set, StateMask};

verus! {

/// What the client application is told about an entity.
#[derive(Clone, Copy, PartialEq, Eq, Structural, Debug)]
pub enum ClientEntityMessage {
    /// An entity appeared under a key.
    Create { key: u16 },
    /// An entity's fields changed.
    Update { key: u16 },
    /// An entity disappeared.
    Delete { key: u16 },
}

/// The entity stored under `key`, first match.
pub open spec fn spec_local(s: Seq<(u16, Entity)>, key: u16) -> Option<Entity>
    decreases s.len(),
{
    if s.len() == 0 {
        None
    } else if s[0].0 == key {
        Some(s[0].1)
    } else {
        spec_local(s.skip(1), key)
    }
}

/// Client-side entity store for one connection.
pub struct ClientEntityManager {
    entities: Vec<(u16, Entity)>,
    incoming: Vec<ClientEntityMessage>,
}

impl ClientEntityManager {
    /// The stored entities in insertion order.
    pub closed spec fn entities(self) -> Seq<(u16, Entity)> {
        self.entities@
    }

    /// Messages not yet handed to the application, oldest first.
    pub closed spec fn incoming(self) -> Seq<ClientEntityMessage> {
        self.incoming@
    }

    /// The entity stored under `key`, if any.
    pub open spec fn local_of(self, key: u16) -> Option<Entity> {
        spec_local(self.entities(), key)
    }

    /// Keys are unique and every entity is well formed.
    pub open spec fn wf(self) -> bool {
        &&& forall|j1: int, j2: int|
            0 <= j1 < j2 < self.entities().len() ==> (#[trigger] self.entities()[j1]).0 != (
            #[trigger] self.entities()[j2]).0
        &&& forall|j: int|
            0 <= j < self.entities().len() ==> entity_wf((#[trigger] self.entities()[j]).1)
    }

    /// An empty store.
    pub fn new() -> (m: ClientEntityManager)
        ensures
            m.wf(),
            m.entities().len() == 0,
            m.incoming().len() == 0,
            forall|k: u16| m.local_of(k) is None,
    {
        ClientEntityManager { entities: Vec::new(), incoming: Vec::new() }
    }

    /// Index of the entity stored under `key`, if any.
    fn find_index(&self, key: u16) -> (r: Option<usize>)
        ensures
            match r {
                Some(i) => {
                    &&& i < self.entities().len()
                    &&& self.entities()[i as int].0 == key
                    &&& self.local_of(key) == Some(self.entities()[i as int].1)
                },
                None => self.local_of(key) is None,
            },
    {
        let mut i: usize = 0;
        proof {
            assert(self.entities@.skip(0) =~= self.entities@);
        }
        while i < self.entities.len()
            invariant
                i <= self.entities@.len(),
                spec_local(self.entities@, key) == spec_local(self.entities@.skip(i as int), key),
            decreases self.entities@.len() - i,
        {
            proof {
                assert(self.entities@.skip(i as int)[0] == self.entities@[i as int]);
                assert(self.entities@.skip(i as int).skip(1) =~= self.entities@.skip(
                    i as int + 1,
                ));
            }
            if self.entities[i].0 == key {
                return Some(i);
            }
            i = i + 1;
        }
        None
    }

    /// The entity stored under the server key `key`, for the application.
    pub fn get_local_entity(&self, key: u16) -> (r: Option<&Entity>)
        ensures
            match r {
                Some(e) => self.local_of(key) == Some(*e),
                None => self.local_of(key) is None,
            },
    {
        match self.find_index(key) {
            Some(i) => Some(&self.entities[i].1),
            None => None,
        }
    }

    /// A create message: stores the entity under the server's key and
    /// surfaces a create to the application. A duplicate create for a key
    /// already stored only overwrites the state, so the application sees
    /// each creation once.
    pub fn process_create(&mut self, key: u16, entity: Entity)
        requires
            old(self).wf(),
            entity_wf(entity),
        ensures
            final(self).wf(),
            final(self).local_of(key) matches Some(e) && e.variant_tag == entity.variant_tag
                && e.fields@ == entity.fields@,
            forall|k: u16| k != key ==> #[trigger] final(self).local_of(k) == old(self).local_of(k),
            old(self).local_of(key) is None ==> final(self).incoming()
                == old(self).incoming().push(ClientEntityMessage::Create { key }),
            old(self).local_of(key) is Some ==> final(self).incoming() == old(self).incoming(),
    {
        match self.find_index(key) {
            Some(i) => {
                let ghost pre = self.entities@;
                let slot = &mut self.entities[i];
                slot.1 = entity;
                proof {
                    assert(self.entities@ =~= pre.update(i as int, self.entities@[i as int]));
                    lemma_local_update(pre, i as int, self.entities@[i as int]);
                }
            },
            None => {
                proof {
                    lemma_local_push(self.entities@, (key, entity), key);
                    assert forall|k: u16| k != key implies spec_local(
                        self.entities@.push((key, entity)),
                        k,
                    ) == spec_local(self.entities@, k) by {
                        lemma_local_push(self.entities@, (key, entity), k);
                    }
                }
                self.entities.push((key, entity));
                self.incoming.push(ClientEntityMessage::Create { key });
                proof {
                    assert forall|j1: int, j2: int|
                        0 <= j1 < j2 < self.entities@.len() implies (
                    #[trigger] self.entities@[j1]).0 != (#[trigger] self.entities@[j2]).0 by {
                        if j2 == self.entities@.len() - 1 {
                            lemma_local_index_any(old(self).entities@, j1);
                            assert(self.entities@[j1] == old(self).entities@[j1]);
                        }
                    }
                }
            },
        }
    }

    /// An update message: applies the masked partial state to the stored
    /// entity and surfaces an update; an unknown key is silently ignored.
    pub fn process_update(&mut self, key: u16, mask: &StateMask, bytes: &[u8])
        requires
            old(self).wf(),
            mask_wf(*mask),
            old(self).local_of(key) matches Some(e) ==> mask.width as int == e.fields@.len()
                && bytes@.len() == spec_count_set(mask.bits, e.fields@.len() as int),
        ensures
            final(self).wf(),
            old(self).local_of(key) is None ==> *final(self) == *old(self),
            old(self).local_of(key) matches Some(e) ==> {
                &&& final(self).local_of(key) matches Some(e2) && e2.variant_tag == e.variant_tag
                    && e2.fields@ == crate::manifest::spec_apply_masked(
                    e.fields@,
                    mask.bits,
                    bytes@,
                )
                &&& final(self).incoming() == old(self).incoming().push(
                    ClientEntityMessage::Update { key },
                )
                &&& forall|k: u16|
                    k != key ==> #[trigger] final(self).local_of(k) == old(self).local_of(k)
            },
    {
        match self.find_index(key) {
            Some(i) => {
                let ghost pre = self.entities@;
                let slot = &mut self.entities[i];
                slot.1.apply_masked_fields(mask, bytes);
                proof {
                    assert(self.entities@ =~= pre.update(i as int, self.entities@[i as int]));
                    lemma_local_update(pre, i as int, self.entities@[i as int]);
                }
                self.incoming.push(ClientEntityMessage::Update { key });
            },
            None => {},
        }
    }

    /// A delete message: removes the entity and surfaces a delete; an
    /// unknown key is silently ignored.
    pub fn process_delete(&mut self, key: u16)
        requires
            old(self).wf(),
        ensures
            final(self).wf(),
            old(self).local_of(key) is None ==> *final(self) == *old(self),
            old(self).local_of(key) is Some ==> {
                &&& final(self).local_of(key) is None
                &&& final(self).incoming() == old(self).incoming().push(
                    ClientEntityMessage::Delete { key },
                )
                &&& forall|k: u16|
                    k != key ==> #[trigger] final(self).local_of(k) == old(self).local_of(k)
            },
    {
        match self.find_index(key) {
            Some(i) => {
                let ghost pre = self.entities@;
                self.entities.remove(i);
                proof {
                    assert(self.entities@ =~= pre.remove(i as int));
                    lemma_local_remove(pre, i as int);
                }
                self.incoming.push(ClientEntityMessage::Delete { key });
            },
            None => {},
        }
    }

    /// The next replication message for the application, oldest first.
    pub fn pop_incoming_message(&mut self) -> (r: Option<ClientEntityMessage>)
        ensures
            final(self).entities() == old(self).entities(),
            match r {
                Some(m) => old(self).incoming().len() > 0 && m == old(self).incoming()[0]
                    && final(self).incoming() == old(self).incoming().subrange(
                    1,
                    old(self).incoming().len() as int,
                ),
                None => old(self).incoming().len() == 0
                    && final(self).incoming() == old(self).incoming(),
            },
    {
        if self.incoming.len() == 0 {
            return None;
        }
        let m = self.incoming.remove(0);
        proof {
            assert(self.incoming@ =~= old(self).incoming@.subrange(
                1,
                old(self).incoming@.len() as int,
            ));
        }
        Some(m)
    }
}

/// Lookup after a push, for the client store.
pub proof fn lemma_local_push(s: Seq<(u16, Entity)>, p: (u16, Entity), key: u16)
    ensures
        spec_local(s, key) is Some ==> spec_local(s.push(p), key) == spec_local(s, key),
        spec_local(s, key) is None && p.0 == key ==> spec_local(s.push(p), key) == Some(p.1),
        spec_local(s, key) is None && p.0 != key ==> spec_local(s.push(p), key) is None,
    decreases s.len(),
{
    if s.len() == 0 {
        assert(s.push(p)[0] == p);
        assert(s.push(p).skip(1) =~= Seq::<(u16, Entity)>::empty());
        assert(spec_local(Seq::<(u16, Entity)>::empty(), key) is None);
    } else {
        assert(s.push(p)[0] == s[0]);
        assert(s.push(p).skip(1) =~= s.skip(1).push(p));
        lemma_local_push(s.skip(1), p, key);
    }
}

/// Lookup finds the entry at any index, given unique keys.
pub proof fn lemma_local_index_any(s: Seq<(u16, Entity)>, j: int)
    requires
        0 <= j < s.len(),
        forall|j1: int, j2: int|
            0 <= j1 < j2 < s.len() ==> (#[trigger] s[j1]).0 != (#[trigger] s[j2]).0,
    ensures
        spec_local(s, s[j].0) == Some(s[j].1),
    decreases s.len(),
{
    if j > 0 {
        assert(s[0].0 != s[j].0);
        assert(s.skip(1)[j - 1] == s[j]);
        assert forall|j1: int, j2: int|
            0 <= j1 < j2 < s.skip(1).len() implies (#[trigger] s.skip(1)[j1]).0 != (
        #[trigger] s.skip(1)[j2]).0 by {
            assert(s.skip(1)[j1] == s[j1 + 1]);
            assert(s.skip(1)[j2] == s[j2 + 1]);
        }
        lemma_local_index_any(s.skip(1), j - 1);
    }
}

/// Lookup after updating index `i`, keys unique and kept.
pub proof fn lemma_local_update(s: Seq<(u16, Entity)>, i: int, p: (u16, Entity))
    requires
        0 <= i < s.len(),
        p.0 == s[i].0,
        forall|j1: int, j2: int|
            0 <= j1 < j2 < s.len() ==> (#[trigger] s[j1]).0 != (#[trigger] s[j2]).0,
    ensures
        spec_local(s.update(i, p), p.0) == Some(p.1),
        forall|k: u16| k != p.0 ==> spec_local(s.update(i, p), k) == spec_local(s, k),
        forall|j1: int, j2: int|
            0 <= j1 < j2 < s.update(i, p).len() ==> (#[trigger] s.update(i, p)[j1]).0 != (
            #[trigger] s.update(i, p)[j2]).0,
    decreases s.len(),
{
    let t = s.update(i, p);
    assert forall|j1: int, j2: int|
        0 <= j1 < j2 < t.len() implies (#[trigger] t[j1]).0 != (#[trigger] t[j2]).0 by {
        assert(t[j1] == if j1 == i {
            p
        } else {
            s[j1]
        });
        assert(t[j2] == if j2 == i {
            p
        } else {
            s[j2]
        });
    }
    if i == 0 {
        assert(t[0] == p);
        assert forall|k: u16| k != p.0 implies spec_local(t, k) == spec_local(s, k) by {
            assert(t.skip(1) =~= s.skip(1));
            assert(spec_local(t, k) == spec_local(t.skip(1), k));
            assert(spec_local(s, k) == spec_local(s.skip(1), k));
        }
    } else {
        assert(t[0] == s[0]);
        assert(t.skip(1) =~= s.skip(1).update(i - 1, p));
        assert(s.skip(1)[i - 1] == s[i]);
        assert forall|j1: int, j2: int|
            0 <= j1 < j2 < s.skip(1).len() implies (#[trigger] s.skip(1)[j1]).0 != (
        #[trigger] s.skip(1)[j2]).0 by {
            assert(s.skip(1)[j1] == s[j1 + 1]);
            assert(s.skip(1)[j2] == s[j2 + 1]);
        }
        lemma_local_update(s.skip(1), i - 1, p);
        assert(s[0].0 != p.0);
        assert forall|k: u16| k != p.0 implies spec_local(t, k) == spec_local(s, k) by {
            assert(t[0] == s[0]);
            if s[0].0 != k {
                assert(spec_local(t, k) == spec_local(t.skip(1), k));
                assert(spec_local(s, k) == spec_local(s.skip(1), k));
            }
        }
    }
}

/// Lookup after removing index `i`, keys unique.
pub proof fn lemma_local_remove(s: Seq<(u16, Entity)>, i: int)
    requires
        0 <= i < s.len(),
        forall|j1: int, j2: int|
            0 <= j1 < j2 < s.len() ==> (#[trigger] s[j1]).0 != (#[trigger] s[j2]).0,
    ensures
        spec_local(s.remove(i), s[i].0) is None,
        forall|k: u16| k != s[i].0 ==> spec_local(s.remove(i), k) == spec_local(s, k),
        forall|j1: int, j2: int|
            0 <= j1 < j2 < s.remove(i).len() ==> (#[trigger] s.remove(i)[j1]).0 != (
            #[trigger] s.remove(i)[j2]).0,
    decreases s.len(),
{
    let t = s.remove(i);
    assert forall|j1: int, j2: int|
        0 <= j1 < j2 < t.len() implies (#[trigger] t[j1]).0 != (#[trigger] t[j2]).0 by {
        assert(t[j1] == if j1 < i {
            s[j1]
        } else {
            s[j1 + 1]
        });
        assert(t[j2] == if j2 < i {
            s[j2]
        } else {
            s[j2 + 1]
        });
    }
    if i == 0 {
        assert(t =~= s.skip(1));
        assert forall|k: u16| k != s[0].0 implies spec_local(t, k) == spec_local(s, k) by {
            assert(spec_local(s, k) == spec_local(s.skip(1), k));
        }
        assert forall|j: int| 0 <= j < t.len() implies (#[trigger] t[j]).0 != s[0].0 by {
            assert(t[j] == s[j + 1]);
        }
        lemma_local_absent(t, s[0].0);
    } else {
        assert(t[0] == s[0]);
        assert(t.skip(1) =~= s.skip(1).remove(i - 1));
        assert(s.skip(1)[i - 1] == s[i]);
        assert forall|j1: int, j2: int|
            0 <= j1 < j2 < s.skip(1).len() implies (#[trigger] s.skip(1)[j1]).0 != (
        #[trigger] s.skip(1)[j2]).0 by {
            assert(s.skip(1)[j1] == s[j1 + 1]);
            assert(s.skip(1)[j2] == s[j2 + 1]);
        }
        lemma_local_remove(s.skip(1), i - 1);
        assert(s[0].0 != s[i].0);
        assert forall|k: u16| k != s[i].0 implies spec_local(t, k) == spec_local(s, k) by {
            if s[0].0 != k {
                assert(spec_local(t, k) == spec_local(t.skip(1), k));
                assert(spec_local(s, k) == spec_local(s.skip(1), k));
            }
        }
        assert(spec_local(t, s[i].0) == spec_local(t.skip(1), s[i].0));
    }
}

/// A key held by no entry is not found.
pub proof fn lemma_local_absent(s: Seq<(u16, Entity)>, key: u16)
    requires
        forall|j: int| 0 <= j < s.len() ==> (#[trigger] s[j]).0 != key,
    ensures
        spec_local(s, key) is None,
    decreases s.len(),
{
    if s.len() > 0 {
        assert(s[0].0 != key);
        assert forall|j: int| 0 <= j < s.skip(1).len() implies (#[trigger] s.skip(1)[j]).0
            != key by {
            assert(s.skip(1)[j] == s[j + 1]);
        }
        lemma_local_absent(s.skip(1), key);
    }
}

} // verus!
