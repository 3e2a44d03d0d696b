use vstd::prelude::*;

use crate::keyed::{lemma_insert_at, lemma_search_lookup, search_key};
use crate::world::{lookup, World};

verus! {

impl World {
    /// The bytes of resource type `key`, when one is held.
    pub open spec fn resource(&self, key: u64) -> Option<Seq<u8>> {
        match lookup(self.resource_ids@, key) {
            Some(i) => match self.resources@[i as int] {
                Some(v) => Some(v@),
                None => None,
            },
            None => None,
        }
    }

    /// The slot of resource type `key` holds the value `value`, the slot
    /// count growing only when the type is new.
    proof fn lemma_resource_frame(&self, old: &World, key: u64)
        requires
            old.resources_wf(),
            self.resources_wf(),
            forall|k: u64| k != key ==> #[trigger] lookup(self.resource_ids@, k) == lookup(old.resource_ids@, k),
            lookup(self.resource_ids@, key) matches Some(i) ==> forall|k: u64|
                k != key && #[trigger] lookup(old.resource_ids@, k) is Some ==> lookup(old.resource_ids@, k)
                    != Some(i),
            self.resources@.len() >= old.resources@.len(),
            forall|j: int|
                0 <= j < old.resources@.len() && Some(j as usize) != lookup(self.resource_ids@, key)
                    ==> #[trigger] self.resources@[j] == old.resources@[j],
        ensures
            forall|k: u64| k != key ==> #[trigger] self.resource(k) == old.resource(k),
    {
        assert forall|k: u64| k != key implies #[trigger] self.resource(k) == old.resource(k) by {
            if let Some(i) = lookup(old.resource_ids@, k) {
                let j = choose|j: int| 0 <= j < old.resource_ids@.len() && #[trigger] old.resource_ids@[j].0 == k;
                assert(old.resource_ids@[j].1 < old.resources@.len());
            }
        }
    }

    /// Holds `value` as the resource of type `key`, in place of any held
    /// before.
    pub fn insert_resource(&mut self, key: u64, value: Vec<u8>)
        requires
            old(self).wf(),
        ensures
            final(self).wf(),
            final(self).resource(key) == Some(value@),
            forall|k: u64| k != key ==> #[trigger] final(self).resource(k) == old(self).resource(k),
            *final(self) == (World {
                resource_ids: final(self).resource_ids,
                resources: final(self).resources,
                ..*old(self)
            }),
    {
        let ghost old_self = *self;
        let ghost v = value@;
        let r = search_key(&self.resource_ids, key);
        proof {
            lemma_search_lookup(self.resource_ids@, key, r);
        }
        match r {
            Ok(idx) => {
                let id = self.resource_ids[idx].1;
                self.resources.set(id, Some(value));
                proof {
                    assert forall|k: u64|
                        k != key && #[trigger] lookup(old_self.resource_ids@, k) is Some implies lookup(
                            old_self.resource_ids@,
                            k,
                        ) != Some(id) by {
                        let j = choose|j: int| 0 <= j < old_self.resource_ids@.len() && #[trigger] old_self.resource_ids@[j].0 == k;
                        assert(j != idx);
                    }
                    self.lemma_resource_frame(&old_self, key);
                }
            },
            Err(pos) => {
                let id = self.resources.len();
                self.resource_ids.insert(pos, (key, id));
                self.resources.push(Some(value));
                proof {
                    lemma_insert_at(old_self.resource_ids@, key, id, pos as int);
                    let t = self.resource_ids@;
                    assert forall|i: int, j: int| 0 <= i < j < t.len() implies t[i].1 != t[j].1 by {
                        let s = old_self.resource_ids@;
                        if i < pos {
                            assert(t[i] == s[i]);
                        } else if i > pos {
                            assert(t[i] == s[i - 1]);
                        }
                        if j < pos {
                            assert(t[j] == s[j]);
                        } else if j > pos {
                            assert(t[j] == s[j - 1]);
                        }
                    }
                    assert forall|i: int| 0 <= i < t.len() implies (#[trigger] t[i]).1 < self.resources@.len() by {
                        let s = old_self.resource_ids@;
                        if i < pos {
                            assert(t[i] == s[i]);
                        } else if i > pos {
                            assert(t[i] == s[i - 1]);
                        }
                    }
                    assert forall|k: u64|
                        k != key && #[trigger] lookup(old_self.resource_ids@, k) is Some implies lookup(
                            old_self.resource_ids@,
                            k,
                        ) != Some(id) by {
                        let j = choose|j: int| 0 <= j < old_self.resource_ids@.len() && #[trigger] old_self.resource_ids@[j].0 == k;
                        assert(old_self.resource_ids@[j].1 < old_self.resources@.len());
                    }
                    self.lemma_resource_frame(&old_self, key);
                }
            },
        }
        proof {
            self.lemma_archetypes_wf_transfer(&old_self);
        }
    }

    /// The bytes of the resource of type `key`, when one is held.
    pub fn get_resource(&self, key: u64) -> (r: Option<&Vec<u8>>)
        requires
            self.wf(),
        ensures
            match r {
                Some(v) => self.resource(key) == Some(v@),
                None => self.resource(key) is None,
            },
    {
        let s = search_key(&self.resource_ids, key);
        proof {
            lemma_search_lookup(self.resource_ids@, key, s);
        }
        match s {
            Ok(idx) => {
                let id = self.resource_ids[idx].1;
                match &self.resources[id] {
                    Some(v) => Some(v),
                    None => None,
                }
            },
            Err(_) => None,
        }
    }

    /// Drops the resource of type `key`; its type keeps its slot.
    pub fn remove_resource(&mut self, key: u64)
        requires
            old(self).wf(),
        ensures
            final(self).wf(),
            final(self).resource(key) is None,
            forall|k: u64| k != key ==> #[trigger] final(self).resource(k) == old(self).resource(k),
            final(self).resource_ids == old(self).resource_ids,
            *final(self) == (World { resources: final(self).resources, ..*old(self) }),
    {
        let ghost old_self = *self;
        let s = search_key(&self.resource_ids, key);
        proof {
            lemma_search_lookup(self.resource_ids@, key, s);
        }
        match s {
            Ok(idx) => {
                let id = self.resource_ids[idx].1;
                self.resources.set(id, None);
                proof {
                    assert forall|k: u64|
                        k != key && #[trigger] lookup(old_self.resource_ids@, k) is Some implies lookup(
                            old_self.resource_ids@,
                            k,
                        ) != Some(id) by {
                        let j = choose|j: int| 0 <= j < old_self.resource_ids@.len() && #[trigger] old_self.resource_ids@[j].0 == k;
                        assert(j != idx);
                    }
                    self.lemma_resource_frame(&old_self, key);
                    self.lemma_archetypes_wf_transfer(&old_self);
                }
            },
            Err(_) => {
                proof {
                    self.lemma_archetypes_wf_transfer(&old_self);
                }
            },
        }
    }
}

} // verus!
