use vstd::prelude::*;

use crate::entity::Entity;
use crate::world::{World, CHILDREN_KEY, PARENT_KEY};

verus! {

/// Data that an entity can carry. Every type qualifies.
pub trait Component {}

impl<T> Component for T {}

/// Data that the world holds once, outside any entity. Every type
/// qualifies.
pub trait Resource {}

impl<T> Resource for T {}

/// The parent of an entity in the hierarchy.
pub struct Parent(pub Entity);

/// The children of an entity in the hierarchy, in the order they joined.
pub struct Children(pub Vec<Entity>);

impl World {
    /// The parent of `entity`, when it is live and carries `Parent`.
    pub fn get_parent(&self, entity: Entity) -> (r: Option<Parent>)
        requires
            self.wf(),
        ensures
            match r {
                Some(Parent(p)) => self.has_parent(entity) && self.parent_of(entity) == Some(p),
                None => !self.has_parent(entity) || self.parent_of(entity) is None,
            },
    {
        if self.get_component(entity, PARENT_KEY).is_none() {
            return None;
        }
        let id = entity.id as usize;
        if id < self.links.len() {
            match self.links[id].parent {
                Some(p) => Some(Parent(p)),
                None => None,
            }
        } else {
            None
        }
    }

    /// The children of `entity`, when it is live and carries `Children`.
    pub fn get_children(&self, entity: Entity) -> (r: Option<Children>)
        requires
            self.wf(),
        ensures
            match r {
                Some(Children(v)) => self.has_children(entity) && v@ == self.children_of(entity),
                None => !self.has_children(entity),
            },
    {
        if self.get_component(entity, CHILDREN_KEY).is_none() {
            return None;
        }
        let id = entity.id as usize;
        let mut v: Vec<Entity> = Vec::new();
        if id < self.links.len() {
            let src = &self.links[id].children;
            let mut i: usize = 0;
            while i < src.len()
                invariant
                    0 <= i <= src@.len(),
                    v@ == src@.take(i as int),
                decreases src@.len() - i,
            {
                v.push(src[i]);
                proof {
                    assert(src@.take(i + 1) =~= src@.take(i as int).push(src@[i as int]));
                }
                i = i + 1;
            }
        }
        Some(Children(v))
    }
}

} // verus!
