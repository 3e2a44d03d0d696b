use vstd::prelude::*;

use std::collections::HashSet;

verus! {

broadcast use vstd::std_specs::hash::group_hash_axioms;

/// What a system touches: the types it reads and the types it writes.
pub struct Access {
    pub reads: HashSet<u64>,
    pub writes: HashSet<u64>,
}

/// Two accesses may run side by side: neither writes what the other reads
/// or writes.
pub open spec fn compatible(reads: Set<u64>, writes: Set<u64>, other_reads: Set<u64>, other_writes: Set<u64>) -> bool {
    &&& writes.disjoint(other_reads)
    &&& reads.disjoint(other_writes)
    &&& writes.disjoint(other_writes)
}

/// No element of `a` is in `b`.
fn disjoint_from(a: &HashSet<u64>, b: &HashSet<u64>) -> (r: bool)
    ensures
        r == a@.disjoint(b@),
{
    let mut r = true;
    let ghost mut seen: Set<u64> = Set::empty();
    for k in it: a.iter()
        invariant
            it.seq().unref().to_set() == a@,
            seen.subset_of(a@),
            forall|i: int| 0 <= i < it.index() ==> seen.contains(*#[trigger] it.seq()[i]),
            r == seen.disjoint(b@),
        ensures
            seen == a@,
            r == seen.disjoint(b@),
    {
        proof {
            assert(it.seq().unref()[it.index()] == *k);
            assert(it.seq().unref().to_set().contains(*k));
            seen = seen.insert(*k);
        }
        if b.contains(k) {
            r = false;
        }
    }
    r
}

/// Adds every element of `src` to `dst`.
fn extend_from(dst: &mut HashSet<u64>, src: &HashSet<u64>)
    ensures
        final(dst)@ == old(dst)@.union(src@),
{
    let ghost start = dst@;
    let ghost mut seen: Set<u64> = Set::empty();
    for k in it: src.iter()
        invariant
            it.seq().unref().to_set() == src@,
            seen.subset_of(src@),
            forall|i: int| 0 <= i < it.index() ==> seen.contains(*#[trigger] it.seq()[i]),
            dst@ == start.union(seen),
        ensures
            seen == src@,
            dst@ == start.union(seen),
    {
        proof {
            assert(it.seq().unref()[it.index()] == *k);
            assert(it.seq().unref().to_set().contains(*k));
            seen = seen.insert(*k);
        }
        dst.insert(*k);
    }
}

/// The type set holding `key` alone.
fn single(key: u64) -> (s: HashSet<u64>)
    ensures
        s@ == set![key],
{
    let mut s = HashSet::new();
    s.insert(key);
    s
}

impl Access {
    /// An access that reads and writes nothing.
    pub fn new() -> (a: Access)
        ensures
            a.reads@ == Set::<u64>::empty(),
            a.writes@ == Set::<u64>::empty(),
    {
        Access { reads: HashSet::new(), writes: HashSet::new() }
    }

    /// Whether the systems with accesses `self` and `other` may run side by
    /// side.
    pub fn is_compatible_with(&self, other: &Access) -> (r: bool)
        ensures
            r == compatible(self.reads@, self.writes@, other.reads@, other.writes@),
    {
        disjoint_from(&self.writes, &other.reads) && disjoint_from(&self.reads, &other.writes)
            && disjoint_from(&self.writes, &other.writes)
    }

    /// Adds the reads and writes of `other` to those of `self`.
    pub fn merge(&mut self, other: &Access)
        ensures
            final(self).reads@ == old(self).reads@.union(other.reads@),
            final(self).writes@ == old(self).writes@.union(other.writes@),
    {
        extend_from(&mut self.reads, &other.reads);
        extend_from(&mut self.writes, &other.writes);
    }

    /// The access of a system that reads the type `key` and nothing else.
    pub fn reading(key: u64) -> (a: Access)
        ensures
            a.reads@ == set![key],
            a.writes@ == Set::<u64>::empty(),
    {
        Access { reads: single(key), writes: HashSet::new() }
    }

    /// The access of a system that writes the type `key` and nothing else.
    pub fn writing(key: u64) -> (a: Access)
        ensures
            a.reads@ == Set::<u64>::empty(),
            a.writes@ == set![key],
    {
        Access { reads: HashSet::new(), writes: single(key) }
    }
}

/// Whether two systems may run side by side does not depend on which of
/// them is asked.
pub proof fn lemma_compatible_symmetric(a: &Access, b: &Access)
    ensures
        compatible(a.reads@, a.writes@, b.reads@, b.writes@) == compatible(
            b.reads@,
            b.writes@,
            a.reads@,
            a.writes@,
        ),
{
}

/// A system whose access is two accesses merged may run beside another
/// exactly when each of the two may.
pub proof fn lemma_merge_compatible(a: Set<u64>, aw: Set<u64>, b: Set<u64>, bw: Set<u64>, c: Set<u64>, cw: Set<u64>)
    ensures
        compatible(a.union(b), aw.union(bw), c, cw) == (compatible(a, aw, c, cw) && compatible(
            b,
            bw,
            c,
            cw,
        )),
{
    if compatible(a, aw, c, cw) && compatible(b, bw, c, cw) {
        assert(aw.union(bw).disjoint(c));
        assert(a.union(b).disjoint(cw));
        assert(aw.union(bw).disjoint(cw));
    } else if compatible(a.union(b), aw.union(bw), c, cw) {
        assert(aw.disjoint(c) && bw.disjoint(c)) by {
            assert forall|x: u64| aw.contains(x) implies !c.contains(x) by {
                assert(aw.union(bw).contains(x));
            }
            assert forall|x: u64| bw.contains(x) implies !c.contains(x) by {
                assert(aw.union(bw).contains(x));
            }
        }
        assert(a.disjoint(cw) && b.disjoint(cw)) by {
            assert forall|x: u64| a.contains(x) implies !cw.contains(x) by {
                assert(a.union(b).contains(x));
            }
            assert forall|x: u64| b.contains(x) implies !cw.contains(x) by {
                assert(a.union(b).contains(x));
            }
        }
        assert(aw.disjoint(cw) && bw.disjoint(cw)) by {
            assert forall|x: u64| aw.contains(x) implies !cw.contains(x) by {
                assert(aw.union(bw).contains(x));
            }
            assert forall|x: u64| bw.contains(x) implies !cw.contains(x) by {
                assert(aw.union(bw).contains(x));
            }
        }
    }
}

/// Readers of a type may run beside each other; a writer of a type may run
/// beside no other reader or writer of it.
pub proof fn lemma_reader_writer(key: u64)
    ensures
        compatible(set![key], Set::empty(), set![key], Set::empty()),
        !compatible(set![key], Set::empty(), Set::empty(), set![key]),
        !compatible(Set::empty(), set![key], Set::empty(), set![key]),
{
    assert(set![key].disjoint(Set::<u64>::empty()));
    assert(Set::<u64>::empty().disjoint(set![key]));
    assert(set![key].contains(key));
}

/// An event stays readable for the frame it was sent in and the next, and
/// is gone after that.
pub proof fn lemma_event_lifetime<T>(e0: &Events<T>, e1: &Events<T>, e2: &Events<T>)
    requires
        e1.updated_from(e0),
        e2.updated_from(e1),
    ensures
        e1.kept() == e0.current@,
        e2.kept().len() == 0,
{
    assert(e1.kept() =~= e0.current@);
}

/// Events of one type, kept for two frames: those sent in this frame and
/// those sent in the one before.
pub struct Events<T> {
    pub current: Vec<T>,
    pub previous: Vec<T>,
}

impl<T> Events<T> {
    /// No events at all.
    pub fn new() -> (e: Events<T>)
        ensures
            e.current@.len() == 0,
            e.previous@.len() == 0,
    {
        Events { current: Vec::new(), previous: Vec::new() }
    }

    /// The events still kept, oldest first.
    pub open spec fn kept(&self) -> Seq<T> {
        self.previous@ + self.current@
    }

    /// `self` is `before` at the end of a frame.
    pub open spec fn updated_from(&self, before: &Events<T>) -> bool {
        &&& self.previous@ == before.current@
        &&& self.current@.len() == 0
    }

    /// Ends a frame: the events of the frame before are dropped, and those
    /// of this frame become the frame before.
    pub fn update(&mut self)
        ensures
            final(self).updated_from(old(self)),
    {
        self.previous.clear();
        std::mem::swap(&mut self.current, &mut self.previous);
    }
}

/// The sending end of the events of one type.
pub struct EventWriter<'a, T> {
    pub events: &'a mut Events<T>,
}

impl<'a, T> EventWriter<'a, T> {
    /// Sends `event` in this frame.
    pub fn send(&mut self, event: T)
        ensures
            final(self).events.current@ == old(self).events.current@.push(event),
            final(self).events.previous@ == old(self).events.previous@,
    {
        self.events.current.push(event);
    }
}

/// The receiving end of the events of one type.
pub struct EventReader<'a, T> {
    pub events: &'a Events<T>,
}

impl<'a, T> EventReader<'a, T> {
    /// The events still kept, oldest first: those of the frame before, then
    /// those of this frame.
    pub fn read(&self) -> (r: Vec<&'a T>)
        ensures
            r@.unref() == self.events.kept(),
    {
        let mut r: Vec<&'a T> = Vec::new();
        let prev = &self.events.previous;
        let cur = &self.events.current;
        let mut i: usize = 0;
        while i < prev.len()
            invariant
                0 <= i <= prev@.len(),
                r@.unref() == prev@.take(i as int),
            decreases prev@.len() - i,
        {
            let ghost before = r@;
            r.push(&prev[i]);
            proof {
                assert(r@.unref() =~= before.unref().push(prev@[i as int]));
                assert(prev@.take(i + 1) =~= prev@.take(i as int).push(prev@[i as int]));
            }
            i = i + 1;
        }
        let mut j: usize = 0;
        while j < cur.len()
            invariant
                0 <= j <= cur@.len(),
                r@.unref() == prev@ + cur@.take(j as int),
            decreases cur@.len() - j,
        {
            let ghost before = r@;
            r.push(&cur[j]);
            proof {
                assert(r@.unref() =~= before.unref().push(cur@[j as int]));
                assert(prev@ + cur@.take(j + 1) =~= (prev@ + cur@.take(j as int)).push(cur@[j as int]));
            }
            j = j + 1;
        }
        r
    }
}

/// Shared access to a resource for the length of a system run.
pub struct Res<'a, T> {
    pub value: &'a T,
}

impl<'a, T> Res<'a, T> {
    /// The resource.
    pub fn get(&self) -> (r: &'a T)
        ensures
            *r == *self.value,
    {
        self.value
    }
}

/// Exclusive access to a resource for the length of a system run.
pub struct ResMut<'a, T> {
    pub value: &'a mut T,
}

impl<'a, T> ResMut<'a, T> {
    /// The resource.
    pub fn get(&self) -> (r: &T)
        ensures
            *r == *old(self.value),
    {
        self.value
    }

    /// Replaces the resource with `value`.
    pub fn set(&mut self, value: T)
        ensures
            *final(self).value == value,
    {
        *self.value = value;
    }
}

} // verus!
