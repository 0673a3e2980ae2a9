use crate::arena::{rendering, Arena, Node};
use vstd::laws_eq::obeys_concrete_eq;
use vstd::prelude::*;

verus! {

/// A handle on a chain of an [`Arena`]: the slot of the chain's current first node.
///
/// A copy is a second handle on the same chain, so every change made in place
/// (`set`, `append`, `del` past index 0, `save_cycle`, `clear`) shows through all
/// copies; `del` at index 0 moves only the handle it is called on.
#[derive(Clone, Copy)]
pub struct CircularList {
    head: usize,
}

/// Reads a chain one index after another, from index 0 on. Once the chain is
/// closed into a cycle it yields values without end.
pub struct CircularListIterator {
    list: CircularList,
    index: u32,
}

impl CircularList {
    /// The slot this handle names.
    pub closed spec fn at(&self) -> int {
        self.head as int
    }

    /// An empty, open chain.
    pub fn new<T: Copy>(arena: &mut Arena<T>) -> (r: CircularList)
        requires
            old(arena).wf(),
        ensures
            final(arena).wf(),
            final(arena).extends(old(arena)),
            final(arena).holds(r.at()),
            final(arena).values(r.at()) == Seq::<T>::empty(),
            final(arena).back(r.at()) == None::<usize>,
    {
        CircularList { head: Node::from_vec(arena, Vec::new()) }
    }

    /// An open chain holding the values of `v` in order.
    pub fn from_vec<T: Copy>(arena: &mut Arena<T>, v: Vec<T>) -> (r: CircularList)
        requires
            old(arena).wf(),
        ensures
            final(arena).wf(),
            final(arena).extends(old(arena)),
            final(arena).holds(r.at()),
            final(arena).values(r.at()) == v@,
            final(arena).back(r.at()) == None::<usize>,
    {
        CircularList { head: Node::from_vec(arena, v) }
    }

    /// Removes the value at `index`. At index 0 this handle moves on to the second
    /// slot while its copies still read every value; past 0 the cell is unlinked for
    /// every handle. A removal leaves the chain open; an index at or past the length
    /// changes nothing.
    pub fn del<T: Copy>(&mut self, arena: &mut Arena<T>, index: u32)
        requires
            old(arena).wf(),
            old(arena).holds(old(self).at()),
        ensures
            final(arena).wf(),
            final(arena).holds(final(self).at()),
            final(arena)@.len() == old(arena)@.len(),
            index >= old(arena).values(old(self).at()).len() ==> {
                &&& *final(arena) == *old(arena)
                &&& *final(self) == *old(self)
            },
            index < old(arena).values(old(self).at()).len() ==> {
                &&& final(arena).values(final(self).at()) == old(arena).values(
                    old(self).at(),
                ).remove(index as int)
                &&& final(arena).back(final(self).at()) == None::<usize>
            },
            index == 0 ==> final(arena).values(old(self).at()) == old(arena).values(
                old(self).at(),
            ),
            index > 0 ==> *final(self) == *old(self),
    {
        Node::del(arena, &mut self.head, index);
    }

    /// Closes the chain into a cycle back to this handle's first cell; on an empty
    /// chain nothing changes.
    pub fn save_cycle<T: Copy>(&self, arena: &mut Arena<T>)
        requires
            old(arena).wf(),
            old(arena).holds(self.at()),
        ensures
            final(arena).wf(),
            final(arena)@.len() == old(arena)@.len(),
            old(arena).values(self.at()).len() == 0 ==> *final(arena) == *old(arena),
            old(arena).values(self.at()).len() > 0 ==> {
                &&& final(arena)@ == old(arena)@.update(
                    old(arena).terminal(self.at()),
                    Node::Nil(Some(self.at() as usize)),
                )
                &&& final(arena).back(self.at()) == Some(self.at() as usize)
            },
            forall|h: int|
                old(arena).holds(h) ==> #[trigger] final(arena).values(h) == old(arena).values(h),
    {
        Node::save_cycle(arena, self.head);
    }

    /// A reader that starts at index 0 of this chain.
    pub fn iter(&self) -> (r: CircularListIterator)
        ensures
            r.list() == *self,
            r.position() == 0,
    {
        CircularListIterator { list: *self, index: 0 }
    }

    /// The value at `index`, reading on through the cycle when there is one.
    pub fn get<T: Copy>(&self, arena: &Arena<T>, index: u32) -> (r: Option<T>)
        requires
            arena.wf(),
            arena.holds(self.at()),
        ensures
            r == arena.item(self.at(), index as nat),
    {
        Node::get(arena, self.head, index)
    }

    /// Replaces the value at `index`; an index at or past the length changes nothing.
    pub fn set<T: Copy>(&self, arena: &mut Arena<T>, index: u32, val: T)
        requires
            old(arena).wf(),
            old(arena).holds(self.at()),
        ensures
            final(arena).wf(),
            final(arena)@.len() == old(arena)@.len(),
            index >= old(arena).values(self.at()).len() ==> *final(arena) == *old(arena),
            index < old(arena).values(self.at()).len() ==> {
                &&& final(arena).values(self.at()) == old(arena).values(self.at()).update(
                    index as int,
                    val,
                )
                &&& final(arena).back(self.at()) == old(arena).back(self.at())
            },
    {
        Node::set(arena, self.head, index, val)
    }

    /// Adds `val` at the end; the chain is left open.
    pub fn append<T: Copy>(&self, arena: &mut Arena<T>, val: T)
        requires
            old(arena).wf(),
            old(arena).holds(self.at()),
        ensures
            final(arena).wf(),
            final(arena)@.len() == old(arena)@.len() + 1,
            final(arena).values(self.at()) == old(arena).values(self.at()).push(val),
            final(arena).back(self.at()) == None::<usize>,
    {
        Node::append(arena, self.head, val)
    }

    /// The number of values on the chain, a cycle not counted twice.
    pub fn length<T: Copy>(&self, arena: &Arena<T>) -> (r: u32)
        requires
            arena.wf(),
            arena.holds(self.at()),
            arena.values(self.at()).len() <= u32::MAX,
        ensures
            r == arena.values(self.at()).len(),
    {
        Node::length(arena, self.head)
    }

    /// Empties the chain for every handle on it; it ends open.
    pub fn clear<T: Copy>(&self, arena: &mut Arena<T>)
        requires
            old(arena).wf(),
            old(arena).holds(self.at()),
        ensures
            final(arena).wf(),
            final(arena)@.len() == old(arena)@.len(),
            final(arena).values(self.at()) == Seq::<T>::empty(),
            final(arena).back(self.at()) == None::<usize>,
    {
        Node::clear(arena, self.head)
    }

    /// Whether the two chains hold equal values in the same order, cycles aside.
    pub fn equals<T: Copy + PartialEq>(&self, arena: &Arena<T>, other: &CircularList) -> (r: bool)
        requires
            arena.wf(),
            arena.holds(self.at()),
            arena.holds(other.at()),
            obeys_concrete_eq::<T>(),
        ensures
            r == (arena.values(self.at()) == arena.values(other.at())),
    {
        Node::equals(arena, self.head, arena, other.head)
    }

    /// The chain's text: each value and a comma, then the glyph for its end.
    pub fn render(&self, arena: &Arena<i32>) -> (r: String)
        requires
            arena.wf(),
            arena.holds(self.at()),
        ensures
            r@ == rendering(arena.values(self.at()), arena.closed(self.at())),
    {
        Node::render(arena, self.head)
    }

    /// Two handles on the same slot read the same chain: same values, same value at
    /// every index, same end.
    pub proof fn law_copies_agree<T>(arena: &Arena<T>, a: CircularList, b: CircularList, i: nat)
        requires
            a.at() == b.at(),
        ensures
            arena.values(a.at()) == arena.values(b.at()),
            arena.item(a.at(), i) == arena.item(b.at(), i),
            arena.closed(a.at()) == arena.closed(b.at()),
    {
    }
}

impl CircularListIterator {
    /// The handle being read.
    pub closed spec fn list(&self) -> CircularList {
        self.list
    }

    /// The index the next read is at.
    pub closed spec fn position(&self) -> nat {
        self.index as nat
    }

    /// Reads the value at the current index and moves on by one, whatever was read.
    pub fn next<T: Copy>(&mut self, arena: &Arena<T>) -> (r: Option<T>)
        requires
            arena.wf(),
            arena.holds(old(self).list().at()),
            old(self).position() < u32::MAX,
        ensures
            r == arena.item(old(self).list().at(), old(self).position()),
            final(self).list() == old(self).list(),
            final(self).position() == old(self).position() + 1,
    {
        let r = self.list.get(arena, self.index);
        self.index = self.index + 1;
        r
    }
}

} // verus!
