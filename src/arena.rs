use crate::text::{decimal, decimal_text};
use vstd::laws_eq::obeys_concrete_eq;
use vstd::prelude::*;
use vstd::string::*;

verus! {

/// One slot of an [`Arena`].
///
/// `Cons(value, next)` holds one element and the index of the rest of the chain;
/// `Nil(back)` ends a chain, and `back`, when present, is the index of a slot
/// where reading continues past the end (the chain is then closed into a cycle).
#[derive(Clone, Copy)]
pub enum Node<T> {
    Nil(Option<usize>),
    Cons(T, usize),
}

/// The text of a run of cells: each value in decimal followed by a comma.
pub open spec fn cells_text(vals: Seq<i32>) -> Seq<char>
    decreases vals.len(),
{
    if vals.len() == 0 {
        Seq::empty()
    } else {
        decimal(vals[0] as int) + seq![','] + cells_text(vals.drop_first())
    }
}

/// Marks the end of an open chain.
pub open spec fn open_glyph() -> char {
    '\u{23DA}'
}

/// Marks the end of a chain closed into a cycle.
pub open spec fn closed_glyph() -> char {
    '\u{27F2}'
}

/// The text of a chain: its cells, then the glyph for how it ends. The cycle is
/// never unrolled.
pub open spec fn rendering(vals: Seq<i32>, closed: bool) -> Seq<char> {
    cells_text(vals) + seq![if closed { closed_glyph() } else { open_glyph() }]
}

/// `node` with its value replaced by `v`, when it is a cell.
pub open spec fn with_value<T>(node: Node<T>, v: T) -> Node<T> {
    match node {
        Node::Cons(_, n) => Node::Cons(v, n),
        Node::Nil(b) => Node::Nil(b),
    }
}

/// Flat storage for nodes. A chain is named by the index of its first slot; slots
/// are never removed, so an index handed out stays valid for the arena's life.
pub struct Arena<T> {
    nodes: Vec<Node<T>>,
    /// Strictly decreases along every forward link, so forward links never cycle.
    rank: Ghost<Seq<nat>>,
}

impl<T> View for Arena<T> {
    type V = Seq<Node<T>>;

    closed spec fn view(&self) -> Seq<Node<T>> {
        self.nodes@
    }
}

impl<T> Arena<T> {
    spec fn link_ok(&self, i: int) -> bool {
        match self.nodes@[i] {
            Node::Cons(_, n) => n < self.nodes@.len() && self.rank@[n as int] < self.rank@[i],
            Node::Nil(back) => match back {
                Some(b) => b < self.nodes@.len(),
                None => true,
            },
        }
    }

    /// Every link stays inside the arena and forward links are acyclic.
    pub closed spec fn wf(&self) -> bool {
        &&& self.rank@.len() == self.nodes@.len()
        &&& self.nodes@.len() <= usize::MAX
        &&& forall|i: int| 0 <= i < self.nodes@.len() ==> #[trigger] self.link_ok(i)
    }

    /// The ghost rank of slot `h`.
    pub closed spec fn rank_of(&self, h: int) -> nat {
        self.rank@[h]
    }

    /// The slot `h` names a chain of this arena.
    pub open spec fn holds(&self, h: int) -> bool {
        0 <= h < self@.len()
    }

    /// The values met from slot `h` by forward links, up to the terminal.
    pub closed spec fn values(&self, h: int) -> Seq<T>
        decreases self.rank_of(h),
        when self.wf() && self.holds(h)
    {
        proof {
            assert(self.link_ok(h));
        }
        match self.nodes@[h] {
            Node::Cons(v, n) => seq![v] + self.values(n as int),
            Node::Nil(_) => Seq::empty(),
        }
    }

    /// The slot of the terminal that ends the chain from `h`.
    pub closed spec fn terminal(&self, h: int) -> int
        decreases self.rank_of(h),
        when self.wf() && self.holds(h)
    {
        proof {
            assert(self.link_ok(h));
        }
        match self.nodes@[h] {
            Node::Cons(_, n) => self.terminal(n as int),
            Node::Nil(_) => h,
        }
    }

    /// The back-reference held by the terminal of the chain from `h`.
    pub open spec fn back(&self, h: int) -> Option<usize> {
        match self@[self.terminal(h)] {
            Node::Nil(b) => b,
            Node::Cons(_, _) => None,
        }
    }

    /// What reading index `i` of the chain from `h` yields: the `i`-th value inside
    /// the chain; past its end, reading goes on at the terminal's back-reference,
    /// if any. A chain without cells yields nothing, whatever its terminal holds.
    pub open spec fn item(&self, h: int, i: nat) -> Option<T>
        decreases i,
        when self.wf() && self.holds(h)
    {
        let s = self.values(h);
        if s.len() == 0 {
            None
        } else if i < s.len() {
            Some(s[i as int])
        } else {
            match self.back(h) {
                Some(b) => self.item(b as int, (i - s.len()) as nat),
                None => None,
            }
        }
    }

    /// The chain from `h` is closed into a cycle: reading just past its last cell
    /// still yields a value.
    pub open spec fn closed(&self, h: int) -> bool {
        self.item(h, self.values(h).len()) is Some
    }

    /// Reading index `k` from slot `c`, reached by walking a chain: a terminal
    /// sends the reader on to its back-reference.
    spec fn read_on(&self, c: int, k: nat) -> Option<T> {
        match self@[c] {
            Node::Cons(_, _) => self.item(c, k),
            Node::Nil(back) => match back {
                Some(b) => self.item(b as int, k),
                None => None,
            },
        }
    }

    /// `self` extends `old`: each slot of `old` is still there, unchanged.
    pub open spec fn extends(&self, old: &Self) -> bool {
        &&& old@.len() <= self@.len()
        &&& self@.subrange(0, old@.len() as int) == old@
    }

    pub proof fn lemma_chain(&self, h: int)
        requires
            self.wf(),
            self.holds(h),
        ensures
            self.holds(self.terminal(h)),
            self@[self.terminal(h)] is Nil,
            self.back(h) matches Some(b) ==> self.holds(b as int),
            self.rank_of(self.terminal(h)) <= self.rank_of(h),
        decreases self.rank_of(h),
    {
        assert(self.link_ok(h));
        match self.nodes@[h] {
            Node::Cons(_, n) => {
                self.lemma_chain(n as int);
                assert(self.link_ok(self.terminal(h)));
            },
            Node::Nil(_) => {
                assert(self.link_ok(h));
            },
        }
    }

    /// Slots that an arena shares with an arena it extends hold the same chains.
    pub proof fn lemma_extends(&self, old: &Self, h: int)
        requires
            self.wf(),
            old.wf(),
            self.extends(old),
            old.holds(h),
        ensures
            self.values(h) == old.values(h),
            self.terminal(h) == old.terminal(h),
            self.back(h) == old.back(h),
        decreases old.rank_of(h),
    {
        assert(old.link_ok(h));
        assert(self@[h] == old@[h]);
        match old@[h] {
            Node::Cons(_, n) => {
                self.lemma_extends(old, n as int);
                old.lemma_chain(h);
                assert(self@[self.terminal(h)] == old@[old.terminal(h)]);
            },
            Node::Nil(_) => {},
        }
    }

    /// Reading a shared chain gives the same in an arena that extends another.
    pub proof fn lemma_extends_item(&self, old: &Self, h: int, i: nat)
        requires
            self.wf(),
            old.wf(),
            self.extends(old),
            old.holds(h),
        ensures
            self.item(h, i) == old.item(h, i),
        decreases i,
    {
        self.lemma_extends(old, h);
        old.lemma_chain(h);
        let s = old.values(h);
        if s.len() > 0 && i >= s.len() {
            if let Some(b) = old.back(h) {
                self.lemma_extends_item(old, b as int, (i - s.len()) as nat);
            }
        }
    }

    /// The slot at position `k` of the chain from `h` (its terminal when `k` is
    /// the chain's length).
    pub closed spec fn walk(&self, h: int, k: nat) -> int
        decreases k,
    {
        if k == 0 {
            h
        } else {
            match self@[h] {
                Node::Cons(_, n) => self.walk(n as int, (k - 1) as nat),
                Node::Nil(_) => h,
            }
        }
    }

    /// The slot reached after `k` links holds the rest of the chain.
    pub proof fn lemma_walk(&self, h: int, k: nat)
        requires
            self.wf(),
            self.holds(h),
            k <= self.values(h).len(),
        ensures
            self.holds(self.walk(h, k)),
            self.values(self.walk(h, k)) == self.values(h).skip(k as int),
            self.terminal(self.walk(h, k)) == self.terminal(h),
            self.rank_of(self.walk(h, k)) <= self.rank_of(h),
            k > 0 ==> self.rank_of(self.walk(h, k)) < self.rank_of(h),
            k < self.values(h).len() ==> match self@[self.walk(h, k)] {
                Node::Cons(v, n) => self.walk(h, k + 1) == n && v == self.values(h)[k as int],
                Node::Nil(_) => false,
            },
            k == self.values(h).len() ==> self.walk(h, k) == self.terminal(h),
        decreases k,
    {
        assert(self.link_ok(h));
        if k == 0 {
            assert(self.values(h).skip(0) =~= self.values(h));
            if let Node::Cons(_, n) = self@[h] {
                assert(self.walk(h, 1) == self.walk(n as int, 0));
            }
        } else {
            if let Node::Cons(v, n) = self@[h] {
                let m = n as int;
                self.lemma_walk(m, (k - 1) as nat);
                assert(self.values(h).skip(k as int) =~= self.values(m).skip(k - 1));
                assert(self.walk(h, (k + 1) as nat) == self.walk(m, k));
            }
        }
    }

    /// `new` differs from `old` in slot `c` alone.
    pub open spec fn differs_only_at(new: &Self, old: &Self, c: int) -> bool {
        &&& new@.len() == old@.len()
        &&& forall|i: int| 0 <= i < old@.len() && i != c ==> new@[i] == old@[i]
    }

    /// Chains that rank below a changed slot never reach it.
    proof fn lemma_frame_below(new: &Self, old: &Self, c: int, g: int)
        requires
            new.wf(),
            old.wf(),
            Self::differs_only_at(new, old, c),
            old.holds(g),
            old.rank_of(g) < old.rank_of(c),
        ensures
            new.values(g) == old.values(g),
            new.terminal(g) == old.terminal(g),
            new.back(g) == old.back(g),
        decreases old.rank_of(g),
    {
        assert(old.link_ok(g));
        old.lemma_chain(g);
        if let Node::Cons(_, n) = old@[g] {
            Self::lemma_frame_below(new, old, c, n as int);
        }
    }

    /// A change to the cell at position `j` of a chain shows in the chain at `j`.
    proof fn lemma_frame_along(new: &Self, old: &Self, c: int, h: int, j: nat)
        requires
            new.wf(),
            old.wf(),
            Self::differs_only_at(new, old, c),
            old.holds(h),
            j < old.values(h).len(),
            old.walk(h, j) == c,
        ensures
            new.values(h) == old.values(h).take(j as int) + new.values(c),
            new.terminal(h) == new.terminal(c),
        decreases j,
    {
        old.lemma_walk(h, j);
        if j == 0 {
            assert(old.values(h).take(0) + new.values(c) =~= new.values(c));
        } else {
            assert(old.link_ok(h));
            if let Node::Cons(v, n) = old@[h] {
                let m = n as int;
                assert(old.walk(h, j) == old.walk(m, (j - 1) as nat));
                Self::lemma_frame_along(new, old, c, m, (j - 1) as nat);
                assert(new@[h] == old@[h]);
                assert(old.values(h).take(j as int) =~= seq![v] + old.values(m).take(j - 1));
                assert(new.values(h) =~= old.values(h).take(j as int) + new.values(c));
            }
        }
    }

    /// Pointing a terminal somewhere else changes the back-reference of the chains
    /// that end there and nothing else.
    proof fn lemma_retarget(new: &Self, old: &Self, t: int, nb: Option<usize>, h: int)
        requires
            new.wf(),
            old.wf(),
            Self::differs_only_at(new, old, t),
            old.holds(t),
            old@[t] is Nil,
            new@[t] == Node::<T>::Nil(nb),
            old.holds(h),
        ensures
            new.values(h) == old.values(h),
            new.terminal(h) == old.terminal(h),
            new.back(h) == if old.terminal(h) == t { nb } else { old.back(h) },
        decreases old.rank_of(h),
    {
        assert(old.link_ok(h));
        old.lemma_chain(h);
        if let Node::Cons(_, n) = old@[h] {
            Self::lemma_retarget(new, old, t, nb, n as int);
        }
    }

    /// Turning the terminal `t` into a cell that leads to a fresh open terminal
    /// adds `v` to every chain that ended at `t`.
    proof fn lemma_extend_terminal(new: &Self, old: &Self, t: int, v: T, h: int)
        requires
            new.wf(),
            old.wf(),
            old.holds(t),
            old@[t] is Nil,
            new@ == old@.update(t, Node::Cons(v, old@.len() as usize)).push(Node::Nil(None)),
            old.holds(h),
        ensures
            old.terminal(h) == t ==> {
                &&& new.values(h) == old.values(h).push(v)
                &&& new.terminal(h) == old@.len()
                &&& new.back(h) == None::<usize>
            },
            old.terminal(h) != t ==> {
                &&& new.values(h) == old.values(h)
                &&& new.terminal(h) == old.terminal(h)
                &&& new.back(h) == old.back(h)
            },
        decreases old.rank_of(h),
    {
        assert(old.link_ok(h));
        old.lemma_chain(h);
        let e = old@.len() as int;
        assert(new@[e] == Node::<T>::Nil(None));
        assert(new.values(e) == Seq::<T>::empty());
        assert(new.terminal(e) == e);
        if h == t {
            assert(new@[t] == Node::Cons(v, e as usize));
            assert(new.holds(t) && new.holds(e));
            assert(new.link_ok(t));
            assert(new.values(t) == seq![v] + new.values(e));
            assert(old.values(t) == Seq::<T>::empty());
            assert(new.terminal(t) == new.terminal(e));
            assert(new.values(h) =~= old.values(h).push(v));
        } else {
            assert(new@[h] == old@[h]);
            if let Node::Cons(w, n) = old@[h] {
                Self::lemma_extend_terminal(new, old, t, v, n as int);
                if old.terminal(h) == t {
                    assert(new.values(h) =~= old.values(h).push(v));
                }
            } else {
                assert(new.terminal(h) == h);
            }
        }
    }

    /// Reading back a chain built from `s`, index by index below its length, gives `s`.
    pub proof fn law_round_trip(&self, h: int, s: Seq<T>)
        requires
            self.wf(),
            self.holds(h),
            self.values(h) == s,
        ensures
            forall|i: int| 0 <= i < s.len() ==> #[trigger] self.item(h, i as nat) == Some(s[i]),
    {
    }

    /// Closing a chain into a cycle keeps its values, so its length and what it
    /// equals stay as they were.
    pub proof fn law_cycle_keeps_values(before: &Self, after: &Self, h: int)
        requires
            before.wf(),
            after.wf(),
            before.holds(h),
            after@ == before@.update(before.terminal(h), Node::Nil(Some(h as usize))),
        ensures
            after.values(h) == before.values(h),
            after.values(h).len() == before.values(h).len(),
    {
        before.lemma_chain(h);
        Self::lemma_retarget(after, before, before.terminal(h), Some(h as usize), h);
    }

    /// Equality of chains, as [`Node::equals`] decides it, is reflexive, symmetric
    /// and transitive.
    pub proof fn law_equality_is_equivalence(a: &Self, x: int, b: &Self, y: int, c: &Self, z: int)
        ensures
            a.values(x) == a.values(x),
            (a.values(x) == b.values(y)) == (b.values(y) == a.values(x)),
            a.values(x) == b.values(y) && b.values(y) == c.values(z) ==> a.values(x) == c.values(z),
    {
    }

    /// Closing a chain into a cycle does not change which chains it equals.
    pub proof fn law_equality_ignores_cycle(before: &Self, after: &Self, h: int, other: Seq<T>)
        requires
            before.wf(),
            after.wf(),
            before.holds(h),
            after@ == before@.update(before.terminal(h), Node::Nil(Some(h as usize))),
        ensures
            (after.values(h) == other) == (before.values(h) == other),
    {
        Self::law_cycle_keeps_values(before, after, h);
    }

    /// A chain of length `L > 0` whose terminal refers back to its first cell
    /// repeats: index `i` reads the value at `i mod L`.
    pub proof fn law_cycle_period(&self, h: int, i: nat)
        requires
            self.wf(),
            self.holds(h),
            self.values(h).len() > 0,
            self.back(h) == Some(h as usize),
        ensures
            self.item(h, i) == self.item(h, i % self.values(h).len()),
            self.item(h, i) == Some(self.values(h)[(i % self.values(h).len()) as int]),
        decreases i,
    {
        let len = self.values(h).len();
        if i >= len {
            self.law_cycle_period(h, (i - len) as nat);
            assert((i - len) as nat % len == i % len) by {
                vstd::arithmetic::div_mod::lemma_mod_sub_multiples_vanish(i as int, len as int);
            }
        } else {
            vstd::arithmetic::div_mod::lemma_small_mod(i, len);
        }
    }

    /// A chain without cells yields nothing at any index, whatever its terminal
    /// refers to.
    pub proof fn law_empty_yields_nothing(&self, h: int, i: nat)
        requires
            self.wf(),
            self.holds(h),
            self.values(h).len() == 0,
        ensures
            self.item(h, i) == None::<T>,
            !self.closed(h),
    {
    }

    /// A cleared chain is empty and open, yields nothing at any index, and renders
    /// as the open glyph alone.
    pub proof fn law_clear(before: &Self, after: &Self, h: int, i: nat)
        requires
            before.wf(),
            after.wf(),
            before.holds(h),
            after@ == before@.update(h, Node::Nil(None)),
        ensures
            after.values(h).len() == 0,
            after.back(h) == None::<usize>,
            !after.closed(h),
            after.item(h, i) == None::<T>,
            rendering(Seq::<i32>::empty(), after.closed(h)) == seq![open_glyph()],
    {
        assert(after@[h] == Node::<T>::Nil(None));
        assert(after.terminal(h) == h);
        assert(cells_text(Seq::<i32>::empty()) == Seq::<char>::empty());
        assert(rendering(Seq::<i32>::empty(), false) =~= seq![open_glyph()]);
    }

    /// Removing index 0 through one name moves that name on to the second slot;
    /// another name still at the old first slot reads the whole chain as before.
    pub proof fn law_front_delete(before: &Self, after: &Self, h: int, v: T, n: usize)
        requires
            before.wf(),
            after.wf(),
            before.holds(h),
            before@[h] == Node::Cons(v, n),
            after@ == before@.update(before.terminal(h), Node::Nil(None)),
        ensures
            after.values(h) == before.values(h),
            after.values(n as int) == before.values(h).drop_first(),
    {
        before.lemma_chain(h);
        assert(before.link_ok(h));
        Self::lemma_retarget(after, before, before.terminal(h), None, h);
        Self::lemma_retarget(after, before, before.terminal(h), None, n as int);
        assert(before.values(h).drop_first() =~= before.values(n as int));
    }

    /// One step along a cell: index 0 is its value, the rest reads on from its link.
    proof fn lemma_item_step(&self, h: int, k: nat)
        requires
            self.wf(),
            self.holds(h),
            self@[h] is Cons,
        ensures
            match self@[h] {
                Node::Cons(v, n) => {
                    &&& self.item(h, 0) == Some(v)
                    &&& self.item(h, k + 1) == self.read_on(n as int, k)
                    &&& self.holds(n as int)
                },
                Node::Nil(_) => true,
            },
    {
        assert(self.link_ok(h));
        self.lemma_chain(h);
        if let Node::Cons(v, n) = self@[h] {
            let m = n as int;
            self.lemma_chain(m);
            let s = self.values(h);
            let t = self.values(m);
            assert(s == seq![v] + t);
            assert(self.terminal(h) == self.terminal(m));
            if let Node::Nil(_) = self@[m] {
                assert(t.len() == 0);
            } else {
                assert(t.len() > 0);
                if k < t.len() {
                    assert(s[k + 1int] == t[k as int]);
                }
            }
        }
    }
}

impl<T: Copy> Arena<T> {
    /// An arena with no slots.
    pub fn new() -> (r: Arena<T>)
        ensures
            r.wf(),
            r@.len() == 0,
    {
        Arena { nodes: Vec::new(), rank: Ghost(Seq::empty()) }
    }

    /// Adds `node` as a new slot of the given rank.
    fn add_slot(&mut self, node: Node<T>, rank: Ghost<nat>) -> (r: usize)
        requires
            old(self).wf(),
            match node {
                Node::Cons(_, n) => old(self).holds(n as int) && old(self).rank_of(n as int) < rank@,
                Node::Nil(back) => back matches Some(b) ==> old(self).holds(b as int),
            },
        ensures
            final(self).wf(),
            final(self)@ == old(self)@.push(node),
            final(self).extends(old(self)),
            r == old(self)@.len(),
            final(self).rank_of(r as int) == rank@,
            forall|i: int| old(self).holds(i) ==> final(self).rank_of(i) == old(self).rank_of(i),
    {
        let r = self.nodes.len();
        self.nodes.push(node);
        let _ = self.nodes.len();
        self.rank = Ghost(self.rank@.push(rank@));
        assert forall|i: int| 0 <= i < self.nodes@.len() implies #[trigger] self.link_ok(i) by {
            if i < r {
                assert(old(self).link_ok(i));
            }
        }
        assert(self@.subrange(0, r as int) =~= old(self)@);
        r
    }
}

impl<T: Copy> Node<T> {
    /// An open terminal: the node of an empty chain.
    pub fn new() -> (r: Node<T>)
        ensures
            r == Node::<T>::Nil(None),
    {
        Node::Nil(None)
    }

    /// The value of a cell; nothing for a terminal.
    pub fn head(&self) -> (r: Option<T>)
        ensures
            r == match *self {
                Node::Cons(v, _) => Some(v),
                Node::Nil(_) => None,
            },
    {
        match self {
            Node::Cons(v, _) => Some(*v),
            Node::Nil(_) => None,
        }
    }

    /// The forward link of a cell; nothing for a terminal.
    pub fn tail(&self) -> (r: Option<usize>)
        ensures
            r == match *self {
                Node::Cons(_, n) => Some(n),
                Node::Nil(_) => None,
            },
    {
        match self {
            Node::Cons(_, n) => Some(*n),
            Node::Nil(_) => None,
        }
    }

    /// Puts a cell holding `i` in front of the chain from `at`, and names the new chain.
    pub fn cons(arena: &mut Arena<T>, at: usize, i: T) -> (r: usize)
        requires
            old(arena).wf(),
            old(arena).holds(at as int),
        ensures
            final(arena).wf(),
            final(arena)@ == old(arena)@.push(Node::Cons(i, at)),
            final(arena).extends(old(arena)),
            r == old(arena)@.len(),
            final(arena).values(r as int) == seq![i] + old(arena).values(at as int),
            final(arena).back(r as int) == old(arena).back(at as int),
    {
        let ghost rank = arena.rank_of(at as int) + 1;
        let r = arena.add_slot(Node::Cons(i, at), Ghost(rank));
        proof {
            arena.lemma_extends(old(arena), at as int);
            assert(arena.link_ok(r as int));
            assert(arena.values(r as int) == seq![i] + arena.values(at as int));
            assert(arena.terminal(r as int) == arena.terminal(at as int));
        }
        r
    }

    /// Builds a chain holding the values of `v` in order (the first value at index
    /// 0), ending in an open terminal.
    pub fn from_vec(arena: &mut Arena<T>, v: Vec<T>) -> (r: usize)
        requires
            old(arena).wf(),
        ensures
            final(arena).wf(),
            final(arena).extends(old(arena)),
            final(arena).holds(r as int),
            final(arena).values(r as int) == v@,
            final(arena).back(r as int) == None::<usize>,
    {
        let mut head = arena.add_slot(Node::new(), Ghost(0));
        proof {
            assert(arena.values(head as int) =~= v@.subrange(v@.len() as int, v@.len() as int));
            assert(arena.terminal(head as int) == head as int);
        }
        let mut i = v.len();
        while i > 0
            invariant
                i <= v@.len(),
                arena.wf(),
                arena.extends(old(arena)),
                arena.holds(head as int),
                arena.values(head as int) == v@.subrange(i as int, v@.len() as int),
                arena.back(head as int) == None::<usize>,
            decreases i,
        {
            i -= 1;
            let ghost before = *arena;
            head = Node::cons(arena, head, v[i]);
            assert(arena.values(head as int) =~= v@.subrange(i as int, v@.len() as int));
            assert(arena@.subrange(0, old(arena)@.len() as int) =~= before@.subrange(0, old(arena)@.len() as int));
        }
        head
    }

    /// The number of cells on the chain from `at`; the back-reference is not followed.
    pub fn length(arena: &Arena<T>, at: usize) -> (r: u32)
        requires
            arena.wf(),
            arena.holds(at as int),
            arena.values(at as int).len() <= u32::MAX,
        ensures
            r == arena.values(at as int).len(),
    {
        let mut cur = at;
        let mut n: u32 = 0;
        loop
            invariant
                arena.wf(),
                arena.holds(cur as int),
                arena.values(at as int).len() <= u32::MAX,
                arena.values(at as int).len() == n + arena.values(cur as int).len(),
            decreases arena.values(cur as int).len(),
        {
            proof {
                assert(arena.link_ok(cur as int));
            }
            match arena.nodes[cur] {
                Node::Cons(_, next) => {
                    assert(arena.values(cur as int).len() == 1 + arena.values(next as int).len());
                    n += 1;
                    cur = next;
                },
                Node::Nil(_) => {
                    return n;
                },
            }
        }
    }

    /// The slot of the terminal that ends the chain from `at`.
    fn find_terminal(arena: &Arena<T>, at: usize) -> (r: usize)
        requires
            arena.wf(),
            arena.holds(at as int),
        ensures
            r == arena.terminal(at as int),
    {
        let mut cur = at;
        loop
            invariant
                arena.wf(),
                arena.holds(cur as int),
                arena.terminal(cur as int) == arena.terminal(at as int),
            decreases arena.values(cur as int).len(),
        {
            proof {
                assert(arena.link_ok(cur as int));
            }
            match arena.nodes[cur] {
                Node::Cons(_, next) => {
                    assert(arena.values(cur as int).len() == 1 + arena.values(next as int).len());
                    cur = next;
                },
                Node::Nil(_) => {
                    return cur;
                },
            }
        }
    }

    /// Sets the back-reference of the terminal that ends the chain from `at`.
    fn set_back(arena: &mut Arena<T>, at: usize, back: Option<usize>)
        requires
            old(arena).wf(),
            old(arena).holds(at as int),
            back matches Some(b) ==> old(arena).holds(b as int),
        ensures
            final(arena).wf(),
            final(arena)@ == old(arena)@.update(old(arena).terminal(at as int), Node::Nil(back)),
            final(arena)@.len() == old(arena)@.len(),
            forall|h: int|
                old(arena).holds(h) ==> #[trigger] final(arena).values(h) == old(arena).values(h),
            forall|h: int|
                old(arena).holds(h) ==> #[trigger] final(arena).terminal(h) == old(arena).terminal(h),
            forall|h: int|
                old(arena).holds(h) ==> #[trigger] final(arena).back(h) == if old(arena).terminal(h)
                    == old(arena).terminal(at as int) {
                    back
                } else {
                    old(arena).back(h)
                },
    {
        let t = Self::find_terminal(arena, at);
        proof {
            arena.lemma_chain(at as int);
        }
        arena.nodes[t] = Node::Nil(back);
        proof {
            assert forall|i: int| 0 <= i < arena.nodes@.len() implies #[trigger] arena.link_ok(i) by {
                assert(old(arena).link_ok(i));
            }
            assert forall|h: int| old(arena).holds(h) implies {
                &&& arena.values(h) == old(arena).values(h)
                &&& arena.terminal(h) == old(arena).terminal(h)
                &&& arena.back(h) == if old(arena).terminal(h) == t as int {
                    back
                } else {
                    old(arena).back(h)
                }
            } by {
                Arena::lemma_retarget(arena, old(arena), t as int, back, h);
            }
        }
    }

    /// Closes the chain named by `ref_list` into a cycle: its terminal now refers
    /// back to its first cell. A later call overwrites an earlier one. On an empty
    /// chain there is no cell to return to, and nothing changes.
    pub fn save_cycle(arena: &mut Arena<T>, ref_list: usize)
        requires
            old(arena).wf(),
            old(arena).holds(ref_list as int),
        ensures
            final(arena).wf(),
            final(arena)@.len() == old(arena)@.len(),
            old(arena).values(ref_list as int).len() == 0 ==> *final(arena) == *old(arena),
            old(arena).values(ref_list as int).len() > 0 ==> {
                &&& final(arena)@ == old(arena)@.update(
                    old(arena).terminal(ref_list as int),
                    Node::Nil(Some(ref_list)),
                )
                &&& final(arena).back(ref_list as int) == Some(ref_list)
            },
            forall|h: int|
                old(arena).holds(h) ==> #[trigger] final(arena).values(h) == old(arena).values(h),
    {
        if let Node::Cons(_, _) = arena.nodes[ref_list] {
            Self::set_back(arena, ref_list, Some(ref_list));
        } else {
            proof {
                assert(arena.values(ref_list as int).len() == 0);
            }
        }
    }

    /// Replaces the value at `index` of the chain from `at`. Only cells owned by the
    /// chain are touched: an index at or past its length changes nothing, cycle or not.
    pub fn set(arena: &mut Arena<T>, at: usize, index: u32, val: T)
        requires
            old(arena).wf(),
            old(arena).holds(at as int),
        ensures
            final(arena).wf(),
            final(arena)@.len() == old(arena)@.len(),
            index >= old(arena).values(at as int).len() ==> *final(arena) == *old(arena),
            index < old(arena).values(at as int).len() ==> {
                &&& final(arena)@ == old(arena)@.update(
                    old(arena).walk(at as int, index as nat),
                    with_value(old(arena)@[old(arena).walk(at as int, index as nat)], val),
                )
                &&& final(arena).values(at as int) == old(arena).values(at as int).update(
                    index as int,
                    val,
                )
                &&& final(arena).back(at as int) == old(arena).back(at as int)
            },
    {
        let mut cur = at;
        let mut k = index;
        loop
            invariant
                *arena == *old(arena),
                arena.wf(),
                arena.holds(at as int),
                k <= index,
                index - k <= arena.values(at as int).len(),
                cur == arena.walk(at as int, (index - k) as nat),
            decreases k,
        {
            proof {
                arena.lemma_walk(at as int, (index - k) as nat);
                assert(arena.link_ok(cur as int));
            }
            match arena.nodes[cur] {
                Node::Cons(_, n) => {
                    assert(arena.values(cur as int).len() == 1 + arena.values(n as int).len());
                    if k == 0 {
                        arena.nodes[cur] = Node::Cons(val, n);
                        proof {
                            Self::lemma_rewrite_value(arena, old(arena), at as int, index as nat, val);
                        }
                        return;
                    }
                    cur = n;
                    k -= 1;
                },
                Node::Nil(_) => {
                    return;
                },
            }
        }
    }

    proof fn lemma_rewrite_value(new: &Arena<T>, old: &Arena<T>, at: int, index: nat, val: T)
        requires
            old.wf(),
            old.holds(at),
            index < old.values(at).len(),
            new.rank@ == old.rank@,
            new.nodes@ == old@.update(old.walk(at, index), with_value(old@[old.walk(at, index)], val)),
        ensures
            new.wf(),
            new.values(at) == old.values(at).update(index as int, val),
            new.back(at) == old.back(at),
    {
        let c = old.walk(at, index);
        old.lemma_walk(at, index);
        old.lemma_chain(at);
        assert(old.link_ok(c));
        assert forall|i: int| 0 <= i < new.nodes@.len() implies #[trigger] new.link_ok(i) by {
            assert(old.link_ok(i));
        }
        if let Node::Cons(v, n) = old@[c] {
            let m = n as int;
            Arena::lemma_frame_below(new, old, c, m);
            Arena::lemma_frame_along(new, old, c, at, index);
            assert(new.link_ok(c));
            assert(new.values(c) == seq![val] + new.values(m));
            assert(old.values(c) == seq![v] + old.values(m));
            assert(old.values(at) =~= old.values(at).take(index as int) + old.values(c));
            assert(new.values(at) =~= old.values(at).update(index as int, val));
            old.lemma_chain(m);
            assert(new.terminal(c) == new.terminal(m));
            assert(old.terminal(c) == old.terminal(m));
        }
    }

    /// Removes the cell at `index` (at least 1) from the chain from `at` by linking
    /// the cell before it past it. The chain is left open. An index at or past the
    /// length changes nothing. Index 0 cannot be removed here: the chain's first
    /// slot is its name, which only [`Node::del`] can move.
    pub fn delete_from_tail(arena: &mut Arena<T>, at: usize, index: u32)
        requires
            old(arena).wf(),
            old(arena).holds(at as int),
            index >= 1,
        ensures
            final(arena).wf(),
            final(arena)@.len() == old(arena)@.len(),
            index >= old(arena).values(at as int).len() ==> *final(arena) == *old(arena),
            index < old(arena).values(at as int).len() ==> {
                &&& final(arena)@ == old(arena)@.update(
                    old(arena).walk(at as int, (index - 1) as nat),
                    Node::Cons(
                        old(arena).values(at as int)[index - 1],
                        old(arena)@[old(arena).walk(at as int, index as nat)]->Cons_1,
                    ),
                ).update(old(arena).terminal(at as int), Node::Nil(None))
                &&& final(arena).values(at as int) == old(arena).values(at as int).remove(
                    index as int,
                )
                &&& final(arena).back(at as int) == None::<usize>
            },
    {
        let mut cur = at;
        let mut k = index - 1;
        loop
            invariant
                *arena == *old(arena),
                arena.wf(),
                arena.holds(at as int),
                index >= 1,
                k <= index - 1,
                index - 1 - k <= arena.values(at as int).len(),
                cur == arena.walk(at as int, (index - 1 - k) as nat),
            decreases k,
        {
            proof {
                arena.lemma_walk(at as int, (index - 1 - k) as nat);
                assert(arena.link_ok(cur as int));
            }
            match arena.nodes[cur] {
                Node::Cons(w, d) => {
                    assert(arena.values(cur as int).len() == 1 + arena.values(d as int).len());
                    if k == 0 {
                        proof {
                            assert(arena.link_ok(d as int));
                        }
                        match arena.nodes[d] {
                            Node::Cons(_, e) => {
                                assert(arena.values(d as int).len() == 1 + arena.values(e as int).len());
                                arena.nodes[cur] = Node::Cons(w, e);
                                proof {
                                    Self::lemma_splice(arena, old(arena), at as int, (index - 1) as nat);
                                }
                                let ghost mid = *arena;
                                Self::set_back(arena, at, None);
                                proof {
                                    mid.lemma_chain(at as int);
                                    old(arena).lemma_walk(at as int, index as nat);
                                }
                                return;
                            },
                            Node::Nil(_) => {
                                return;
                            },
                        }
                    }
                    cur = d;
                    k -= 1;
                },
                Node::Nil(_) => {
                    return;
                },
            }
        }
    }

    proof fn lemma_splice(new: &Arena<T>, old: &Arena<T>, at: int, j: nat)
        requires
            old.wf(),
            old.holds(at),
            j + 1 < old.values(at).len(),
            new.rank@ == old.rank@,
            old@[old.walk(at, j)] is Cons,
            old@[old.walk(at, j + 1)] is Cons,
            new.nodes@ == old@.update(
                old.walk(at, j),
                Node::Cons(old.values(at)[j as int], old@[old.walk(at, j + 1)]->Cons_1),
            ),
        ensures
            new.wf(),
            new.values(at) == old.values(at).remove(j + 1int),
            new.terminal(at) == old.terminal(at),
    {
        let c = old.walk(at, j);
        old.lemma_walk(at, j);
        old.lemma_walk(at, j + 1);
        let d = old.walk(at, j + 1);
        assert(old.link_ok(c));
        assert(old.link_ok(d));
        assert forall|i: int| 0 <= i < new.nodes@.len() implies #[trigger] new.link_ok(i) by {
            assert(old.link_ok(i));
        }
        if let Node::Cons(x, n) = old@[d] {
            let e = n as int;
            let w = old.values(at)[j as int];
            Arena::lemma_frame_below(new, old, c, e);
            Arena::lemma_frame_along(new, old, c, at, j);
            assert(new.link_ok(c));
            assert(new.values(c) == seq![w] + new.values(e));
            assert(old.values(c) == seq![w] + old.values(d));
            assert(old.values(d) == seq![x] + old.values(e));
            assert(old.values(at) =~= old.values(at).take(j as int) + old.values(c));
            assert(new.values(at) =~= old.values(at).remove(j + 1int));
            assert(new.terminal(c) == new.terminal(e));
            assert(old.terminal(d) == old.terminal(e));
        }
    }

    /// Removes the value at `index` from the chain that `ref_list` names. Index 0
    /// moves `ref_list` itself on to the second slot, so other names of the old first
    /// slot still read the chain as it was; any other index unlinks a cell in place.
    /// Either way a removal leaves the chain open, and an index at or past the
    /// length changes nothing.
    pub fn del(arena: &mut Arena<T>, ref_list: &mut usize, index: u32)
        requires
            old(arena).wf(),
            old(arena).holds(*old(ref_list) as int),
        ensures
            final(arena).wf(),
            final(arena).holds(*final(ref_list) as int),
            final(arena)@.len() == old(arena)@.len(),
            index >= old(arena).values(*old(ref_list) as int).len() ==> {
                &&& *final(arena) == *old(arena)
                &&& *final(ref_list) == *old(ref_list)
            },
            index < old(arena).values(*old(ref_list) as int).len() ==> {
                &&& final(arena).values(*final(ref_list) as int) == old(arena).values(
                    *old(ref_list) as int,
                ).remove(index as int)
                &&& final(arena).back(*final(ref_list) as int) == None::<usize>
            },
            index == 0 ==> final(arena).values(*old(ref_list) as int) == old(arena).values(
                *old(ref_list) as int,
            ),
            index == 0 && old(arena).values(*old(ref_list) as int).len() > 0 ==> {
                &&& final(arena)@ == old(arena)@.update(
                    old(arena).terminal(*old(ref_list) as int),
                    Node::Nil(None),
                )
                &&& old(arena)@[*old(ref_list) as int] == Node::Cons(
                    old(arena).values(*old(ref_list) as int)[0],
                    *final(ref_list),
                )
            },
            index > 0 ==> *final(ref_list) == *old(ref_list),
    {
        if index == 0 {
            let head = *ref_list;
            proof {
                assert(arena.link_ok(head as int));
            }
            if let Node::Cons(_, next) = arena.nodes[head] {
                proof {
                    assert(arena.values(head as int) == seq![arena.values(head as int)[0]]
                        + arena.values(next as int));
                    assert(arena.terminal(head as int) == arena.terminal(next as int));
                    assert(arena.values(next as int) =~= arena.values(head as int).remove(0));
                    arena.lemma_chain(head as int);
                }
                Self::set_back(arena, head, None);
                proof {
                    assert(arena@.len() == old(arena)@.len());
                    assert(arena.values(next as int) == old(arena).values(next as int));
                    assert(old(arena).terminal(next as int) == old(arena).terminal(head as int));
                    assert(arena.back(next as int) == None::<usize>);
                }
                *ref_list = next;
            } else {
                proof {
                    assert(arena.values(head as int).len() == 0);
                }
            }
        } else {
            Self::delete_from_tail(arena, *ref_list, index);
        }
    }

    /// Empties the chain whose first slot is `at`: the slot becomes an open terminal.
    pub fn clear(arena: &mut Arena<T>, at: usize)
        requires
            old(arena).wf(),
            old(arena).holds(at as int),
        ensures
            final(arena).wf(),
            final(arena)@ == old(arena)@.update(at as int, Node::Nil(None)),
            final(arena)@.len() == old(arena)@.len(),
            final(arena).values(at as int) == Seq::<T>::empty(),
            final(arena).back(at as int) == None::<usize>,
    {
        arena.nodes[at] = Node::new();
        proof {
            assert forall|i: int| 0 <= i < arena.nodes@.len() implies #[trigger] arena.link_ok(i) by {
                assert(old(arena).link_ok(i));
            }
            assert(arena.terminal(at as int) == at as int);
        }
    }

    /// Adds `i` after the last cell of the chain from `at`. The old terminal becomes
    /// that cell and a fresh open terminal ends the chain, so a cycle is dropped.
    pub fn append(arena: &mut Arena<T>, at: usize, i: T)
        requires
            old(arena).wf(),
            old(arena).holds(at as int),
        ensures
            final(arena).wf(),
            final(arena)@ == old(arena)@.update(
                old(arena).terminal(at as int),
                Node::Cons(i, old(arena)@.len() as usize),
            ).push(Node::Nil(None)),
            final(arena)@.len() == old(arena)@.len() + 1,
            final(arena).values(at as int) == old(arena).values(at as int).push(i),
            final(arena).back(at as int) == None::<usize>,
            forall|h: int|
                old(arena).holds(h) && old(arena).terminal(h) != old(arena).terminal(at as int)
                    ==> #[trigger] final(arena).values(h) == old(arena).values(h),
    {
        let t = Self::find_terminal(arena, at);
        proof {
            arena.lemma_chain(at as int);
        }
        let e = arena.nodes.len();
        let ghost rank0 = arena.rank@;
        arena.nodes.push(Node::new());
        let _ = arena.nodes.len();
        arena.rank = Ghost(Seq::new((e + 1) as nat, |j: int| if j == e { 0nat } else { rank0[j] + 1 }));
        arena.nodes[t] = Node::Cons(i, e);
        proof {
            assert forall|j: int| 0 <= j < arena.nodes@.len() implies #[trigger] arena.link_ok(j) by {
                if j < e && j != t {
                    assert(old(arena).link_ok(j));
                }
            }
            assert(arena@ =~= old(arena)@.update(t as int, Node::Cons(i, e)).push(Node::Nil(None)));
            Arena::lemma_extend_terminal(arena, old(arena), t as int, i, at as int);
            assert forall|h: int|
                old(arena).holds(h) && old(arena).terminal(h) != old(arena).terminal(at as int)
                    implies #[trigger] arena.values(h) == old(arena).values(h) by {
                Arena::lemma_extend_terminal(arena, old(arena), t as int, i, h);
            }
        }
    }

    /// The value at `index` of the chain from `at`, counting from 0. Past the last
    /// cell, reading goes on at the terminal's back-reference when there is one,
    /// so a closed chain yields values for every index.
    pub fn get(arena: &Arena<T>, at: usize, index: u32) -> (r: Option<T>)
        requires
            arena.wf(),
            arena.holds(at as int),
        ensures
            r == arena.item(at as int, index as nat),
    {
        if let Node::Nil(_) = arena.nodes[at] {
            return None;
        }
        let mut cur = at;
        let mut k = index;
        loop
            invariant
                arena.wf(),
                arena.holds(cur as int),
                arena.item(at as int, index as nat) == arena.read_on(cur as int, k as nat),
            decreases 2 * k + if arena@[cur as int] is Nil { 1int } else { 0int },
        {
            proof {
                assert(arena.link_ok(cur as int));
            }
            match arena.nodes[cur] {
                Node::Cons(v, next) => {
                    proof {
                        arena.lemma_item_step(cur as int, (k - 1) as nat);
                    }
                    if k == 0 {
                        return Some(v);
                    }
                    cur = next;
                    k -= 1;
                },
                Node::Nil(back) => {
                    match back {
                        None => {
                            return None;
                        },
                        Some(b) => {
                            if let Node::Nil(_) = arena.nodes[b] {
                                return None;
                            }
                            cur = b;
                        },
                    }
                },
            }
        }
    }
}

impl<T: Copy + PartialEq> Node<T> {
    /// Whether two chains hold equal values in the same order. Only cells are
    /// compared: whether either chain is closed into a cycle plays no part.
    pub fn equals(left: &Arena<T>, a: usize, right: &Arena<T>, b: usize) -> (r: bool)
        requires
            left.wf(),
            left.holds(a as int),
            right.wf(),
            right.holds(b as int),
            obeys_concrete_eq::<T>(),
        ensures
            r == (left.values(a as int) == right.values(b as int)),
    {
        proof {
            reveal(obeys_concrete_eq);
        }
        let mut x = a;
        let mut y = b;
        loop
            invariant
                left.wf(),
                right.wf(),
                left.holds(x as int),
                right.holds(y as int),
                obeys_concrete_eq::<T>(),
                (left.values(a as int) == right.values(b as int)) == (left.values(x as int)
                    == right.values(y as int)),
            decreases left.values(x as int).len(),
        {
            proof {
                assert(left.link_ok(x as int));
                assert(right.link_ok(y as int));
            }
            match left.nodes[x] {
                Node::Nil(_) => {
                    if let Node::Nil(_) = right.nodes[y] {
                        return true;
                    }
                    assert(right.values(y as int).len() > 0);
                    return false;
                },
                Node::Cons(v, xn) => {
                    match right.nodes[y] {
                        Node::Nil(_) => {
                            assert(left.values(x as int).len() > 0);
                            return false;
                        },
                        Node::Cons(w, yn) => {
                            let lx = Ghost(left.values(x as int));
                            let ry = Ghost(right.values(y as int));
                            assert(lx@ == seq![v] + left.values(xn as int));
                            assert(ry@ == seq![w] + right.values(yn as int));
                            assert(lx@.drop_first() =~= left.values(xn as int));
                            assert(ry@.drop_first() =~= right.values(yn as int));
                            let same = v == w;
                            proof {
                                reveal(obeys_concrete_eq);
                                assert(same == (v == w));
                            }
                            if !same {
                                assert(lx@[0] != ry@[0]);
                                return false;
                            }
                            assert((lx@ == ry@) == (left.values(xn as int) == right.values(
                                yn as int,
                            ))) by {
                                if left.values(xn as int) == right.values(yn as int) {
                                    assert(lx@ =~= ry@);
                                }
                            }
                            x = xn;
                            y = yn;
                        },
                    }
                },
            }
        }
    }
}

impl Node<i32> {
    /// The text of the chain from `at`: each value followed by a comma, then a
    /// glyph that tells an open end from a cyclic one.
    pub fn render(arena: &Arena<i32>, at: usize) -> (r: String)
        requires
            arena.wf(),
            arena.holds(at as int),
        ensures
            r@ == rendering(arena.values(at as int), arena.closed(at as int)),
    {
        let mut text = String::new();
        let mut cur = at;
        loop
            invariant
                arena.wf(),
                arena.holds(cur as int),
                arena.holds(at as int),
                cells_text(arena.values(at as int)) == text@ + cells_text(arena.values(cur as int)),
                arena.terminal(cur as int) == arena.terminal(at as int),
                cur != at ==> arena.values(at as int).len() > 0,
                cur == at || arena@[at as int] is Cons,
            decreases arena.values(cur as int).len(),
        {
            proof {
                assert(arena.link_ok(cur as int));
            }
            match arena.nodes[cur] {
                Node::Cons(v, next) => {
                    let vals = Ghost(arena.values(cur as int));
                    assert(vals@ == seq![v] + arena.values(next as int));
                    assert(vals@.drop_first() =~= arena.values(next as int));
                    let digits = decimal_text(v);
                    let ghost before = text@;
                    text.append(digits.as_str());
                    text.append(",");
                    proof {
                        reveal_strlit(",");
                        assert(text@ + cells_text(arena.values(next as int)) =~= before
                            + cells_text(vals@));
                    }
                    cur = next;
                },
                Node::Nil(back) => {
                    let mut closed = false;
                    if let Node::Cons(_, _) = arena.nodes[at] {
                        if let Some(b) = back {
                            if let Node::Cons(_, _) = arena.nodes[b] {
                                closed = true;
                            }
                        }
                    }
                    proof {
                        Self::lemma_closed(arena, at as int, cur as int);
                    }
                    if closed {
                        text.append("\u{27F2}");
                        proof {
                            reveal_strlit("\u{27F2}");
                        }
                    } else {
                        text.append("\u{23DA}");
                        proof {
                            reveal_strlit("\u{23DA}");
                        }
                    }
                    proof {
                        assert(arena.values(cur as int) == Seq::<i32>::empty());
                        assert(text@ =~= rendering(arena.values(at as int), arena.closed(at as int)));
                    }
                    return text;
                },
            }
        }
    }

    proof fn lemma_closed(arena: &Arena<i32>, at: int, t: int)
        requires
            arena.wf(),
            arena.holds(at),
            t == arena.terminal(at),
        ensures
            arena.closed(at) <==> {
                &&& arena@[at] is Cons
                &&& arena.back(at) matches Some(b) && arena@[b as int] is Cons
            },
    {
        arena.lemma_chain(at);
        assert(arena.link_ok(at));
        let len = arena.values(at).len();
        if let Node::Cons(v, n) = arena@[at] {
            assert(arena.values(at) == seq![v] + arena.values(n as int));
            assert(len > 0);
        } else {
            assert(len == 0);
        }
        if let Some(b) = arena.back(at) {
            assert(arena.link_ok(b as int));
            if let Node::Cons(v, n) = arena@[b as int] {
                assert(arena.values(b as int) == seq![v] + arena.values(n as int));
                assert(arena.item(b as int, 0) is Some);
            } else {
                assert(arena.values(b as int).len() == 0);
                assert(arena.item(b as int, 0) is None);
            }
            if len > 0 {
                assert(arena.item(at, len) == arena.item(b as int, 0));
            }
        }
    }
}

} // verus!
