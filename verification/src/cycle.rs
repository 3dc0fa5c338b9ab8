//! The state of one collection cycle, and what holds of it between any two
//! steps of the collector.
//!
//! A cycle starts with the retired semispace as it was (the source) and an
//! empty active semispace (the target). Each step moves one object of the
//! source to the end of the target and leaves a forwarding reference behind.
//! A [`Cycle`] records where each moved object went.

use vstd::prelude::*;
use crate::arena::{Arena, forward, refers, lemma_reference};
use crate::value::{Value, FORWARDED};

verus! {

/// The bookkeeping of a collection cycle.
pub struct Cycle {
    /// The retired semispace as it was when the cycle began.
    pub source: Arena,
    /// The roots as they were when the cycle began.
    pub roots: Seq<Value>,
    /// For each object moved so far, its offset in the target.
    pub fwd: Map<int, int>,
    /// For each object of the target, the offset in the source it came from.
    pub org: Map<int, int>,
}

/// The words of the source's objects, from offset `pos` on, that have not
/// moved yet: `from` is the retired semispace as it is now, `src` as it was
/// when the cycle began. An object that would run past the end of the source
/// ends the count.
pub open spec fn pending(from: Seq<Value>, src: Seq<Value>, pos: int) -> nat
    decreases src.len() - pos,
{
    if 0 <= pos < src.len() && pos + src[pos].words() <= src.len() {
        if from[pos].contents == FORWARDED {
            pending(from, src, pos + src[pos].words())
        } else {
            (src[pos].words() + pending(from, src, pos + src[pos].words())) as nat
        }
    } else {
        0
    }
}

impl Cycle {
    /// The bookkeeping at the start of a cycle: nothing has moved.
    pub open spec fn start(source: Arena, roots: Seq<Value>) -> Cycle {
        Cycle { source, roots, fwd: Map::empty(), org: Map::empty() }
    }

    /// The target semispace, given its words.
    pub open spec fn target(self, to: Seq<Value>) -> Arena {
        Arena { words: to, objects: self.org.dom() }
    }

    /// `fwd` and `org` are inverse to each other, between moved objects of
    /// the source and the objects of the target.
    pub open spec fn paired(self) -> bool {
        &&& forall|a: int| #[trigger]
            self.fwd.dom().contains(a) ==> self.source.objects.contains(a)
                && self.org.dom().contains(self.fwd[a]) && self.org[self.fwd[a]] == a
        &&& forall|b: int| #[trigger]
            self.org.dom().contains(b) ==> self.fwd.dom().contains(self.org[b])
                && self.fwd[self.org[b]] == b
    }

    /// A moved object of the source holds the forwarding mark and, after it,
    /// the reference to its copy; an object that has not moved is untouched.
    pub open spec fn stamped(self, from: Seq<Value>) -> bool {
        &&& forall|a: int| #[trigger]
            self.fwd.dom().contains(a) ==> from[a].contents == FORWARDED && from[a + 1]
                == Value::reference(self.fwd[a], self.source.words[a].kind())
        &&& forall|a: int, k: int|
            self.source.objects.contains(a) && !self.fwd.dom().contains(a) && 0 <= k
                < self.source.size(a) ==> from[a + k] == #[trigger] self.source.field(a, k)
    }

    /// Every object of the target has the header its source object had.
    pub open spec fn copied(self, to: Seq<Value>) -> bool {
        forall|b: int| #[trigger]
            self.org.dom().contains(b) ==> to[b] == self.source.words[self.org[b]]
    }

    /// What payload word `k` of the target object at `b` holds. In a leaf,
    /// and at or after offset `done`, it is the word of the source object.
    /// Before `done` it is that word forwarded, and the object that the word
    /// refers to has moved.
    pub open spec fn slot(self, to: Seq<Value>, done: int, b: int, k: int) -> bool {
        let w = self.source.field(self.org[b], k);
        if to[b].leaf() || b + k >= done {
            to[b + k] == w
        } else {
            (w.immediate() || self.fwd.dom().contains(w.address())) && to[b + k] == forward(
                self.fwd,
                w,
            )
        }
    }

    /// Every payload word of the target is as `slot` says.
    pub open spec fn slots(self, to: Seq<Value>, done: int) -> bool {
        forall|b: int, k: int|
            self.org.dom().contains(b) && 1 <= k < to[b].words() ==> #[trigger] self.slot(
                to,
                done,
                b,
                k,
            )
    }

    /// Only objects that the roots reach have moved.
    pub open spec fn justified(self) -> bool {
        forall|a: int| #[trigger]
            self.fwd.dom().contains(a) ==> self.source.reachable(self.roots, a)
    }

    /// What holds between any two steps of a cycle: `to` and `from` are the
    /// words of the target and of the source as they are now, and the payload
    /// words of the target before offset `done` have been forwarded.
    pub open spec fn inv(self, to: Seq<Value>, from: Seq<Value>, done: int) -> bool {
        &&& self.source.wf()
        &&& forall|i: int| 0 <= i < self.roots.len() ==> self.source.valid(#[trigger] self.roots[i])
        &&& from.len() == self.source.len()
        &&& 0 <= done <= to.len()
        &&& self.paired()
        &&& self.target(to).tiled()
        &&& self.stamped(from)
        &&& self.copied(to)
        &&& self.slots(to, done)
        &&& self.justified()
        &&& to.len() + pending(from, self.source.words, 0) == self.source.len()
    }

    /// Whether `later` is a later state of the same cycle: what had moved
    /// has stayed where it went.
    pub open spec fn extends(self, later: Cycle) -> bool {
        &&& later.source == self.source
        &&& later.roots == self.roots
        &&& self.fwd.submap_of(later.fwd)
    }

    /// Whether a value of the source may be handed to the collector: an
    /// immediate, or a valid reference to an object that the roots reach.
    pub open spec fn admits(self, v: Value) -> bool {
        self.source.valid(v) && (v.immediate() || self.source.reachable(self.roots, v.address()))
    }

    /// The bookkeeping after `v` has been relocated: a reference to an object
    /// that had not moved adds that object, at the end of the target.
    pub open spec fn step(self, to: Seq<Value>, from: Seq<Value>, v: Value) -> Cycle {
        if v.immediate() || from[v.address()].contents == FORWARDED {
            self
        } else {
            Cycle {
                fwd: self.fwd.insert(v.address(), to.len() as int),
                org: self.org.insert(to.len() as int, v.address()),
                ..self
            }
        }
    }
}

/// While nothing has moved, all words of the source are pending.
pub proof fn lemma_pending_all(s: Arena, pos: int)
    requires
        s.tiled(),
        s.objects.contains(pos) || pos == s.len(),
    ensures
        pending(s.words, s.words, pos) == s.len() - pos,
    decreases s.len() - pos,
{
    if pos < s.len() {
        let next = s.end(pos);
        lemma_pending_all(s, next);
    }
}

/// Stamping the forwarding mark on one object takes its words, and no
/// others, out of the pending ones.
pub proof fn lemma_pending_stamp(s: Arena, from: Seq<Value>, after: Seq<Value>, a: int, pos: int)
    requires
        s.tiled(),
        s.objects.contains(a),
        from[a].contents != FORWARDED,
        after[a].contents == FORWARDED,
        forall|p: int| #[trigger] s.objects.contains(p) && p != a ==> after[p] == from[p],
        s.objects.contains(pos) || pos == s.len(),
    ensures
        pending(after, s.words, pos) + (if pos <= a {
            s.size(a)
        } else {
            0
        }) == pending(from, s.words, pos),
    decreases s.len() - pos,
{
    if pos < s.len() {
        let next = s.end(pos);
        lemma_pending_stamp(s, from, after, a, next);
    }
}

/// A later state of a later state is a later state.
pub proof fn lemma_extends_twice(first: Cycle, second: Cycle, third: Cycle)
    requires
        first.extends(second),
        second.extends(third),
    ensures
        first.extends(third),
{
    assert forall|a: int| #[trigger] first.fwd.dom().contains(a) implies third.fwd.dom().contains(a)
        && first.fwd[a] == third.fwd[a] by {
        assert(second.fwd.dom().contains(a));
    }
}

/// A cycle may begin on any well-formed semispace with valid roots.
pub proof fn lemma_start(source: Arena, roots: Seq<Value>)
    requires
        source.wf(),
        forall|i: int| 0 <= i < roots.len() ==> source.valid(#[trigger] roots[i]),
    ensures
        Cycle::start(source, roots).inv(Seq::empty(), source.words, 0),
{
    lemma_pending_all(source, 0);
}

/// Once every payload word of the target has been forwarded, every stop on
/// a path through the source has moved.
proof fn lemma_path_moved(c: Cycle, to: Seq<Value>, from: Seq<Value>, p: Seq<int>, j: int)
    requires
        c.inv(to, from, to.len() as int),
        forall|i: int|
            0 <= i < c.roots.len() ==> (#[trigger] c.roots[i]).immediate() || c.fwd.dom().contains(
                c.roots[i].address(),
            ),
        c.source.path(c.roots, p),
        0 <= j < p.len(),
    ensures
        c.fwd.dom().contains(p[j]),
    decreases j,
{
    if j == 0 {
        let i = choose|i: int| 0 <= i < c.roots.len() && refers(#[trigger] c.roots[i], p[0]);
        assert(c.fwd.dom().contains(c.roots[i].address()));
    } else {
        lemma_path_moved(c, to, from, p, j - 1);
        assert(c.source.edge(p[j - 1], p[j]));
        let a = p[j - 1];
        let k = choose|k: int|
            1 <= k < c.source.size(a) && !c.source.words[a].leaf() && refers(
                #[trigger] c.source.field(a, k),
                p[j],
            );
        let b = c.fwd[a];
        assert(c.target(to).objects.contains(b));
        assert(c.slot(to, to.len() as int, b, k));
    }
}

/// At the end of a cycle the target is well formed, and it is the copy of
/// what the roots reached in the source.
pub proof fn lemma_finish(c: Cycle, to: Seq<Value>, from: Seq<Value>)
    requires
        c.inv(to, from, to.len() as int),
        forall|i: int|
            0 <= i < c.roots.len() ==> (#[trigger] c.roots[i]).immediate() || c.fwd.dom().contains(
                c.roots[i].address(),
            ),
    ensures
        c.target(to).wf(),
        c.target(to).copy_of(c.source, c.roots, c.fwd),
        forall|i: int|
            0 <= i < c.roots.len() ==> c.target(to).valid(forward(c.fwd, #[trigger] c.roots[i])),
        to.len() <= c.source.len(),
{
    let t = c.target(to);
    lemma_finish_closed(c, to, from);
    lemma_finish_copy(c, to, from);
    assert forall|i: int| 0 <= i < c.roots.len() implies t.valid(
        forward(c.fwd, #[trigger] c.roots[i]),
    ) by {
        lemma_forward_valid(c, to, from, c.roots[i]);
    }
}

/// A valid value of the source whose object has moved is, once forwarded, a
/// valid value of the target.
proof fn lemma_forward_valid(c: Cycle, to: Seq<Value>, from: Seq<Value>, w: Value)
    requires
        c.inv(to, from, to.len() as int),
        c.source.valid(w),
        w.immediate() || c.fwd.dom().contains(w.address()),
    ensures
        c.target(to).valid(forward(c.fwd, w)),
{
    if !w.immediate() {
        let b = c.fwd[w.address()];
        assert(c.target(to).objects.contains(b));
        lemma_reference(b, w.tag_bits());
    }
}

/// Once every payload word of the target has been forwarded, the target is
/// well formed.
proof fn lemma_finish_closed(c: Cycle, to: Seq<Value>, from: Seq<Value>)
    requires
        c.inv(to, from, to.len() as int),
    ensures
        c.target(to).wf(),
{
    let t = c.target(to);
    assert forall|b: int, k: int|
        t.objects.contains(b) && !t.words[b].leaf() && 1 <= k < t.size(b) implies t.valid(
        #[trigger] t.field(b, k),
    ) by {
        let a = c.org[b];
        let w = c.source.field(a, k);
        assert(c.slot(to, to.len() as int, b, k));
        lemma_forward_valid(c, to, from, w);
    }
}

/// Once the roots and every payload word of the target have been forwarded,
/// the target is the copy of what the roots reached.
proof fn lemma_finish_copy(c: Cycle, to: Seq<Value>, from: Seq<Value>)
    requires
        c.inv(to, from, to.len() as int),
        forall|i: int|
            0 <= i < c.roots.len() ==> (#[trigger] c.roots[i]).immediate() || c.fwd.dom().contains(
                c.roots[i].address(),
            ),
    ensures
        c.target(to).copy_of(c.source, c.roots, c.fwd),
{
    let t = c.target(to);
    assert forall|a: int| c.source.live(c.roots).contains(a) implies c.fwd.dom().contains(a) by {
        let p = choose|p: Seq<int>| #[trigger] c.source.path(c.roots, p) && p.last() == a;
        lemma_path_moved(c, to, from, p, p.len() - 1);
    }
    assert(c.fwd.dom() =~= c.source.live(c.roots));
    assert forall|x: int, y: int|
        x != y && c.fwd.dom().contains(x) && c.fwd.dom().contains(y) implies #[trigger] c.fwd[x]
        != #[trigger] c.fwd[y] by {}
    assert forall|b: int| t.objects.contains(b) implies c.fwd.values().contains(b) by {}
    assert(t.objects =~= c.fwd.values());
    assert forall|a: int, k: int|
        c.fwd.dom().contains(a) && 1 <= k < c.source.size(a) implies #[trigger] t.field(
        c.fwd[a],
        k,
    ) == (if c.source.words[a].leaf() {
        c.source.field(a, k)
    } else {
        forward(c.fwd, c.source.field(a, k))
    }) by {
        let b = c.fwd[a];
        assert(c.slot(to, to.len() as int, b, k));
    }
}

} // verus!
