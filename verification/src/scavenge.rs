//! The two passes of a collection cycle: over the roots, then over the
//! objects that have been copied.

use vstd::prelude::*;
use crate::arena::{
    forward,
    forward_all,
    lemma_edge_reachable,
    lemma_objects_apart,
    lemma_root_reachable,
};
use crate::cycle::{Cycle, lemma_extends_twice};
use crate::relocate::{relocatable, relocate, relocated, lemma_relocate};
use crate::value::Value;

verus! {

/// The two semispaces and the stack after the roots from index `i` on have
/// been relocated, in order, each in its place.
pub open spec fn roots_pass(to: Seq<Value>, from: Seq<Value>, stack: Seq<Value>, i: int) -> (
    Seq<Value>,
    Seq<Value>,
    Seq<Value>,
)
    decreases stack.len() - i,
{
    if 0 <= i < stack.len() {
        let r = relocated(to, from, stack[i]);
        roots_pass(r.0, r.1, stack.update(i, r.2), i + 1)
    } else {
        (to, from, stack)
    }
}

/// The two semispaces after the walk over the active one has gone on from
/// payload word `k` of the object at `scan` to the end. The walk relocates
/// each payload word of each object that is not a leaf, in its place, and
/// passes over leaves. It stops early only where the words are not those of
/// a collection cycle: where an object runs past the end, or a payload word
/// cannot be relocated.
pub open spec fn heap_pass(to: Seq<Value>, from: Seq<Value>, scan: int, k: int) -> (
    Seq<Value>,
    Seq<Value>,
)
    decreases from.len() - to.len(), to.len() - scan, to[scan].words() - k,
{
    if 0 <= scan < to.len() && scan + to[scan].words() <= to.len() && to.len() <= from.len() && 1
        <= k {
        if to[scan].leaf() || k >= to[scan].words() {
            heap_pass(to, from, scan + to[scan].words(), 1)
        } else if relocatable(to, from, to[scan + k]) {
            let r = relocated(to, from, to[scan + k]);
            heap_pass(r.0.update(scan + k, r.2), r.1, scan, k + 1)
        } else {
            (to, from)
        }
    } else {
        (to, from)
    }
}

/// The words of the active semispace and the stack after a collection, given
/// the words of the active semispace and the stack before it: the roots are
/// relocated into an empty semispace, then the walk runs over what they
/// brought.
pub open spec fn collected(words: Seq<Value>, stack: Seq<Value>) -> (Seq<Value>, Seq<Value>) {
    let r = roots_pass(Seq::empty(), words, stack, 0);
    (heap_pass(r.0, r.1, 0, 1).0, r.2)
}

/// Moving the mark `done` past words that hold nothing to forward keeps the
/// invariant: past the header of the object at `scan`, and past the whole
/// object where it is a leaf.
proof fn lemma_advance(c: Cycle, to: Seq<Value>, from: Seq<Value>, scan: int)
    requires
        c.inv(to, from, scan),
        c.org.dom().contains(scan),
    ensures
        !to[scan].leaf() ==> c.inv(to, from, scan + 1),
        to[scan].leaf() ==> c.inv(to, from, scan + to[scan].words()),
{
    let t = c.target(to);
    assert(t.objects.contains(scan));
    let next = if to[scan].leaf() {
        scan + to[scan].words()
    } else {
        scan + 1
    };
    assert forall|b: int, k: int|
        c.org.dom().contains(b) && 1 <= k < to[b].words() implies #[trigger] c.slot(
        to,
        next,
        b,
        k,
    ) by {
        assert(c.slot(to, scan, b, k));
        if b != scan {
            lemma_objects_apart(t, b, scan);
        }
    }
}

/// A payload word that has not been looked at yet is the word of the source
/// object, and the collector may be handed it.
proof fn lemma_field_admitted(c: Cycle, to: Seq<Value>, from: Seq<Value>, done: int, b: int, k: int)
    requires
        c.inv(to, from, done),
        c.org.dom().contains(b),
        !to[b].leaf(),
        1 <= k < to[b].words(),
        b + k >= done,
    ensures
        to[b + k] == c.source.field(c.org[b], k),
        c.admits(to[b + k]),
{
    let a = c.org[b];
    let w = c.source.field(a, k);
    assert(c.slot(to, done, b, k));
    if !w.immediate() {
        lemma_edge_reachable(c.source, c.roots, a, w.address());
    }
}

/// Storing the forwarded value in the payload word at the mark `done`, and
/// moving the mark past it, keeps the invariant.
proof fn lemma_store(c: Cycle, to: Seq<Value>, from: Seq<Value>, b: int, k: int, moved: Value)
    requires
        c.inv(to, from, b + k),
        c.org.dom().contains(b),
        !to[b].leaf(),
        1 <= k < to[b].words(),
        c.source.field(c.org[b], k).immediate() || c.fwd.dom().contains(
            c.source.field(c.org[b], k).address(),
        ),
        moved == forward(c.fwd, c.source.field(c.org[b], k)),
    ensures
        c.inv(to.update(b + k, moved), from, b + k + 1),
{
    let t = c.target(to);
    let to2 = to.update(b + k, moved);
    let t2 = c.target(to2);
    assert(t.objects.contains(b));
    assert forall|x: int| #[trigger] t2.objects.contains(x) implies to2[x] == to[x] by {
        if x != b {
            lemma_objects_apart(t, b, x);
        }
    }
    assert forall|x: int|
        t2.objects.contains(x) && x + t2.size(x) < t2.len() implies t2.objects.contains(
        #[trigger] t2.end(x),
    ) by {
        assert(t.objects.contains(t.end(x)));
    }
    assert forall|y: int, j: int|
        c.org.dom().contains(y) && 1 <= j < to2[y].words() implies #[trigger] c.slot(
        to2,
        b + k + 1,
        y,
        j,
    ) by {
        assert(c.slot(to, b + k, y, j));
        if y != b {
            lemma_objects_apart(t, b, y);
        }
    }
}

/// Handles all of the data on the stack: relocates every root, in place and
/// in order.
pub fn scavange_stack(
    stack: &mut Vec<Value>,
    tospace: &mut Vec<Value>,
    fromspace: &mut Vec<Value>,
    Ghost(c): Ghost<Cycle>,
) -> (after: Ghost<Cycle>)
    requires
        c.inv(old(tospace)@, old(fromspace)@, 0),
        old(stack)@ == c.roots,
    ensures
        final(tospace)@ == roots_pass(old(tospace)@, old(fromspace)@, old(stack)@, 0).0,
        final(fromspace)@ == roots_pass(old(tospace)@, old(fromspace)@, old(stack)@, 0).1,
        final(stack)@ == roots_pass(old(tospace)@, old(fromspace)@, old(stack)@, 0).2,
        after@.inv(final(tospace)@, final(fromspace)@, 0),
        c.extends(after@),
        final(stack)@ == forward_all(after@.fwd, c.roots),
        forall|i: int|
            0 <= i < c.roots.len() ==> (#[trigger] c.roots[i]).immediate()
                || after@.fwd.dom().contains(c.roots[i].address()),
{
    let ghost mut cur = c;
    let n: usize = stack.len();
    let mut i: usize = 0;
    while i < n
        invariant
            i <= n,
            n == stack@.len(),
            n == c.roots.len(),
            cur.inv(tospace@, fromspace@, 0),
            c.extends(cur),
            roots_pass(old(tospace)@, old(fromspace)@, old(stack)@, 0) == roots_pass(
                tospace@,
                fromspace@,
                stack@,
                i as int,
            ),
            forall|j: int| i <= j < n ==> stack@[j] == c.roots[j],
            forall|j: int|
                0 <= j < i ==> stack@[j] == forward(cur.fwd, #[trigger] c.roots[j]) && (
                c.roots[j].immediate() || cur.fwd.dom().contains(c.roots[j].address())),
        decreases n - i,
    {
        let root = stack[i];
        proof {
            if !root.immediate() {
                lemma_root_reachable(cur.source, cur.roots, i as int);
            }
            let ghost before = cur;
            lemma_relocate(cur, tospace@, fromspace@, 0, root);
            cur = cur.step(tospace@, fromspace@, root);
            lemma_extends_twice(c, before, cur);
        }
        let moved = relocate(root, tospace, fromspace);
        stack[i] = moved;
        i += 1;
    }
    Ghost(cur)
}

/// Process the heap: walks the active semispace from its first word,
/// relocating the payload of each object that is not a leaf, until the walk
/// reaches the end, which the relocations keep pushing back.
pub fn scavange_heap(
    tospace: &mut Vec<Value>,
    fromspace: &mut Vec<Value>,
    Ghost(c): Ghost<Cycle>,
) -> (after: Ghost<Cycle>)
    requires
        c.inv(old(tospace)@, old(fromspace)@, 0),
    ensures
        final(tospace)@ == heap_pass(old(tospace)@, old(fromspace)@, 0, 1).0,
        final(fromspace)@ == heap_pass(old(tospace)@, old(fromspace)@, 0, 1).1,
        after@.inv(final(tospace)@, final(fromspace)@, final(tospace)@.len() as int),
        c.extends(after@),
{
    let ghost mut cur = c;
    let mut offset: usize = 0;
    while offset < tospace.len()
        invariant
            offset <= tospace@.len(),
            cur.inv(tospace@, fromspace@, offset as int),
            c.extends(cur),
            offset == tospace@.len() || cur.org.dom().contains(offset as int),
            heap_pass(old(tospace)@, old(fromspace)@, 0, 1) == heap_pass(
                tospace@,
                fromspace@,
                offset as int,
                1,
            ),
        decreases cur.source.len() - offset,
    {
        let header = tospace[offset];
        let size: usize = header.header_words();
        proof {
            lemma_advance(cur, tospace@, fromspace@, offset as int);
        }
        if !header.leafp() {
            let mut k: usize = 1;
            while k < size
                invariant
                    1 <= k <= size,
                    size == header.words(),
                    !header.leaf(),
                    offset + size <= tospace@.len(),
                    tospace@[offset as int] == header,
                    cur.org.dom().contains(offset as int),
                    cur.inv(tospace@, fromspace@, offset + k),
                    c.extends(cur),
                    heap_pass(old(tospace)@, old(fromspace)@, 0, 1) == heap_pass(
                        tospace@,
                        fromspace@,
                        offset as int,
                        k as int,
                    ),
                decreases size - k,
            {
                let child = tospace[offset + k];
                let ghost before = cur;
                proof {
                    lemma_field_admitted(
                        cur,
                        tospace@,
                        fromspace@,
                        offset + k,
                        offset as int,
                        k as int,
                    );
                    lemma_relocate(cur, tospace@, fromspace@, offset + k, child);
                    cur = cur.step(tospace@, fromspace@, child);
                    lemma_extends_twice(c, before, cur);
                }
                let moved = relocate(child, tospace, fromspace);
                proof {
                    lemma_store(cur, tospace@, fromspace@, offset as int, k as int, moved);
                }
                tospace[offset + k] = moved;
                k += 1;
            }
        }
        proof {
            let t = cur.target(tospace@);
            if offset + size < tospace@.len() {
                assert(t.objects.contains(t.end(offset as int)));
            }
        }
        offset += size;
    }
    Ghost(cur)
}

} // verus!
