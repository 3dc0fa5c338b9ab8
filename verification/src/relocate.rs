//! Moving one object from the retired semispace to the active one.

use vstd::prelude::*;
use crate::arena::{forward, lemma_objects_apart, lemma_reference};
use crate::cycle::{Cycle, pending, lemma_pending_stamp};
use crate::value::{Value, FORWARDED, MAX_WORDS, TAG_MASK};

verus! {

/// What relocating `v` needs of the two semispaces. A reference must lead to
/// two words inside the retired one. Where the first is not the forwarding
/// mark it is a header whose object lies inside the retired semispace, and
/// with the object added the active semispace holds no more words than the
/// retired one, which holds no more than a semispace may.
pub open spec fn relocatable(to: Seq<Value>, from: Seq<Value>, v: Value) -> bool {
    v.immediate() || {
        let a = v.address();
        &&& a + 1 < from.len()
        &&& from[a].contents != FORWARDED ==> {
            &&& a + from[a].words() <= from.len()
            &&& to.len() + from[a].words() <= from.len()
            &&& from.len() <= MAX_WORDS
        }
    }
}

/// The two semispaces and the value after `v` has been relocated.
///
/// An immediate changes nothing. A reference to an object that bears the
/// forwarding mark changes nothing either; it takes the offset of the
/// reference stored behind the mark and keeps its own tag. Any other
/// reference appends the object's words to the active semispace, stamps the
/// mark and the new reference on the old object, and becomes that new
/// reference, which keeps the tag of `v`.
pub open spec fn relocated(to: Seq<Value>, from: Seq<Value>, v: Value) -> (
    Seq<Value>,
    Seq<Value>,
    Value,
) {
    if v.immediate() {
        (to, from, v)
    } else {
        let a = v.address();
        if from[a].contents == FORWARDED {
            (to, from, Value::reference(from[a + 1].address(), v.tag_bits()))
        } else {
            let moved = Value::reference(to.len() as int, v.tag_bits());
            (
                to + from.subrange(a, a + from[a].words()),
                from.update(a, Value { contents: FORWARDED }).update(a + 1, moved),
                moved,
            )
        }
    }
}

/// Relocates one value during a collection cycle and returns what replaces
/// it. The object is copied in full before the forwarding mark is stamped on
/// its old header.
pub fn relocate(current: Value, tospace: &mut Vec<Value>, fromspace: &mut Vec<Value>) -> (moved:
    Value)
    requires
        relocatable(old(tospace)@, old(fromspace)@, current),
    ensures
        final(tospace)@ == relocated(old(tospace)@, old(fromspace)@, current).0,
        final(fromspace)@ == relocated(old(tospace)@, old(fromspace)@, current).1,
        moved == relocated(old(tospace)@, old(fromspace)@, current).2,
{
    if current.is_immediate() {
        return current;
    }
    let pointer: usize = current.offset();
    let header = fromspace[pointer];
    if header.is_forwarded() {
        return fromspace[pointer + 1].with_tag_of(current);
    }
    let amount_to_copy: usize = header.header_words();
    let end: usize = tospace.len();
    let mut copied: usize = 0;
    while copied < amount_to_copy
        invariant
            copied <= amount_to_copy,
            pointer + amount_to_copy <= fromspace.len(),
            fromspace@ == old(fromspace)@,
            tospace@ == old(tospace)@ + fromspace@.subrange(
                pointer as int,
                pointer as int + copied as int,
            ),
        decreases amount_to_copy - copied,
    {
        tospace.push(fromspace[pointer + copied]);
        copied += 1;
    }
    let word: usize = current.contents;
    assert(word & 0b111 == word % 8) by (bit_vector);
    let moved = Value::pointer(end, word & TAG_MASK);
    fromspace[pointer] = Value { contents: FORWARDED };
    fromspace[pointer + 1] = moved;
    moved
}

/// A step of the cycle that moves an object: `v` is a reference that the
/// collector may be handed, and the object it leads to has not moved.
pub open spec fn moving(c: Cycle, to: Seq<Value>, from: Seq<Value>, done: int, v: Value) -> bool {
    &&& c.inv(to, from, done)
    &&& c.admits(v)
    &&& !v.immediate()
    &&& from[v.address()].contents != FORWARDED
}

/// What a moving step finds: the object is one of the source's, it has not
/// moved, and its words are the ones it had when the cycle began.
proof fn lemma_moving_facts(c: Cycle, to: Seq<Value>, from: Seq<Value>, done: int, v: Value)
    requires
        moving(c, to, from, done, v),
    ensures
        c.source.objects.contains(v.address()),
        !c.fwd.dom().contains(v.address()),
        !c.org.dom().contains(to.len() as int),
        from[v.address()] == c.source.words[v.address()],
        c.source.words[v.address()].kind() == v.tag_bits(),
        v.address() + c.source.size(v.address()) <= from.len(),
        c.source.size(v.address()) >= 2,
        forall|k: int|
            0 <= k < c.source.size(v.address()) ==> from[v.address() + k]
                == #[trigger] c.source.field(v.address(), k),
        pending(from, c.source.words, 0) >= c.source.size(v.address()),
        to.len() + c.source.size(v.address()) <= from.len(),
        from.len() <= MAX_WORDS,
{
    let a = v.address();
    assert(c.source.field(a, 0) == c.source.words[a]);
    let after = from.update(a, Value { contents: FORWARDED });
    if c.source.len() > 0 {
        lemma_pending_stamp(c.source, from, after, a, 0);
    }
    if c.org.dom().contains(to.len() as int) {
        assert(c.target(to).objects.contains(to.len() as int));
    }
}

/// A moving step keeps the two maps inverse to each other.
proof fn lemma_move_paired(c: Cycle, to: Seq<Value>, from: Seq<Value>, done: int, v: Value)
    requires
        moving(c, to, from, done, v),
    ensures
        c.step(to, from, v).paired(),
{
    lemma_moving_facts(c, to, from, done, v);
    let c2 = c.step(to, from, v);
    assert forall|x: int| #[trigger] c2.fwd.dom().contains(x) implies c2.source.objects.contains(x)
        && c2.org.dom().contains(c2.fwd[x]) && c2.org[c2.fwd[x]] == x by {}
    assert forall|y: int| #[trigger] c2.org.dom().contains(y) implies c2.fwd.dom().contains(
        c2.org[y],
    ) && c2.fwd[c2.org[y]] == y by {}
}

/// A moving step keeps the target tiled: the copy lies at its end.
proof fn lemma_move_tiled(c: Cycle, to: Seq<Value>, from: Seq<Value>, done: int, v: Value)
    requires
        moving(c, to, from, done, v),
    ensures
        c.step(to, from, v).target(relocated(to, from, v).0).tiled(),
{
    lemma_moving_facts(c, to, from, done, v);
    let b = to.len() as int;
    let old_t = c.target(to);
    let t = c.step(to, from, v).target(relocated(to, from, v).0);
    assert forall|x: int| #[trigger] t.objects.contains(x) implies 0 <= x < t.len()
        && t.words[x].legal_header() && x + t.size(x) <= t.len() by {}
    assert forall|x: int|
        t.objects.contains(x) && x + t.size(x) < t.len() implies t.objects.contains(
        #[trigger] t.end(x),
    ) by {
        if x != b && x + old_t.size(x) < old_t.len() {
            assert(old_t.objects.contains(old_t.end(x)));
        }
    }
    assert forall|x: int, y: int| #[trigger]
        t.objects.contains(x) && #[trigger] t.objects.contains(y) && x < y implies x + t.size(x)
        <= y by {}
}

/// A moving step stamps the moved object and touches no other.
proof fn lemma_move_stamped(c: Cycle, to: Seq<Value>, from: Seq<Value>, done: int, v: Value)
    requires
        moving(c, to, from, done, v),
    ensures
        c.step(to, from, v).stamped(relocated(to, from, v).1),
{
    lemma_moving_facts(c, to, from, done, v);
    let a = v.address();
    let c2 = c.step(to, from, v);
    let from2 = relocated(to, from, v).1;
    assert forall|x: int| #[trigger] c2.fwd.dom().contains(x) implies from2[x].contents
        == FORWARDED && from2[x + 1] == Value::reference(c2.fwd[x], c2.source.words[x].kind()) by {
        if x != a {
            lemma_objects_apart(c.source, a, x);
        }
    }
    assert forall|x: int, k: int|
        c2.source.objects.contains(x) && !c2.fwd.dom().contains(x) && 0 <= k < c2.source.size(
            x,
        ) implies from2[x + k] == #[trigger] c2.source.field(x, k) by {
        lemma_objects_apart(c.source, a, x);
    }
}

/// A moving step keeps what each payload word of the target holds; the
/// words of the copy are those of the moved object.
proof fn lemma_move_slots(c: Cycle, to: Seq<Value>, from: Seq<Value>, done: int, v: Value)
    requires
        moving(c, to, from, done, v),
    ensures
        c.step(to, from, v).copied(relocated(to, from, v).0),
        c.step(to, from, v).slots(relocated(to, from, v).0, done),
{
    lemma_moving_facts(c, to, from, done, v);
    let b = to.len() as int;
    let c2 = c.step(to, from, v);
    let to2 = relocated(to, from, v).0;
    assert forall|y: int| #[trigger] c2.org.dom().contains(y) implies to2[y]
        == c2.source.words[c2.org[y]] by {}
    assert forall|y: int, k: int|
        c2.org.dom().contains(y) && 1 <= k < to2[y].words() implies #[trigger] c2.slot(
        to2,
        done,
        y,
        k,
    ) by {
        if y != b {
            assert(c.slot(to, done, y, k));
        }
    }
}

/// A moving step takes the words of the moved object, and no others, out of
/// the pending ones.
proof fn lemma_move_pending(c: Cycle, to: Seq<Value>, from: Seq<Value>, done: int, v: Value)
    requires
        moving(c, to, from, done, v),
    ensures
        relocated(to, from, v).0.len() + pending(relocated(to, from, v).1, c.source.words, 0)
            == c.source.len(),
{
    lemma_moving_facts(c, to, from, done, v);
    let a = v.address();
    let from2 = relocated(to, from, v).1;
    assert forall|p: int| #[trigger] c.source.objects.contains(p) && p != a implies from2[p]
        == from[p] by {
        lemma_objects_apart(c.source, a, p);
    }
    lemma_pending_stamp(c.source, from, from2, a, 0);
}

/// Relocating a value that the collector may be handed keeps the cycle's
/// invariant, and the value that comes back is the forwarded one.
pub proof fn lemma_relocate(c: Cycle, to: Seq<Value>, from: Seq<Value>, done: int, v: Value)
    requires
        c.inv(to, from, done),
        c.admits(v),
    ensures
        relocatable(to, from, v),
        c.step(to, from, v).inv(relocated(to, from, v).0, relocated(to, from, v).1, done),
        c.extends(c.step(to, from, v)),
        v.immediate() || c.step(to, from, v).fwd.dom().contains(v.address()),
        relocated(to, from, v).2 == forward(c.step(to, from, v).fwd, v),
        to.len() <= relocated(to, from, v).0.len(),
        forall|i: int| 0 <= i < to.len() ==> relocated(to, from, v).0[i] == to[i],
{
    if !v.immediate() {
        let a = v.address();
        if from[a].contents == FORWARDED {
            assert(c.source.field(a, 0) == c.source.words[a]);
            assert(c.target(to).objects.contains(c.fwd[a]));
            lemma_reference(c.fwd[a], c.source.words[a].kind());
        } else {
            lemma_moving_facts(c, to, from, done, v);
            lemma_move_paired(c, to, from, done, v);
            lemma_move_tiled(c, to, from, done, v);
            lemma_move_stamped(c, to, from, done, v);
            lemma_move_slots(c, to, from, done, v);
            lemma_move_pending(c, to, from, done, v);
            lemma_reference(to.len() as int, v.tag_bits());
            let c2 = c.step(to, from, v);
            assert forall|x: int| #[trigger] c2.fwd.dom().contains(x) implies c2.source.reachable(
                c2.roots,
                x,
            ) by {}
        }
    }
}

} // verus!
