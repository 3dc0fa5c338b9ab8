//! What a collection keeps and what it frees, stated over the model.

use vstd::prelude::*;
use crate::arena::{
    Arena,
    forward,
    forward_all,
    refers,
    rooted,
    lemma_reachable_object,
    lemma_reference,
    lemma_root_reachable,
    lemma_walk_meets,
    lemma_walk_stays,
};
use crate::heap::{Heap, Memory};
use crate::relocate::relocated;
use crate::value::{Value, FORWARDED, MAX_WORDS};

verus! {

/// A collection keeps the shape of what it keeps. A valid value whose object
/// the roots reach is, once forwarded, a valid value of the copy with the tag
/// it had, and its object has the number of words and the header it had.
pub proof fn law_shape_preserved(
    pre: Arena,
    post: Arena,
    roots: Seq<Value>,
    m: Map<int, int>,
    v: Value,
)
    requires
        pre.wf(),
        post.wf(),
        post.copy_of(pre, roots, m),
        pre.valid(v),
        v.immediate() || pre.reachable(roots, v.address()),
    ensures
        post.valid(forward(m, v)),
        forward(m, v).tag_bits() == v.tag_bits(),
        forward(m, v).immediate() == v.immediate(),
        post.size_of(forward(m, v)) == pre.size_of(v),
        !v.immediate() ==> post.words[forward(m, v).address()] == pre.words[v.address()],
{
    if !v.immediate() {
        let a = v.address();
        assert(m.dom().contains(a));
        assert(post.objects.contains(m[a]));
        lemma_reference(m[a], v.tag_bits());
    }
}

/// A collection keeps what the objects it keeps hold. Each payload word of a
/// reachable object that is not a leaf is, in the copy, the forwarded word,
/// and that word is a valid value of the copy; a leaf keeps its words.
pub proof fn law_fields_preserved(
    pre: Arena,
    post: Arena,
    roots: Seq<Value>,
    m: Map<int, int>,
    a: int,
    k: int,
)
    requires
        pre.wf(),
        post.wf(),
        forall|i: int| 0 <= i < roots.len() ==> pre.valid(#[trigger] roots[i]),
        post.copy_of(pre, roots, m),
        pre.reachable(roots, a),
        1 <= k < pre.size(a),
    ensures
        post.objects.contains(m[a]),
        post.size(m[a]) == pre.size(a),
        pre.words[a].leaf() ==> post.field(m[a], k) == pre.field(a, k),
        !pre.words[a].leaf() ==> post.field(m[a], k) == forward(m, pre.field(a, k)) && post.valid(
            post.field(m[a], k),
        ),
{
    assert(m.dom().contains(a));
}

/// Every stop on a chain of references is reachable.
pub proof fn lemma_stop_reachable(s: Arena, roots: Seq<Value>, p: Seq<int>, j: int)
    requires
        s.path(roots, p),
        0 <= j < p.len(),
    ensures
        s.reachable(roots, p[j]),
{
    let q = p.take(j + 1);
    assert(q[0] == p[0]);
    assert forall|i: int, k: int| 0 <= i && k == i + 1 && k < q.len() implies s.edge(
        #[trigger] q[i],
        #[trigger] q[k],
    ) by {
        assert(s.edge(p[i], p[k]));
    }
    assert(s.path(roots, q));
    assert(q.last() == p[j]);
}

/// The chain `p` as it lies after a collection: each stop at the offset that
/// `m` gives.
pub open spec fn moved_chain(m: Map<int, int>, p: Seq<int>) -> Seq<int> {
    Seq::new(p.len(), |j: int| m[p[j]])
}

/// A collection keeps every chain of references, however long. Where `p` is
/// a chain from the roots before the collection, the copies of its stops
/// form a chain from the forwarded roots, and each copy has the header, and
/// so the tag and the number of words, that the stop had.
pub proof fn law_chain_preserved(
    pre: Arena,
    post: Arena,
    roots: Seq<Value>,
    m: Map<int, int>,
    p: Seq<int>,
)
    requires
        pre.wf(),
        post.wf(),
        forall|i: int| 0 <= i < roots.len() ==> pre.valid(#[trigger] roots[i]),
        post.copy_of(pre, roots, m),
        pre.path(roots, p),
    ensures
        post.path(forward_all(m, roots), moved_chain(m, p)),
        forall|j: int|
            0 <= j < p.len() ==> post.objects.contains(#[trigger] moved_chain(m, p)[j])
                && post.words[moved_chain(m, p)[j]] == pre.words[p[j]],
{
    let q = moved_chain(m, p);
    let moved = forward_all(m, roots);
    assert forall|j: int| 0 <= j < p.len() implies m.dom().contains(p[j])
        && post.objects.contains(#[trigger] q[j]) && post.words[q[j]] == pre.words[p[j]] by {
        lemma_stop_reachable(pre, roots, p, j);
        assert(pre.live(roots).contains(p[j]));
        assert(m.values().contains(m[p[j]]));
    }
    assert(rooted(moved, q[0])) by {
        let i = choose|i: int| 0 <= i < roots.len() && refers(#[trigger] roots[i], p[0]);
        assert(post.objects.contains(q[0]));
        lemma_reference(m[p[0]], roots[i].tag_bits());
        assert(refers(moved[i], q[0]));
    }
    assert forall|i: int, j: int| 0 <= i && j == i + 1 && j < q.len() implies post.edge(
        #[trigger] q[i],
        #[trigger] q[j],
    ) by {
        assert(pre.edge(p[i], p[j]));
        let a = p[i];
        let k = choose|k: int|
            1 <= k < pre.size(a) && !pre.words[a].leaf() && refers(
                #[trigger] pre.field(a, k),
                p[j],
            );
        let w = pre.field(a, k);
        assert(post.objects.contains(q[j]));
        assert(post.words[q[i]] == pre.words[a]);
        assert(post.field(m[a], k) == forward(m, w));
        lemma_reference(m[p[j]], w.tag_bits());
        assert(refers(post.field(q[i], k), q[j]));
    }
}

/// Where no root is a reference, a collection leaves the active semispace
/// empty. This holds in particular after the last root has left the stack.
pub proof fn law_full_reclamation(pre: Arena, post: Arena, roots: Seq<Value>, m: Map<int, int>)
    requires
        post.tiled(),
        post.copy_of(pre, roots, m),
        forall|i: int| 0 <= i < roots.len() ==> (#[trigger] roots[i]).immediate(),
    ensures
        post.len() == 0,
{
    assert forall|a: int| !pre.reachable(roots, a) by {
        if pre.reachable(roots, a) {
            let p = choose|p: Seq<int>| #[trigger] pre.path(roots, p) && p.last() == a;
            let i = choose|i: int| 0 <= i < roots.len() && refers(#[trigger] roots[i], p[0]);
            assert(roots[i].immediate());
        }
    }
    if post.len() > 0 {
        assert(m.values().contains(0));
        let a = choose|a: int| m.dom().contains(a) && m[a] == 0;
        assert(pre.live(roots).contains(a));
    }
}

/// Nothing dangles. In a well-formed semispace every object that valid roots
/// reach lies inside the semispace and begins with a legal header, and each
/// payload word that the collector would follow is a valid value.
pub proof fn law_no_dangling(s: Arena, roots: Seq<Value>, a: int)
    requires
        s.wf(),
        forall|i: int| 0 <= i < roots.len() ==> s.valid(#[trigger] roots[i]),
        s.reachable(roots, a),
    ensures
        s.objects.contains(a),
        0 <= a,
        a + s.size(a) <= s.len(),
        s.words[a].legal_header(),
        !s.words[a].leaf() ==> forall|k: int|
            1 <= k < s.size(a) ==> s.valid(#[trigger] s.field(a, k)),
{
    lemma_reachable_object(s, roots, a);
}

/// Forwarding is idempotent. Within one cycle, relocating two references to
/// the same object, one after the other, leads to the same target both
/// times, and the second relocation changes neither semispace. Each of the
/// two references keeps its own tag, so with the same tag they come out as
/// the same value.
pub proof fn law_forwarding_idempotent(
    to: Seq<Value>,
    from: Seq<Value>,
    first: Value,
    second: Value,
)
    requires
        !first.immediate(),
        !second.immediate(),
        first.address() == second.address(),
        first.address() + 1 < from.len(),
        to.len() <= MAX_WORDS,
    ensures
        ({
            let once = relocated(to, from, first);
            let twice = relocated(once.0, once.1, second);
            &&& twice.2.address() == once.2.address()
            &&& twice.2.tag_bits() == second.tag_bits()
            &&& first.tag_bits() == second.tag_bits() ==> twice.2 == once.2
            &&& twice.0 == once.0
            &&& twice.1 == once.1
        }),
{
    let a = first.address();
    if from[a].contents == FORWARDED {
        lemma_reference(from[a + 1].address(), first.tag_bits());
        lemma_reference(from[a + 1].address(), second.tag_bits());
    } else {
        lemma_reference(to.len() as int, first.tag_bits());
        lemma_reference(to.len() as int, second.tag_bits());
    }
}

/// An allocation keeps the stack and adds to it. Whether or not it
/// collects, each value that was on the stack is still there, in its place,
/// with the tag it had and an object of as many words as it had; and the top
/// of the stack is the reference to the new object, which has the given
/// header.
pub proof fn law_allocation_keeps_roots(
    pre: Memory,
    post: Heap,
    stack: Seq<Value>,
    header: Value,
    payload: Seq<Value>,
)
    requires
        pre.wf(),
        post.wf(),
        forall|i: int| 0 <= i < stack.len() ==> pre@.valid(#[trigger] stack[i]),
        header.leaf() || forall|i: int|
            0 <= i < payload.len() ==> pre@.valid(#[trigger] payload[i]),
        header.words() == 1 + payload.len(),
        post.allocated(pre, stack, header, payload),
    ensures
        post.stack@.len() == stack.len() + 1,
        forall|i: int|
            0 <= i < stack.len() ==> (#[trigger] post.stack@[i]).tag_bits() == stack[i].tag_bits()
                && post.memory@.size_of(post.stack@[i]) == pre@.size_of(stack[i]),
        !post.stack@.last().immediate() <==> header.kind() % 4 != 0,
        post.stack@.last().tag_bits() == header.kind(),
        post.memory@.words[post.stack@.last().address()] == header,
        post.stack@.last().address() + header.words() == post.memory@.len(),
{
    if pre.free() >= header.words() {
        let n = pre@.len();
        lemma_reference(n, header.kind());
        assert forall|i: int| 0 <= i < stack.len() implies (#[trigger] post.stack@[i]).tag_bits()
            == stack[i].tag_bits() && post.memory@.size_of(post.stack@[i]) == pre@.size_of(
            stack[i],
        ) by {}
    } else {
        let (m, mid) = choose|m: Map<int, int>, mid: Arena| #[trigger]
            post.allocated_in(pre, stack, header, payload, m, mid);
        let roots = if header.leaf() {
            stack
        } else {
            stack + payload
        };
        let n = mid.len();
        lemma_reference(n, header.kind());
        assert forall|i: int| 0 <= i < stack.len() implies (#[trigger] post.stack@[i]).tag_bits()
            == stack[i].tag_bits() && post.memory@.size_of(post.stack@[i]) == pre@.size_of(
            stack[i],
        ) by {
            let v = stack[i];
            if !v.immediate() {
                lemma_root_reachable(pre@, roots, i);
            }
            law_shape_preserved(pre@, mid, roots, m, v);
        }
    }
}

/// The words of a tiled arena determine where its objects begin: two tiled
/// arenas with the same words have the same objects.
pub proof fn law_objects_determined(s: Arena, t: Arena)
    requires
        s.tiled(),
        t.tiled(),
        s.words == t.words,
    ensures
        s.objects == t.objects,
{
    assert forall|a: int| s.objects.contains(a) == t.objects.contains(a) by {
        if s.objects.contains(a) {
            lemma_walk_meets(s, 0, a);
            lemma_walk_stays(t, 0, a);
        }
        if t.objects.contains(a) {
            lemma_walk_meets(t, 0, a);
            lemma_walk_stays(s, 0, a);
        }
    }
}

} // verus!
