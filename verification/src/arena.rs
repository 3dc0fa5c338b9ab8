//! The mathematical model of one semispace.
//!
//! An [`Arena`] is the sequence of words of a semispace together with the set
//! of offsets at which its objects begin. Everything the contracts of the
//! heap say is said over this model.

use vstd::prelude::*;
use crate::value::{Value, MAX_WORDS};

verus! {

/// The words of a semispace and the offsets of its object headers.
pub struct Arena {
    pub words: Seq<Value>,
    pub objects: Set<int>,
}

/// Whether `v` is a reference to the object at offset `a`.
pub open spec fn refers(v: Value, a: int) -> bool {
    !v.immediate() && v.address() == a
}

/// Whether one of `roots` is a reference to the object at offset `a`.
pub open spec fn rooted(roots: Seq<Value>, a: int) -> bool {
    exists|i: int| 0 <= i < roots.len() && refers(#[trigger] roots[i], a)
}

/// A value after its object has moved: an immediate stays as it is, a
/// reference keeps its tag and takes the offset that `m` gives.
pub open spec fn forward(m: Map<int, int>, v: Value) -> Value {
    if v.immediate() {
        v
    } else {
        Value::reference(m[v.address()], v.tag_bits())
    }
}

/// Each value of `s` forwarded through `m`.
pub open spec fn forward_all(m: Map<int, int>, s: Seq<Value>) -> Seq<Value> {
    Seq::new(s.len(), |i: int| forward(m, s[i]))
}

impl Arena {
    /// The arena without words.
    pub open spec fn empty() -> Arena {
        Arena { words: Seq::empty(), objects: Set::empty() }
    }

    /// Number of words in use.
    pub open spec fn len(self) -> int {
        self.words.len() as int
    }

    /// Number of words of the object whose header is at `a`.
    pub open spec fn size(self, a: int) -> int {
        self.words[a].words()
    }

    /// The offset just past the object whose header is at `a`.
    pub open spec fn end(self, a: int) -> int {
        a + self.words[a].words()
    }

    /// Word `k` of the object whose header is at `a`; word 0 is the header.
    pub open spec fn field(self, a: int, k: int) -> Value {
        self.words[a + k]
    }

    /// The objects lie back to back from offset 0 to the end of the arena:
    /// each begins with a legal header, no two overlap, and there is no gap.
    pub open spec fn tiled(self) -> bool {
        &&& self.len() > 0 ==> self.objects.contains(0)
        &&& forall|a: int| #[trigger]
            self.objects.contains(a) ==> 0 <= a < self.len() && self.words[a].legal_header() && a
                + self.size(a) <= self.len()
        &&& forall|a: int|
            self.objects.contains(a) && a + self.size(a) < self.len() ==> self.objects.contains(
                #[trigger] self.end(a),
            )
        &&& forall|a: int, b: int|
            #[trigger] self.objects.contains(a) && #[trigger] self.objects.contains(b) && a < b
                ==> a + self.size(a) <= b
    }

    /// A value that may be stored in this arena's objects or handed to its
    /// owner: an immediate, or a reference to one of the arena's objects
    /// whose tag is the one the object's header names.
    pub open spec fn valid(self, v: Value) -> bool {
        v.immediate() || (self.objects.contains(v.address()) && self.words[v.address()].kind()
            == v.tag_bits())
    }

    /// Every payload word of every object that is not a leaf is a valid value.
    pub open spec fn closed(self) -> bool {
        forall|a: int, k: int|
            self.objects.contains(a) && !self.words[a].leaf() && 1 <= k < self.size(a)
                ==> self.valid(#[trigger] self.field(a, k))
    }

    /// Well-formedness of a semispace.
    pub open spec fn wf(self) -> bool {
        &&& self.tiled()
        &&& self.closed()
        &&& self.len() <= MAX_WORDS
    }

    /// Whether the object at `a` holds, in a payload word that the collector
    /// looks at, a reference to the object at `c`.
    pub open spec fn edge(self, a: int, c: int) -> bool {
        exists|k: int|
            1 <= k < self.size(a) && !self.words[a].leaf() && refers(#[trigger] self.field(a, k), c)
    }

    /// Whether `p` lists the objects along a chain of references that starts
    /// at one of `roots`.
    pub open spec fn path(self, roots: Seq<Value>, p: Seq<int>) -> bool {
        &&& p.len() > 0
        &&& rooted(roots, p[0])
        &&& forall|i: int, j: int|
            0 <= i && j == i + 1 && j < p.len() ==> self.edge(#[trigger] p[i], #[trigger] p[j])
    }

    /// Whether the object at `a` can be reached from `roots`.
    pub open spec fn reachable(self, roots: Seq<Value>, a: int) -> bool {
        exists|p: Seq<int>| #[trigger] self.path(roots, p) && p.last() == a
    }

    /// The offsets of the objects that can be reached from `roots`.
    pub open spec fn live(self, roots: Seq<Value>) -> Set<int> {
        Set::new(|a: int| self.reachable(roots, a))
    }

    /// The number of words of the object a reference leads to; nothing for an
    /// immediate or for a reference that points outside the arena.
    pub open spec fn size_of(self, v: Value) -> Option<int> {
        if !v.immediate() && v.address() < self.len() {
            Some(self.size(v.address()))
        } else {
            None
        }
    }

    /// The header of the object a reference leads to; nothing for an
    /// immediate or for a reference that points outside the arena.
    pub open spec fn header_of(self, v: Value) -> Option<Value> {
        if !v.immediate() && v.address() < self.len() {
            Some(self.words[v.address()])
        } else {
            None
        }
    }

    /// Payload word `k` of the object a reference leads to; nothing for an
    /// immediate, and nothing where the object has no such word inside the
    /// arena.
    pub open spec fn field_of(self, v: Value, k: int) -> Option<Value> {
        if !v.immediate() && v.address() < self.len() && 1 <= k < self.size(v.address())
            && v.address() + k < self.len() {
            Some(self.field(v.address(), k))
        } else {
            None
        }
    }

    /// The arena with one more object at its end.
    pub open spec fn with_object(self, header: Value, payload: Seq<Value>) -> Arena {
        Arena {
            words: self.words.push(header) + payload,
            objects: self.objects.insert(self.len()),
        }
    }

    /// `self` holds exactly the objects of `pre` that can be reached from
    /// `roots`, each once, at the offset that `m` gives: with the header it
    /// had, and with its payload forwarded through `m` (with its payload as
    /// it was, for a leaf).
    pub open spec fn copy_of(self, pre: Arena, roots: Seq<Value>, m: Map<int, int>) -> bool {
        &&& m.dom() == pre.live(roots)
        &&& m.is_injective()
        &&& self.objects == m.values()
        &&& forall|a: int| #[trigger]
            m.dom().contains(a) ==> self.words[m[a]] == pre.words[a]
        &&& forall|a: int, k: int|
            m.dom().contains(a) && 1 <= k < pre.size(a) ==> #[trigger] self.field(m[a], k) == (
            if pre.words[a].leaf() {
                pre.field(a, k)
            } else {
                forward(m, pre.field(a, k))
            })
    }
}

/// Two objects of a tiled arena share no word.
pub proof fn lemma_objects_apart(s: Arena, a: int, b: int)
    requires
        s.tiled(),
        s.objects.contains(a),
        s.objects.contains(b),
        a != b,
    ensures
        a + s.size(a) <= b || b + s.size(b) <= a,
{
}

/// A reference built from an offset and a tag gives both back, as long as
/// the two fit in a word.
pub proof fn lemma_reference(address: int, tag: int)
    requires
        0 <= address <= usize::MAX / 8,
        0 <= tag < 8,
    ensures
        Value::reference(address, tag).address() == address,
        Value::reference(address, tag).tag_bits() == tag,
        Value::reference(address, tag).immediate() == (tag % 4 == 0),
{
    lemma_word_fits(address, tag);
    lemma_word_parts(address, tag);
}

/// An offset and a tag that fit in a word make a word.
proof fn lemma_word_fits(address: int, tag: int)
    requires
        0 <= address <= usize::MAX / 8,
        0 <= tag < 8,
    ensures
        0 <= address * 8 + tag <= usize::MAX,
{
    assert(usize::MAX == 0xffff_ffff || usize::MAX == 0xffff_ffff_ffff_ffff);
}

/// The offset and the tag can be read back from their sum.
proof fn lemma_word_parts(address: int, tag: int)
    requires
        0 <= tag < 8,
    ensures
        (address * 8 + tag) / 8 == address,
        (address * 8 + tag) % 8 == tag,
        ((address * 8 + tag) % 4 == 0) == (tag % 4 == 0),
{
}

/// Everything reachable in a well-formed arena from valid roots is one of its
/// objects.
pub proof fn lemma_reachable_object(s: Arena, roots: Seq<Value>, a: int)
    requires
        s.wf(),
        forall|i: int| 0 <= i < roots.len() ==> s.valid(#[trigger] roots[i]),
        s.reachable(roots, a),
    ensures
        s.objects.contains(a),
{
    let p = choose|p: Seq<int>| #[trigger] s.path(roots, p) && p.last() == a;
    lemma_path_objects(s, roots, p, p.len() - 1);
}

/// Every stop on a path through a well-formed arena is one of its objects.
pub proof fn lemma_path_objects(s: Arena, roots: Seq<Value>, p: Seq<int>, j: int)
    requires
        s.wf(),
        forall|i: int| 0 <= i < roots.len() ==> s.valid(#[trigger] roots[i]),
        s.path(roots, p),
        0 <= j < p.len(),
    ensures
        s.objects.contains(p[j]),
    decreases j,
{
    if j == 0 {
        let i = choose|i: int| 0 <= i < roots.len() && refers(#[trigger] roots[i], p[0]);
        assert(s.valid(roots[i]));
    } else {
        lemma_path_objects(s, roots, p, j - 1);
        assert(s.edge(p[j - 1], p[j]));
        let a = p[j - 1];
        let k = choose|k: int|
            1 <= k < s.size(a) && !s.words[a].leaf() && refers(#[trigger] s.field(a, k), p[j]);
        assert(s.valid(s.field(a, k)));
    }
}

/// The object a root refers to is reachable.
pub proof fn lemma_root_reachable(s: Arena, roots: Seq<Value>, i: int)
    requires
        0 <= i < roots.len(),
        !roots[i].immediate(),
    ensures
        s.reachable(roots, roots[i].address()),
{
    let p = seq![roots[i].address()];
    assert(s.path(roots, p));
}

/// What a reachable object refers to is reachable.
pub proof fn lemma_edge_reachable(s: Arena, roots: Seq<Value>, a: int, c: int)
    requires
        s.reachable(roots, a),
        s.edge(a, c),
    ensures
        s.reachable(roots, c),
{
    let p = choose|p: Seq<int>| #[trigger] s.path(roots, p) && p.last() == a;
    let q = p.push(c);
    assert forall|i: int, j: int| 0 <= i && j == i + 1 && j < q.len() implies s.edge(
        #[trigger] q[i],
        #[trigger] q[j],
    ) by {}
    assert(s.path(roots, q));
}

/// Appending an object whose payload is valid keeps the arena well formed
/// and every valid value valid, and makes the reference to the new object
/// valid.
pub proof fn lemma_with_object(s: Arena, header: Value, payload: Seq<Value>)
    requires
        s.wf(),
        header.legal_header(),
        header.words() == 1 + payload.len(),
        header.leaf() || forall|i: int| 0 <= i < payload.len() ==> s.valid(#[trigger] payload[i]),
        s.len() + header.words() <= MAX_WORDS,
    ensures
        s.with_object(header, payload).wf(),
        forall|v: Value| s.valid(v) ==> #[trigger] s.with_object(header, payload).valid(v),
        s.with_object(header, payload).valid(Value::reference(s.len(), header.kind())),
{
    let t = s.with_object(header, payload);
    let n = s.len();
    lemma_reference(n, header.kind());
    assert forall|a: int| #[trigger] t.objects.contains(a) implies 0 <= a < t.len()
        && t.words[a].legal_header() && a + t.size(a) <= t.len() by {}
    assert forall|a: int|
        t.objects.contains(a) && a + t.size(a) < t.len() implies t.objects.contains(
        #[trigger] t.end(a),
    ) by {
        if a != n && a + s.size(a) < s.len() {
            assert(s.objects.contains(s.end(a)));
        }
    }
    assert forall|a: int, b: int| #[trigger]
        t.objects.contains(a) && #[trigger] t.objects.contains(b) && a < b implies a + t.size(a)
        <= b by {}
    assert forall|v: Value| s.valid(v) implies #[trigger] t.valid(v) by {}
    assert forall|a: int, k: int|
        t.objects.contains(a) && !t.words[a].leaf() && 1 <= k < t.size(a) implies t.valid(
        #[trigger] t.field(a, k),
    ) by {
        if a != n {
            assert(t.field(a, k) == s.field(a, k));
        }
    }
}

/// Whether the object headers met on the way from offset `pos`, going from
/// each object to the next, include the one at offset `a`.
pub open spec fn walks(words: Seq<Value>, pos: int, a: int) -> bool
    decreases a - pos,
{
    if pos >= a {
        pos == a
    } else if pos + words[pos].words() <= a {
        walks(words, pos + words[pos].words(), a)
    } else {
        false
    }
}

/// In a tiled arena the walk from any object meets every later object.
pub proof fn lemma_walk_meets(s: Arena, pos: int, a: int)
    requires
        s.tiled(),
        s.objects.contains(pos),
        s.objects.contains(a),
        pos <= a,
    ensures
        walks(s.words, pos, a),
    decreases a - pos,
{
    if pos < a {
        lemma_walk_meets(s, s.end(pos), a);
    }
}

/// In a tiled arena the walk from any object meets objects only.
pub proof fn lemma_walk_stays(s: Arena, pos: int, a: int)
    requires
        s.tiled(),
        s.objects.contains(pos),
        walks(s.words, pos, a),
        a < s.len(),
    ensures
        s.objects.contains(a),
    decreases a - pos,
{
    if pos < a {
        lemma_walk_stays(s, s.end(pos), a);
    }
}

/// The walk that meets an object goes on to the offset just past it.
pub proof fn lemma_walk_on(words: Seq<Value>, pos: int, a: int)
    requires
        walks(words, pos, a),
    ensures
        walks(words, pos, a + words[a].words()),
    decreases a - pos,
{
    if pos < a {
        lemma_walk_on(words, pos + words[pos].words(), a);
    } else {
        assert(walks(words, a + words[a].words(), a + words[a].words()));
    }
}

/// Of two objects that one walk meets, the later begins where the earlier
/// ends or behind it, and the walk from the earlier meets the later.
pub proof fn lemma_walk_apart(words: Seq<Value>, pos: int, a: int, b: int)
    requires
        walks(words, pos, a),
        walks(words, pos, b),
        a < b,
    ensures
        a + words[a].words() <= b,
        walks(words, a, b),
    decreases a - pos,
{
    if pos < a {
        lemma_walk_apart(words, pos + words[pos].words(), a, b);
    }
}

} // verus!
