//! A slow check of a whole semispace, for use while debugging.

use vstd::prelude::*;
use crate::arena::{
    walks,
    Arena,
    lemma_walk_apart,
    lemma_walk_meets,
    lemma_walk_on,
    lemma_walk_stays,
};
use crate::value::{Value, MAX_WORDS};

verus! {

/// Word `k` of the object that begins at `pos`.
pub open spec fn cell(s: Seq<Value>, pos: int, k: int) -> Value {
    s[pos + k]
}

/// Whether the words from `pos` to the end of `s` are objects one after the
/// other: each begins with a legal header and ends inside `s`, and the last
/// ends where `s` ends.
pub open spec fn framed_from(s: Seq<Value>, pos: int) -> bool
    decreases s.len() - pos,
{
    if 0 <= pos < s.len() {
        if s[pos].legal_header() && pos + s[pos].words() <= s.len() {
            framed_from(s, pos + s[pos].words())
        } else {
            false
        }
    } else {
        pos == s.len()
    }
}

/// Whether an object begins at offset `a`: the walk from the first word of
/// `s`, from each object to the next, meets `a` inside `s`.
pub open spec fn object_at(s: Seq<Value>, a: int) -> bool {
    0 <= a < s.len() && walks(s, 0, a)
}

/// Whether `v` may stand in an object of the semispace `s`: an immediate, or
/// a reference to an object of `s` whose header names the reference's tag.
pub open spec fn in_range(s: Seq<Value>, v: Value) -> bool {
    v.immediate() || (object_at(s, v.address()) && s[v.address()].kind() == v.tag_bits())
}

/// Whether the whole semispace is sound: it is a run of objects, and every
/// payload word of every object that is not a leaf may stand there.
pub open spec fn consistent(s: Seq<Value>) -> bool {
    &&& framed_from(s, 0)
    &&& forall|a: int, k: int|
        object_at(s, a) && !s[a].leaf() && 1 <= k < s[a].words() ==> in_range(
            s,
            #[trigger] cell(s, a, k),
        )
}

/// Whether a payload word may stand in the semispace; `starts` tells for
/// each offset whether an object begins there.
fn reference_ok(heap: &Vec<Value>, starts: &Vec<bool>, current: Value) -> (ok: bool)
    requires
        starts@.len() == heap@.len(),
        forall|j: int| 0 <= j < heap@.len() ==> starts@[j] == walks(heap@, 0, j),
    ensures
        ok == in_range(heap@, current),
{
    if current.is_immediate() {
        return true;
    }
    let target: usize = current.offset();
    if target >= heap.len() {
        return false;
    }
    let word: usize = current.contents;
    let mark: usize = heap[target].contents;
    assert(word & 0b111 == word % 8) by (bit_vector);
    assert(mark & 0b111 == mark % 8) by (bit_vector);
    starts[target] && mark & 0b111 == word & 0b111
}

/// Finds where the objects of the semispace begin. Nothing where the
/// semispace is no run of objects; else, for each offset, whether an object
/// begins there.
fn object_starts(heap: &Vec<Value>) -> (found: Option<Vec<bool>>)
    ensures
        found.is_some() == framed_from(heap@, 0),
        match found {
            Some(starts) => {
                &&& starts@.len() == heap@.len()
                &&& forall|j: int| 0 <= j < heap@.len() ==> starts@[j] == walks(heap@, 0, j)
            },
            None => true,
        },
{
    let mut starts: Vec<bool> = Vec::new();
    let mut index: usize = 0;
    while index < heap.len()
        invariant
            index <= heap@.len(),
            starts@.len() == index,
            walks(heap@, 0, index as int),
            framed_from(heap@, 0) == framed_from(heap@, index as int),
            forall|j: int| 0 <= j < index ==> starts@[j] == walks(heap@, 0, j),
        decreases heap@.len() - index,
    {
        let header = heap[index];
        if !header.is_legal_header() {
            return None;
        }
        let len: usize = header.header_words();
        if len > heap.len() - index {
            return None;
        }
        starts.push(true);
        let mut k: usize = 1;
        while k < len
            invariant
                1 <= k <= len,
                index + len <= heap.len(),
                len == heap@[index as int].words(),
                starts@.len() == index + k,
                walks(heap@, 0, index as int),
                forall|j: int| 0 <= j < index + k ==> starts@[j] == walks(heap@, 0, j),
            decreases len - k,
        {
            proof {
                if walks(heap@, 0, index + k) {
                    lemma_walk_apart(heap@, 0, index as int, index + k);
                }
            }
            starts.push(false);
            k += 1;
        }
        proof {
            lemma_walk_on(heap@, 0, index as int);
        }
        index += len;
    }
    Some(starts)
}

/// Whether the semispace passes the consistency check. Walks the semispace
/// twice from its first word to its last: once to find where the objects
/// begin, once to look at what they hold.
pub fn is_consistent(heap: &Vec<Value>) -> (ok: bool)
    ensures
        ok == consistent(heap@),
{
    let starts = match object_starts(heap) {
        Some(starts) => starts,
        None => {
            return false;
        },
    };
    let mut index: usize = 0;
    while index < heap.len()
        invariant
            index <= heap@.len(),
            starts@.len() == heap@.len(),
            forall|j: int| 0 <= j < heap@.len() ==> starts@[j] == walks(heap@, 0, j),
            framed_from(heap@, 0),
            framed_from(heap@, index as int),
            walks(heap@, 0, index as int),
            forall|a: int, k: int|
                object_at(heap@, a) && a < index && !heap@[a].leaf() && 1 <= k < heap@[a].words()
                    ==> in_range(heap@, #[trigger] cell(heap@, a, k)),
        decreases heap@.len() - index,
    {
        let header = heap[index];
        let len: usize = header.header_words();
        if !header.leafp() {
            let mut k: usize = 1;
            while k < len
                invariant
                    1 <= k <= len,
                    index + len <= heap.len(),
                    len == heap@[index as int].words(),
                    !heap@[index as int].leaf(),
                    starts@.len() == heap@.len(),
                    forall|j: int| 0 <= j < heap@.len() ==> starts@[j] == walks(heap@, 0, j),
                    walks(heap@, 0, index as int),
                    forall|j: int|
                        1 <= j < k ==> in_range(heap@, #[trigger] cell(heap@, index as int, j)),
                decreases len - k,
            {
                if !reference_ok(heap, &starts, heap[index + k]) {
                    assert(object_at(heap@, index as int));
                    assert(!in_range(heap@, cell(heap@, index as int, k as int)));
                    return false;
                }
                k += 1;
            }
        }
        proof {
            lemma_walk_on(heap@, 0, index as int);
            assert forall|a: int, k: int|
                object_at(heap@, a) && a < index + len && !heap@[a].leaf() && 1 <= k
                    < heap@[a].words() implies in_range(heap@, #[trigger] cell(heap@, a, k)) by {
                if index < a {
                    lemma_walk_apart(heap@, 0, index as int, a);
                }
            }
        }
        index += len;
    }
    true
}

/// Consistency checks on the whole heap: slow.
///
/// The check is for a semispace that is consistent. For any other it has no
/// answer to give, so such a semispace is left out; `is_consistent` tells
/// which it is.
pub fn consistency_check(heap: &Vec<Value>)
    requires
        consistent(heap@),
{
    let ok = is_consistent(heap);
    assert(ok);
}

/// A well-formed semispace is a run of objects from each of its objects on.
proof fn lemma_framed_from(s: Arena, pos: int)
    requires
        s.tiled(),
        s.objects.contains(pos) || pos == s.len(),
    ensures
        framed_from(s.words, pos),
    decreases s.len() - pos,
{
    if pos < s.len() {
        let next = s.end(pos);
        lemma_framed_from(s, next);
    }
}

/// A well-formed semispace passes the check.
pub proof fn lemma_wf_consistent(s: Arena)
    requires
        s.wf(),
    ensures
        consistent(s.words),
{
    lemma_framed_from(s, 0);
    assert forall|a: int, k: int|
        object_at(s.words, a) && !s.words[a].leaf() && 1 <= k < s.words[a].words() implies in_range(
        s.words,
        #[trigger] cell(s.words, a, k),
    ) by {
        lemma_walk_stays(s, 0, a);
        let v = s.field(a, k);
        assert(s.valid(v));
        if !v.immediate() {
            lemma_walk_meets(s, 0, v.address());
        }
    }
}

/// What is met on the walk over a run of objects is an object of the run.
proof fn lemma_framed_at(s: Seq<Value>, pos: int, a: int)
    requires
        framed_from(s, pos),
        walks(s, pos, a),
        0 <= pos,
        a < s.len(),
    ensures
        s[a].legal_header(),
        a + s[a].words() <= s.len(),
    decreases a - pos,
{
    if pos < a {
        lemma_framed_at(s, pos + s[pos].words(), a);
    }
}

/// The check decides well-formedness. A semispace that passes it is well
/// formed, with its objects where the walk meets them, as long as it holds
/// no more words than a semispace may; and a well-formed semispace passes
/// (`lemma_wf_consistent`).
pub proof fn law_consistent_wf(s: Seq<Value>)
    requires
        consistent(s),
        s.len() <= MAX_WORDS,
    ensures
        (Arena { words: s, objects: Set::new(|a: int| object_at(s, a)) }).wf(),
{
    let t = Arena { words: s, objects: Set::new(|a: int| object_at(s, a)) };
    assert forall|a: int| #[trigger] t.objects.contains(a) implies 0 <= a < t.len()
        && t.words[a].legal_header() && a + t.size(a) <= t.len() by {
        lemma_framed_at(s, 0, a);
    }
    assert forall|a: int|
        t.objects.contains(a) && a + t.size(a) < t.len() implies t.objects.contains(
        #[trigger] t.end(a),
    ) by {
        lemma_walk_on(s, 0, a);
    }
    assert forall|a: int, b: int| #[trigger]
        t.objects.contains(a) && #[trigger] t.objects.contains(b) && a < b implies a + t.size(a)
        <= b by {
        lemma_walk_apart(s, 0, a, b);
    }
    assert forall|a: int, k: int|
        t.objects.contains(a) && !t.words[a].leaf() && 1 <= k < t.size(a) implies t.valid(
        #[trigger] t.field(a, k),
    ) by {
        assert(in_range(s, cell(s, a, k)));
    }
}

} // verus!
