//! The heap: two semispaces, the stack that roots them, allocation and
//! collection.

use vstd::prelude::*;
use crate::arena::{Arena, forward_all, lemma_root_reachable, lemma_with_object};
use crate::check::{consistent, lemma_wf_consistent};
use crate::cycle::{Cycle, lemma_finish, lemma_start};
use crate::laws::{law_full_reclamation, law_shape_preserved};
use crate::scavenge::{collected, scavange_heap, scavange_stack};
use crate::stack::Stack;
use crate::value::{Value, MAX_WORDS, PAIR_HEADER, PAIR_TAG, SIZEOF_PAIR, TAG_MASK, VECTOR_TAG};

verus! {

/// One semispace: its words and the number of words reserved for it.
struct Semispace {
    words: Vec<Value>,
    capacity: usize,
}

/// The two semispaces of a heap. `tospace` is the active one; `fromspace` is
/// empty except during a collection.
pub struct Memory {
    tospace: Semispace,
    fromspace: Semispace,
    objects: Ghost<Set<int>>,
}

impl View for Memory {
    type V = Arena;

    /// The active semispace.
    closed spec fn view(&self) -> Arena {
        Arena { words: self.tospace.words@, objects: self.objects@ }
    }
}

/// The capacity of the semispace that a collection fills, given the number
/// of words in use before it: one and a half times that number, rounded up.
pub open spec fn grown(occupied: int) -> int {
    occupied + (occupied + 1) / 2
}

/// The capacity of the active semispace after an allocation that collected:
/// what the collection reserved, given the number of words in use before it,
/// or the `wanted` number of words where that is more.
pub open spec fn stretched(occupied: int, wanted: int) -> int {
    if grown(occupied) >= wanted {
        grown(occupied)
    } else {
        wanted
    }
}

impl Memory {
    /// Number of words reserved for the active semispace.
    pub closed spec fn reserved(&self) -> int {
        self.tospace.capacity as int
    }

    /// Number of words reserved for the retired semispace.
    pub closed spec fn retired_reserved(&self) -> int {
        self.fromspace.capacity as int
    }

    /// Whether the retired semispace is empty, as it is between collections.
    pub closed spec fn rested(&self) -> bool {
        self.fromspace.words@.len() == 0
    }

    /// The active semispace is well formed and within its capacity, and the
    /// retired one is empty.
    pub open spec fn wf(&self) -> bool {
        &&& self@.wf()
        &&& self.rested()
        &&& self@.len() <= self.reserved()
    }

    /// Number of reserved words that are not in use.
    pub open spec fn free(&self) -> int {
        self.reserved() - self@.len()
    }

    /// Number of words in use in the active semispace.
    pub fn len(&self) -> (n: usize)
        ensures
            n == self@.len(),
    {
        self.tospace.words.len()
    }

    /// Number of words reserved for the active semispace.
    pub fn capacity(&self) -> (n: usize)
        ensures
            n == self.reserved(),
    {
        self.tospace.capacity
    }

    /// Number of words reserved for the retired semispace.
    pub fn retired_capacity(&self) -> (n: usize)
        ensures
            n == self.retired_reserved(),
    {
        self.fromspace.capacity
    }

    /// Whether the active semispace passes the consistency check. A
    /// well-formed memory always passes.
    pub fn is_consistent(&self) -> (ok: bool)
        ensures
            ok == consistent(self@.words),
            self@.wf() ==> ok,
    {
        proof {
            if self@.wf() {
                lemma_wf_consistent(self@);
            }
        }
        crate::check::is_consistent(&self.tospace.words)
    }

    /// Runs the consistency check on the active semispace, which must be
    /// consistent; `is_consistent` tells whether it is.
    pub fn consistency_check(&self)
        requires
            consistent(self@.words),
    {
        crate::check::consistency_check(&self.tospace.words)
    }

    /// The header of the object that `object` refers to, which tells the
    /// object's kind, its number of words and whether it is a leaf. Nothing
    /// for an immediate, which has no object.
    pub fn header(&self, object: Value) -> (header: Option<Value>)
        ensures
            header == self@.header_of(object),
    {
        if object.is_immediate() {
            return None;
        }
        let target: usize = object.offset();
        if target >= self.tospace.words.len() {
            return None;
        }
        Some(self.tospace.words[target])
    }

    /// Payload word `index` of the object that `object` refers to: word 1 is
    /// the first after the header. Nothing for an immediate, and nothing
    /// where the object has no such word.
    pub fn field(&self, object: Value, index: usize) -> (word: Option<Value>)
        ensures
            word == self@.field_of(object, index as int),
    {
        if object.is_immediate() {
            return None;
        }
        let target: usize = object.offset();
        let len: usize = self.tospace.words.len();
        if target >= len || index < 1 || index >= len - target {
            return None;
        }
        if index >= self.tospace.words[target].header_words() {
            return None;
        }
        Some(self.tospace.words[target + index])
    }

    /// The first value of a pair.
    pub fn car(&self, pair: Value) -> (car: Value)
        requires
            self@.wf(),
            self@.valid(pair),
            pair.tag_bits() == PAIR_TAG,
        ensures
            car == self@.field(pair.address(), 1),
            self@.valid(car),
    {
        proof {
            let a = pair.address();
            assert(self@.objects.contains(a));
            assert(self@.words[a].contents == PAIR_HEADER);
            assert(a + 3 <= self@.len());
            assert(self@.valid(self@.field(a, 1)));
        }
        self.tospace.words[pair.offset() + 1]
    }

    /// The second value of a pair.
    pub fn cdr(&self, pair: Value) -> (cdr: Value)
        requires
            self@.wf(),
            self@.valid(pair),
            pair.tag_bits() == PAIR_TAG,
        ensures
            cdr == self@.field(pair.address(), 2),
            self@.valid(cdr),
    {
        proof {
            let a = pair.address();
            assert(self@.objects.contains(a));
            assert(self@.words[a].contents == PAIR_HEADER);
            assert(a + 3 <= self@.len());
            assert(self@.valid(self@.field(a, 2)));
        }
        self.tospace.words[pair.offset() + 2]
    }
}

impl Value {
    /// The number of words of the object that the value refers to, header
    /// included; nothing for an immediate, which has no object.
    pub fn size(&self, memory: &Memory) -> (size: Option<usize>)
        ensures
            match size {
                Some(n) => memory@.size_of(*self) == Some(n as int),
                None => memory@.size_of(*self).is_none(),
            },
    {
        match memory.header(*self) {
            Some(header) => Some(header.header_words()),
            None => None,
        }
    }
}

/// The heap of the runtime. Every value on `stack` is live; an object is
/// reclaimed when a collection finds no chain of references from the stack
/// to it.
///
/// The stack is the caller's to change between calls. A change of the stack
/// leaves `memory` as it was, so the heap stays well formed as long as the
/// values put on the stack are valid in the memory.
pub struct Heap {
    pub memory: Memory,
    pub stack: Stack,
}

impl Heap {
    /// The memory is well formed and every value on the stack is valid in it.
    pub open spec fn wf(&self) -> bool {
        &&& self.memory.wf()
        &&& forall|i: int|
            0 <= i < self.stack@.len() ==> self.memory@.valid(#[trigger] self.stack@[i])
    }

    /// Whether `self` is what a collection makes of `pre`, with `m` giving
    /// the new offset of each object that survived.
    pub open spec fn collected_from(&self, pre: Heap, m: Map<int, int>) -> bool {
        &&& self.memory@.copy_of(pre.memory@, pre.stack@, m)
        &&& self.stack@ == forward_all(m, pre.stack@)
    }

    /// Whether each value on the stack of `self` has the tag that the value
    /// in its place had in `pre`, and an object of as many words.
    pub open spec fn keeps_roots_of(&self, pre: Heap) -> bool {
        &&& self.stack@.len() == pre.stack@.len()
        &&& forall|i: int|
            0 <= i < pre.stack@.len() ==> {
                &&& (#[trigger] self.stack@[i]).tag_bits() == pre.stack@[i].tag_bits()
                &&& self.memory@.size_of(self.stack@[i]) == pre.memory@.size_of(pre.stack@[i])
            }
    }

    /// Whether the words of `self` and its stack are laid out as a
    /// collection of `pre` lays them out.
    pub open spec fn laid_out_from(&self, pre: Heap) -> bool {
        &&& self.memory@.words == collected(pre.memory@.words, pre.stack@).0
        &&& self.stack@ == collected(pre.memory@.words, pre.stack@).1
    }

    /// Whether `self` is `mid` with one more object at its end, made of
    /// `header` and `payload`, and `stack` with the reference to that object
    /// on top.
    pub open spec fn extended(
        &self,
        mid: Arena,
        stack: Seq<Value>,
        header: Value,
        payload: Seq<Value>,
    ) -> bool {
        &&& self.memory@ == mid.with_object(header, payload)
        &&& self.stack@ == stack.push(Value::reference(mid.len(), header.kind()))
    }

    /// Whether `self` is what an allocation that had to collect makes of a
    /// heap with memory `pre` and stack `stack`. `mid` is the active
    /// semispace after the collection and `m` gives the new offset of each
    /// object that survived. The roots of the collection were the stack and,
    /// unless the new object is a leaf, its payload, which the new object
    /// then holds as the collection redirected it. The capacity is the one
    /// the collection reserved, or more where that did not hold the new
    /// object; the retired semispace has the capacity that the active one
    /// had.
    pub open spec fn allocated_in(
        &self,
        pre: Memory,
        stack: Seq<Value>,
        header: Value,
        payload: Seq<Value>,
        m: Map<int, int>,
        mid: Arena,
    ) -> bool {
        let roots = if header.leaf() {
            stack
        } else {
            stack + payload
        };
        let kept = if header.leaf() {
            payload
        } else {
            forward_all(m, payload)
        };
        &&& mid.wf()
        &&& mid.copy_of(pre@, roots, m)
        &&& mid.words == collected(pre@.words, roots).0
        &&& forward_all(m, roots) == collected(pre@.words, roots).1
        &&& self.extended(mid, forward_all(m, stack), header, kept)
        &&& self.memory.reserved() == stretched(pre@.len(), mid.len() + header.words())
        &&& self.memory.retired_reserved() == pre.reserved()
    }

    /// Whether `self` is what the allocation of an object made of `header`
    /// and `payload` makes of a heap with memory `pre` and stack `stack`.
    /// Where the object fits in the free words, it is appended and nothing
    /// else changes, the two capacities included. Otherwise a collection
    /// comes first.
    pub open spec fn allocated(
        &self,
        pre: Memory,
        stack: Seq<Value>,
        header: Value,
        payload: Seq<Value>,
    ) -> bool {
        if pre.free() >= header.words() {
            &&& self.extended(pre@, stack, header, payload)
            &&& self.memory.reserved() == pre.reserved()
            &&& self.memory.retired_reserved() == pre.retired_reserved()
        } else {
            exists|m: Map<int, int>, mid: Arena| #[trigger]
                self.allocated_in(pre, stack, header, payload, m, mid)
        }
    }

    /// A heap with two empty semispaces of `size` words each and an empty
    /// stack.
    pub fn new(size: usize) -> (heap: Heap)
        requires
            size <= MAX_WORDS,
        ensures
            heap.wf(),
            heap.memory@ == Arena::empty(),
            heap.memory.reserved() == size,
            heap.memory.retired_reserved() == size,
            heap.stack@ == Seq::<Value>::empty(),
    {
        Heap {
            memory: Memory {
                fromspace: Semispace { words: Vec::with_capacity(size), capacity: size },
                tospace: Semispace { words: Vec::with_capacity(size), capacity: size },
                objects: Ghost(Set::empty()),
            },
            stack: Stack { innards: Vec::with_capacity(1 << 16) },
        }
    }
}

/// The payload words of an object that is to hold `payload`: the payload
/// itself, or one unused word of zero where it is empty, so that the object
/// has room for a forwarding reference.
pub open spec fn padded(payload: Seq<Value>) -> Seq<Value> {
    if payload.len() == 0 {
        seq![Value { contents: 0 }]
    } else {
        payload
    }
}

/// The empty slots of a new hash table of the given size.
pub open spec fn slots(size: int) -> Seq<Value> {
    Seq::new(size as nat, |i: int| Value { contents: 0 })
}

/// Raw words as they lie in a leaf.
pub open spec fn raw(words: Seq<usize>) -> Seq<Value> {
    Seq::new(words.len(), |i: int| Value { contents: words[i] })
}

impl Heap {
    /// Makes sure that `need` words are free in the active semispace:
    /// collects if they are not, and reserves more if that was not enough.
    fn make_room(&mut self, need: usize) -> (collecting: bool)
        requires
            old(self).wf(),
            old(self).memory@.len() + need <= MAX_WORDS,
        ensures
            final(self).wf(),
            final(self).memory.free() >= need,
            final(self).memory@.len() <= old(self).memory@.len(),
            collecting == (old(self).memory.free() < need),
            !collecting ==> *final(self) == *old(self),
            collecting ==> {
                &&& final(self).laid_out_from(*old(self))
                &&& exists|m: Map<int, int>| #[trigger] final(self).collected_from(*old(self), m)
                &&& final(self).memory.reserved() == stretched(
                    old(self).memory@.len(),
                    final(self).memory@.len() + need,
                )
                &&& final(self).memory.retired_reserved() == old(self).memory.reserved()
            },
    {
        let tospace_space: usize = self.memory.tospace.capacity - self.memory.tospace.words.len();
        if tospace_space < need {
            collect(self);
            let ghost m = choose|m: Map<int, int>| #[trigger] self.collected_from(*old(self), m);
            let len: usize = self.memory.tospace.words.len();
            if self.memory.tospace.capacity - len < need {
                self.memory.tospace.capacity = len + need;
                self.memory.tospace.words.reserve(need);
            }
            proof {
                assert(self.collected_from(*old(self), m));
            }
            true
        } else {
            false
        }
    }

    /// Builds an object from `header` and the `count` values on top of the
    /// stack, which it takes off, and puts the reference to the object on
    /// the stack. Collects first if the object does not fit in the free
    /// words; the payload is on the stack, so the collection redirects it.
    pub(crate) fn build(&mut self, header: Value, count: usize)
        requires
            old(self).wf(),
            1 <= count <= old(self).stack@.len(),
            header.legal_header(),
            !header.leaf(),
            header.words() == count + 1,
            old(self).memory@.len() + count + 1 <= MAX_WORDS,
        ensures
            final(self).wf(),
            final(self).allocated(
                old(self).memory,
                old(self).stack@.take(old(self).stack@.len() - count),
                header,
                old(self).stack@.skip(old(self).stack@.len() - count),
            ),
    {
        let need: usize = count + 1;
        let base: usize = self.stack.innards.len() - count;
        let ghost stack = self.stack@.take(base as int);
        let ghost payload = self.stack@.skip(base as int);
        let ghost pre = self.memory;
        let collecting = self.make_room(need);
        let ghost m = if collecting {
            choose|m: Map<int, int>| #[trigger] self.collected_from(*old(self), m)
        } else {
            Map::empty()
        };
        let ghost mid = self.memory@;
        let ghost entry = self.memory;
        let ghost whole = self.stack@;
        let ghost words = whole.skip(base as int);
        let start: usize = self.memory.tospace.words.len();
        self.memory.tospace.words.push(header);
        let mut i: usize = 0;
        while i < count
            invariant
                i <= count,
                base + count == self.stack.innards.len(),
                self.stack@ == whole,
                words == whole.skip(base as int),
                self.memory.tospace.words@ == mid.words.push(header) + words.take(i as int),
                self.memory.fromspace == entry.fromspace,
                self.memory.tospace.capacity == entry.tospace.capacity,
                self.memory.objects == entry.objects,
            decreases count - i,
        {
            let word = self.stack.innards[base + i];
            self.memory.tospace.words.push(word);
            i += 1;
        }
        self.stack.innards.truncate(base);
        self.memory.objects = Ghost(mid.objects.insert(start as int));
        let word: usize = header.contents;
        assert(word & 0b111 == word % 8) by (bit_vector);
        self.stack.innards.push(Value::pointer(start, word & TAG_MASK));
        proof {
            assert(words.take(count as int) =~= words);
            lemma_with_object(mid, header, words);
            assert(old(self).stack@ =~= stack + payload);
            if collecting {
                assert(words =~= forward_all(m, payload));
                assert(whole.take(base as int) =~= forward_all(m, stack));
                assert(self.allocated_in(pre, stack, header, payload, m, mid));
            }
        }
    }

    /// Builds a leaf from `header` and the raw `words` and puts the
    /// reference to it on the stack. Collects first if the leaf does not fit
    /// in the free words.
    pub(crate) fn build_leaf(&mut self, header: Value, words: &[usize])
        requires
            old(self).wf(),
            header.legal_header(),
            header.leaf(),
            1 <= words@.len(),
            header.words() == words@.len() + 1,
            old(self).memory@.len() + words@.len() + 1 <= MAX_WORDS,
        ensures
            final(self).wf(),
            final(self).allocated(old(self).memory, old(self).stack@, header, raw(words@)),
    {
        let count: usize = words.len();
        let ghost pre = self.memory;
        let ghost stack = self.stack@;
        let collecting = self.make_room(count + 1);
        let ghost m = if collecting {
            choose|m: Map<int, int>| #[trigger] self.collected_from(*old(self), m)
        } else {
            Map::empty()
        };
        let ghost mid = self.memory@;
        let ghost entry = self.memory;
        let ghost whole = self.stack@;
        let start: usize = self.memory.tospace.words.len();
        self.memory.tospace.words.push(header);
        let mut i: usize = 0;
        while i < count
            invariant
                i <= count,
                count == words@.len(),
                self.stack@ == whole,
                self.memory.tospace.words@ == mid.words.push(header) + raw(words@).take(i as int),
                self.memory.fromspace == entry.fromspace,
                self.memory.tospace.capacity == entry.tospace.capacity,
                self.memory.objects == entry.objects,
            decreases count - i,
        {
            let word = Value { contents: words[i] };
            self.memory.tospace.words.push(word);
            i += 1;
        }
        self.memory.objects = Ghost(mid.objects.insert(start as int));
        let word: usize = header.contents;
        assert(word & 0b111 == word % 8) by (bit_vector);
        self.stack.innards.push(Value::pointer(start, word & TAG_MASK));
        proof {
            assert(raw(words@).take(count as int) =~= raw(words@));
            lemma_with_object(mid, header, raw(words@));
            if collecting {
                assert(self.allocated_in(pre, stack, header, raw(words@), m, mid));
            }
        }
    }

    /// Allocates a Scheme pair and puts the reference to it on the stack.
    ///
    /// `car` and `cdr` are rooted for the length of the call: if the call
    /// collects, the pair holds them as the collection redirected them.
    pub fn alloc_pair(&mut self, car: Value, cdr: Value)
        requires
            old(self).wf(),
            old(self).memory@.valid(car),
            old(self).memory@.valid(cdr),
            old(self).memory@.len() + SIZEOF_PAIR <= MAX_WORDS,
        ensures
            final(self).wf(),
            final(self).allocated(
                old(self).memory,
                old(self).stack@,
                Value { contents: PAIR_HEADER },
                seq![car, cdr],
            ),
    {
        self.stack.push(car);
        self.stack.push(cdr);
        proof {
            let n = old(self).stack@.len() as int;
            assert(self.stack@.take(n) =~= old(self).stack@);
            assert(self.stack@.skip(n) =~= seq![car, cdr]);
        }
        self.build(Value { contents: PAIR_HEADER }, 2);
    }

    /// Allocates a vector that holds `elements` and puts the reference to it
    /// on the stack. A vector without elements has one unused payload word.
    ///
    /// The elements are rooted for the length of the call: if the call
    /// collects, the vector holds them as the collection redirected them.
    pub fn alloc_vector(&mut self, elements: &[Value])
        requires
            old(self).wf(),
            forall|i: int|
                0 <= i < elements@.len() ==> old(self).memory@.valid(#[trigger] elements@[i]),
            old(self).memory@.len() + elements@.len() + 2 <= MAX_WORDS,
        ensures
            final(self).wf(),
            final(self).allocated(
                old(self).memory,
                old(self).stack@,
                Value::header_spec(VECTOR_TAG as int, false, elements@.len() as int),
                padded(elements@),
            ),
    {
        let len: usize = elements.len();
        self.stack.extend(elements);
        let count: usize = if len == 0 {
            self.stack.push(Value { contents: 0 });
            1
        } else {
            len
        };
        proof {
            let n = old(self).stack@.len() as int;
            assert(self.stack@.take(n) =~= old(self).stack@);
            assert(self.stack@.skip(n) =~= padded(elements@));
        }
        self.build(Value::header(VECTOR_TAG, false, len), count);
    }
}

/// Performs a full garbage collection.
///
/// The semispaces swap roles, so that the retired one keeps the capacity
/// that the active one had. The new active one is reserved at one and a
/// half times the words that were in use. Every object that the stack
/// reaches is copied into it, every reference on the stack and in the copies
/// is redirected, and the retired semispace is emptied.
pub fn collect(heap: &mut Heap)
    requires
        old(heap).wf(),
    ensures
        final(heap).wf(),
        final(heap).laid_out_from(*old(heap)),
        exists|m: Map<int, int>| #[trigger] final(heap).collected_from(*old(heap), m),
        final(heap).memory.reserved() == grown(old(heap).memory@.len()),
        final(heap).memory.retired_reserved() == old(heap).memory.reserved(),
        final(heap).memory@.len() <= old(heap).memory@.len(),
        2 * final(heap).memory.reserved() >= 3 * final(heap).memory@.len(),
        old(heap).stack@.len() == 0 ==> final(heap).memory@.len() == 0,
        final(heap).keeps_roots_of(*old(heap)),
{
    let ghost source = heap.memory@;
    let ghost roots = heap.stack@;
    std::mem::swap(&mut heap.memory.tospace, &mut heap.memory.fromspace);
    let occupied: usize = heap.memory.fromspace.words.len();
    let capacity: usize = occupied + (occupied + 1) / 2;
    heap.memory.tospace.words.clear();
    heap.memory.tospace.words.reserve(capacity);
    heap.memory.tospace.capacity = capacity;
    proof {
        lemma_start(source, roots);
    }
    let Ghost(rooted) = scavange_stack(
        &mut heap.stack.innards,
        &mut heap.memory.tospace.words,
        &mut heap.memory.fromspace.words,
        Ghost(Cycle::start(source, roots)),
    );
    let Ghost(done) = scavange_heap(
        &mut heap.memory.tospace.words,
        &mut heap.memory.fromspace.words,
        Ghost(rooted),
    );
    proof {
        assert forall|i: int| 0 <= i < roots.len() implies (#[trigger] roots[i]).immediate()
            || done.fwd.dom().contains(roots[i].address()) by {}
        lemma_finish(done, heap.memory.tospace.words@, heap.memory.fromspace.words@);
        assert(heap.stack@ =~= forward_all(done.fwd, roots));
    }
    heap.memory.fromspace.words.clear();
    heap.memory.objects = Ghost(done.org.dom());
    proof {
        assert(heap.collected_from(*old(heap), done.fwd));
        if roots.len() == 0 {
            law_full_reclamation(source, heap.memory@, roots, done.fwd);
        }
        assert forall|i: int| 0 <= i < roots.len() implies {
            &&& (#[trigger] heap.stack@[i]).tag_bits() == roots[i].tag_bits()
            &&& heap.memory@.size_of(heap.stack@[i]) == source.size_of(roots[i])
        } by {
            if !roots[i].immediate() {
                lemma_root_reachable(source, roots, i);
            }
            law_shape_preserved(source, heap.memory@, roots, done.fwd, roots[i]);
        }
    }
}

} // verus!
