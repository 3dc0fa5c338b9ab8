//! What any heap of the runtime offers, whatever its way of collecting.

use vstd::prelude::*;
use crate::arena::lemma_root_reachable;
use crate::heap::{padded, raw, slots, Heap};
use crate::laws::law_allocation_keeps_roots;
use crate::value::{
    Value,
    CLOSURE_TAG,
    HASH_TABLE_TAG,
    MAX_WORDS,
    PAIR_HEADER,
    PAIR_TAG,
    RECORD_TAG,
    RUSTDATA_TAG,
    SIZEOF_PAIR,
    VECTOR_TAG,
};

verus! {

/// An allocator for Scheme objects.
///
/// Any operation may collect, and a collection finds live objects from the
/// roots alone. So every value handed to an operation must be rooted before
/// the call. Each operation leaves the reference to the new object on top of
/// the roots.
pub trait Allocator: Sized {
    /// Whether the allocator is in a state in which it can be asked.
    spec fn ready(&self) -> bool;

    /// The roots, the lowest first.
    spec fn roots(&self) -> Seq<Value>;

    /// Whether `v` is safe to hand over: an immediate, or a reference to an
    /// object that the roots reach.
    spec fn rooted(&self, v: Value) -> bool;

    /// Whether the allocator can hold `words` more words.
    spec fn fits(&self, words: int) -> bool;

    /// The number of words of the object that `v` refers to.
    spec fn words_of(&self, v: Value) -> int;

    /// Whether `self` is what the allocation of an object made of `header`
    /// and `payload` makes of the allocator `pre`.
    spec fn built(&self, pre: Self, header: Value, payload: Seq<Value>) -> bool;

    /// Allocates a vector that holds `elements`.
    fn alloc_vector(&mut self, elements: &[Value]) -> (vector: Value)
        requires
            old(self).ready(),
            forall|i: int| 0 <= i < elements@.len() ==> old(self).rooted(#[trigger] elements@[i]),
            old(self).fits(elements@.len() as int + 2),
        ensures
            final(self).ready(),
            final(self).roots().len() == old(self).roots().len() + 1,
            final(self).roots().last() == vector,
            forall|i: int|
                0 <= i < old(self).roots().len() ==> (#[trigger] final(self).roots()[i]).tag_bits()
                    == old(self).roots()[i].tag_bits(),
            final(self).rooted(vector),
            vector.tag_bits() == VECTOR_TAG,
            final(self).words_of(vector) == 1 + padded(elements@).len(),
            final(self).built(
                *old(self),
                Value::header_spec(VECTOR_TAG as int, false, elements@.len() as int),
                padded(elements@),
            ),
    ;

    /// Allocates a pair of `car` and `cdr`. The result is on top of the roots.
    fn alloc_pair(&mut self, car: Value, cdr: Value)
        requires
            old(self).ready(),
            old(self).rooted(car),
            old(self).rooted(cdr),
            old(self).fits(SIZEOF_PAIR as int),
        ensures
            final(self).ready(),
            final(self).roots().len() == old(self).roots().len() + 1,
            forall|i: int|
                0 <= i < old(self).roots().len() ==> (#[trigger] final(self).roots()[i]).tag_bits()
                    == old(self).roots()[i].tag_bits(),
            final(self).rooted(final(self).roots().last()),
            final(self).roots().last().tag_bits() == PAIR_TAG,
            final(self).words_of(final(self).roots().last()) == SIZEOF_PAIR,
            final(self).built(
                *old(self),
                Value { contents: PAIR_HEADER },
                seq![car, cdr],
            ),
    ;

    /// Allocates a closure that holds its bytecode object, then its upvalues.
    fn alloc_closure(&mut self, bytecode: Value, upvalues: &[Value]) -> (closure: Value)
        requires
            old(self).ready(),
            old(self).rooted(bytecode),
            forall|i: int| 0 <= i < upvalues@.len() ==> old(self).rooted(#[trigger] upvalues@[i]),
            old(self).fits(upvalues@.len() as int + 2),
        ensures
            final(self).ready(),
            final(self).roots().len() == old(self).roots().len() + 1,
            final(self).roots().last() == closure,
            forall|i: int|
                0 <= i < old(self).roots().len() ==> (#[trigger] final(self).roots()[i]).tag_bits()
                    == old(self).roots()[i].tag_bits(),
            final(self).rooted(closure),
            closure.tag_bits() == CLOSURE_TAG,
            final(self).words_of(closure) == 2 + upvalues@.len(),
            final(self).built(
                *old(self),
                Value::header_spec(CLOSURE_TAG as int, false, upvalues@.len() as int + 1),
                seq![bytecode] + upvalues@,
            ),
    ;

    /// Allocates a record that holds its descriptor, then its fields.
    fn alloc_record(&mut self, descriptor: Value, fields: &[Value]) -> (record: Value)
        requires
            old(self).ready(),
            old(self).rooted(descriptor),
            forall|i: int| 0 <= i < fields@.len() ==> old(self).rooted(#[trigger] fields@[i]),
            old(self).fits(fields@.len() as int + 2),
        ensures
            final(self).ready(),
            final(self).roots().len() == old(self).roots().len() + 1,
            final(self).roots().last() == record,
            forall|i: int|
                0 <= i < old(self).roots().len() ==> (#[trigger] final(self).roots()[i]).tag_bits()
                    == old(self).roots()[i].tag_bits(),
            final(self).rooted(record),
            record.tag_bits() == RECORD_TAG,
            final(self).words_of(record) == 2 + fields@.len(),
            final(self).built(
                *old(self),
                Value::header_spec(RECORD_TAG as int, false, fields@.len() as int + 1),
                seq![descriptor] + fields@,
            ),
    ;

    /// Allocates a hash table of `size` slots, all empty.
    fn alloc_hash_table(&mut self, size: usize) -> (table: Value)
        requires
            old(self).ready(),
            old(self).fits(size + 2),
        ensures
            final(self).ready(),
            final(self).roots().len() == old(self).roots().len() + 1,
            final(self).roots().last() == table,
            forall|i: int|
                0 <= i < old(self).roots().len() ==> (#[trigger] final(self).roots()[i]).tag_bits()
                    == old(self).roots()[i].tag_bits(),
            final(self).rooted(table),
            table.tag_bits() == HASH_TABLE_TAG,
            final(self).words_of(table) == 1 + padded(slots(size as int)).len(),
            final(self).built(
                *old(self),
                Value::header_spec(HASH_TABLE_TAG as int, false, size as int),
                padded(slots(size as int)),
            ),
    ;

    /// Allocates a port: a leaf that holds the handle of an open file.
    fn alloc_port(&mut self, handle: usize) -> (port: Value)
        requires
            old(self).ready(),
            old(self).fits(2),
        ensures
            final(self).ready(),
            final(self).roots().len() == old(self).roots().len() + 1,
            final(self).roots().last() == port,
            forall|i: int|
                0 <= i < old(self).roots().len() ==> (#[trigger] final(self).roots()[i]).tag_bits()
                    == old(self).roots()[i].tag_bits(),
            final(self).rooted(port),
            port.tag_bits() == RUSTDATA_TAG,
            final(self).words_of(port) == 2,
            final(self).built(
                *old(self),
                Value::header_spec(RUSTDATA_TAG as int, true, 1),
                seq![Value { contents: handle }],
            ),
    ;

    /// Allocates a rustdata: a leaf that holds the words of an arbitrary Rust
    /// object.
    fn alloc_rustdata(&mut self, object: &[usize]) -> (cell: Value)
        requires
            old(self).ready(),
            old(self).fits(object@.len() as int + 2),
        ensures
            final(self).ready(),
            final(self).roots().len() == old(self).roots().len() + 1,
            final(self).roots().last() == cell,
            forall|i: int|
                0 <= i < old(self).roots().len() ==> (#[trigger] final(self).roots()[i]).tag_bits()
                    == old(self).roots()[i].tag_bits(),
            final(self).rooted(cell),
            cell.tag_bits() == RUSTDATA_TAG,
            final(self).words_of(cell) == 1 + padded(raw(object@)).len(),
            final(self).built(
                *old(self),
                Value::header_spec(RUSTDATA_TAG as int, true, object@.len() as int),
                padded(raw(object@)),
            ),
    ;
}

impl Heap {
    /// The reference that an allocation has just put on top of the stack,
    /// with what the allocator's contract says of it.
    fn result(
        &self,
        Ghost(pre): Ghost<Heap>,
        Ghost(header): Ghost<Value>,
        Ghost(payload): Ghost<Seq<Value>>,
    ) -> (top: Value)
        requires
            pre.wf(),
            self.wf(),
            header.leaf() || forall|i: int|
                0 <= i < payload.len() ==> pre.memory@.valid(#[trigger] payload[i]),
            header.words() == 1 + payload.len(),
            header.kind() % 4 != 0,
            self.allocated(pre.memory, pre.stack@, header, payload),
        ensures
            self.wf(),
            self.stack@.len() == pre.stack@.len() + 1,
            self.stack@.last() == top,
            forall|i: int|
                0 <= i < pre.stack@.len() ==> (#[trigger] self.stack@[i]).tag_bits()
                    == pre.stack@[i].tag_bits(),
            self.rooted(top),
            top.tag_bits() == header.kind(),
            self.words_of(top) == header.words(),
    {
        proof {
            law_allocation_keeps_roots(pre.memory, *self, pre.stack@, header, payload);
            lemma_root_reachable(self.memory@, self.stack@, self.stack@.len() - 1);
        }
        self.stack.get(self.stack.len() - 1)
    }
}

impl Allocator for Heap {
    open spec fn ready(&self) -> bool {
        self.wf()
    }

    open spec fn roots(&self) -> Seq<Value> {
        self.stack@
    }

    open spec fn rooted(&self, v: Value) -> bool {
        self.memory@.valid(v) && (v.immediate() || self.memory@.reachable(self.stack@, v.address()))
    }

    open spec fn fits(&self, words: int) -> bool {
        self.memory@.len() + words <= MAX_WORDS
    }

    open spec fn words_of(&self, v: Value) -> int {
        self.memory@.size(v.address())
    }

    open spec fn built(&self, pre: Heap, header: Value, payload: Seq<Value>) -> bool {
        self.allocated(pre.memory, pre.stack@, header, payload)
    }

    fn alloc_vector(&mut self, elements: &[Value]) -> (vector: Value) {
        let ghost pre = *self;
        let ghost header = Value::header_spec(VECTOR_TAG as int, false, elements@.len() as int);
        Heap::alloc_vector(self, elements);
        self.result(Ghost(pre), Ghost(header), Ghost(padded(elements@)))
    }

    fn alloc_pair(&mut self, car: Value, cdr: Value) {
        let ghost pre = *self;
        let ghost payload = seq![car, cdr];
        Heap::alloc_pair(self, car, cdr);
        let _ = self.result(Ghost(pre), Ghost(Value { contents: PAIR_HEADER }), Ghost(payload));
    }

    fn alloc_closure(&mut self, bytecode: Value, upvalues: &[Value]) -> (closure: Value) {
        let ghost pre = *self;
        let ghost payload = seq![bytecode] + upvalues@;
        let count: usize = upvalues.len() + 1;
        self.stack.push(bytecode);
        self.stack.extend(upvalues);
        proof {
            let n = pre.stack@.len() as int;
            assert(self.stack@.take(n) =~= pre.stack@);
            assert(self.stack@.skip(n) =~= payload);
        }
        let header = Value::header(CLOSURE_TAG, false, count);
        self.build(header, count);
        self.result(Ghost(pre), Ghost(header), Ghost(payload))
    }

    fn alloc_record(&mut self, descriptor: Value, fields: &[Value]) -> (record: Value) {
        let ghost pre = *self;
        let ghost payload = seq![descriptor] + fields@;
        let count: usize = fields.len() + 1;
        self.stack.push(descriptor);
        self.stack.extend(fields);
        proof {
            let n = pre.stack@.len() as int;
            assert(self.stack@.take(n) =~= pre.stack@);
            assert(self.stack@.skip(n) =~= payload);
        }
        let header = Value::header(RECORD_TAG, false, count);
        self.build(header, count);
        self.result(Ghost(pre), Ghost(header), Ghost(payload))
    }

    fn alloc_hash_table(&mut self, size: usize) -> (table: Value) {
        let ghost pre = *self;
        let ghost payload = padded(slots(size as int));
        let count: usize = if size == 0 {
            1
        } else {
            size
        };
        let mut i: usize = 0;
        while i < count
            invariant
                i <= count,
                self.memory == pre.memory,
                self.stack@ == pre.stack@ + slots(i as int),
            decreases count - i,
        {
            self.stack.push(Value { contents: 0 });
            i += 1;
        }
        proof {
            let n = pre.stack@.len() as int;
            assert(self.stack@.take(n) =~= pre.stack@);
            assert(self.stack@.skip(n) =~= payload);
        }
        let header = Value::header(HASH_TABLE_TAG, false, size);
        self.build(header, count);
        self.result(Ghost(pre), Ghost(header), Ghost(payload))
    }

    fn alloc_port(&mut self, handle: usize) -> (port: Value) {
        let ghost pre = *self;
        let ghost payload = seq![Value { contents: handle }];
        let cell: [usize; 1] = [handle];
        let header = Value::header(RUSTDATA_TAG, true, 1);
        proof {
            assert(raw(cell@) =~= payload);
        }
        self.build_leaf(header, cell.as_slice());
        self.result(Ghost(pre), Ghost(header), Ghost(payload))
    }

    fn alloc_rustdata(&mut self, object: &[usize]) -> (cell: Value) {
        let ghost pre = *self;
        let ghost payload = padded(raw(object@));
        let header = Value::header(RUSTDATA_TAG, true, object.len());
        if object.len() == 0 {
            let unused: [usize; 1] = [0];
            proof {
                assert(raw(unused@) =~= payload);
            }
            self.build_leaf(header, unused.as_slice());
        } else {
            self.build_leaf(header, object);
        }
        self.result(Ghost(pre), Ghost(header), Ghost(payload))
    }
}

} // verus!
