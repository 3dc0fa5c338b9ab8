use scheme_heap::allocator::Allocator;
use scheme_heap::heap::{collect, Heap};
use scheme_heap::value::{Tags, Value};

const ZERO: Value = Value { contents: 0 };

#[test]
fn allocator_returns_the_top_of_the_stack() {
    let mut heap = Heap::new(32);
    let vector = Allocator::alloc_vector(&mut heap, &[ZERO, Value { contents: 4 }]);
    assert_eq!(heap.stack.len(), 1);
    assert_eq!(heap.stack.get(0), vector);
    assert_eq!(vector.tag(), Tags::Vector);
    assert_eq!(vector.size(&heap.memory), Some(3));
    Allocator::alloc_pair(&mut heap, vector, vector);
    assert_eq!(heap.stack.len(), 2);
    assert_eq!(heap.stack.get(1).tag(), Tags::Pair);
    assert_eq!(heap.memory.car(heap.stack.get(1)), vector);
}

#[test]
fn closure_holds_bytecode_then_upvalues() {
    let mut heap = Heap::new(32);
    heap.alloc_pair(ZERO, ZERO);
    let code = heap.stack.get(0);
    let closure = heap.alloc_closure(code, &[Value { contents: 4 }, Value { contents: 8 }]);
    assert_eq!(closure.tag(), Tags::Closure);
    assert_eq!(closure, Value { contents: 3 * 8 + 2 });
    assert_eq!(closure.size(&heap.memory), Some(4));
    assert_eq!(heap.memory.field(closure, 1), Some(code));
    assert_eq!(heap.memory.field(closure, 2), Some(Value { contents: 4 }));
    assert_eq!(heap.memory.field(closure, 3), Some(Value { contents: 8 }));
    assert_eq!(heap.stack.get(1), closure);
}

#[test]
fn record_holds_descriptor_then_fields() {
    let mut heap = Heap::new(32);
    let record = heap.alloc_record(Value { contents: 12 }, &[Value { contents: 4 }]);
    assert_eq!(record.tag(), Tags::Record);
    assert_eq!(record, Value { contents: 3 });
    assert_eq!(record.size(&heap.memory), Some(3));
    assert_eq!(heap.memory.field(record, 1), Some(Value { contents: 12 }));
    assert_eq!(heap.memory.field(record, 2), Some(Value { contents: 4 }));
}

#[test]
fn hash_table_starts_with_empty_slots() {
    let mut heap = Heap::new(32);
    let table = heap.alloc_hash_table(4);
    assert_eq!(table.tag(), Tags::HashTable);
    assert_eq!(table, Value { contents: 5 });
    assert_eq!(table.size(&heap.memory), Some(5));
    assert_eq!(heap.memory.len(), 5);
    for slot in 1..5 {
        assert_eq!(heap.memory.field(table, slot), Some(ZERO));
    }
    let none = heap.alloc_hash_table(0);
    assert_eq!(none.size(&heap.memory), Some(2));
    assert_eq!(heap.memory.len(), 7);
}

#[test]
fn port_is_a_leaf_that_holds_its_handle() {
    let mut heap = Heap::new(32);
    let port = heap.alloc_port(31);
    assert_eq!(port.tag(), Tags::RustData);
    assert_eq!(port, Value { contents: 6 });
    assert_eq!(port.size(&heap.memory), Some(2));
    assert_eq!(heap.memory.field(port, 1), Some(Value { contents: 31 }));
    collect(&mut heap);
    let moved = heap.stack.get(0);
    assert_eq!(heap.memory.len(), 2);
    assert_eq!(heap.memory.field(moved, 1), Some(Value { contents: 31 }));
    assert!(heap.memory.is_consistent());
}

#[test]
fn rustdata_is_copied_and_not_followed() {
    let mut heap = Heap::new(32);
    heap.alloc_pair(ZERO, ZERO);
    heap.alloc_pair(ZERO, ZERO);
    heap.stack.pop();
    heap.stack.pop();
    let cell = heap.alloc_rustdata(&[7, 31, 0]);
    assert_eq!(cell.tag(), Tags::RustData);
    assert_eq!(cell.size(&heap.memory), Some(4));
    assert_eq!(heap.memory.len(), 10);
    collect(&mut heap);
    let moved = heap.stack.get(0);
    assert_eq!(moved, Value { contents: 6 });
    assert_eq!(heap.memory.len(), 4);
    assert_eq!(heap.memory.field(moved, 1), Some(Value { contents: 7 }));
    assert_eq!(heap.memory.field(moved, 2), Some(Value { contents: 31 }));
    assert_eq!(heap.memory.field(moved, 3), Some(ZERO));
}

#[test]
fn empty_rustdata_takes_two_words() {
    let mut heap = Heap::new(32);
    let cell = heap.alloc_rustdata(&[]);
    assert_eq!(cell.size(&heap.memory), Some(2));
    assert_eq!(heap.memory.field(cell, 1), Some(ZERO));
}

#[test]
fn leaf_that_does_not_fit_collects_first() {
    let mut heap = Heap::new(4);
    heap.alloc_pair(ZERO, ZERO);
    let pair = heap.stack.get(0);
    let cell = heap.alloc_rustdata(&[pair.contents, 15]);
    assert_eq!(heap.stack.len(), 2);
    assert_eq!(heap.memory.len(), 6);
    assert_eq!(heap.memory.capacity(), 6);
    assert_eq!(cell, Value { contents: 3 * 8 + 6 });
    assert_eq!(heap.stack.get(0), Value { contents: 7 });
    assert_eq!(heap.memory.field(cell, 1), Some(pair));
    assert_eq!(heap.memory.field(cell, 2), Some(Value { contents: 15 }));
}

#[test]
fn closure_that_does_not_fit_collects_first() {
    let mut heap = Heap::new(4);
    heap.alloc_pair(Value { contents: 4 }, ZERO);
    let pair = heap.stack.get(0);
    let closure = heap.alloc_closure(pair, &[pair]);
    assert_eq!(heap.stack.len(), 2);
    assert_eq!(heap.stack.get(1), closure);
    assert_eq!(closure, Value { contents: 3 * 8 + 2 });
    assert_eq!(heap.memory.len(), 6);
    let code = heap.memory.field(closure, 1).unwrap();
    assert_eq!(code, Value { contents: 7 });
    assert_eq!(code, heap.stack.get(0));
    assert_eq!(heap.memory.field(closure, 2), Some(code));
    assert_eq!(heap.memory.car(code), Value { contents: 4 });
}
