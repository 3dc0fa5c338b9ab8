use scheme_heap::heap::{collect, Heap};
use scheme_heap::value::{Tags, Value};

const ZERO: Value = Value { contents: 0 };

fn chain(heap: &mut Heap, links: usize) {
    heap.alloc_pair(ZERO, ZERO);
    for _ in 1..links {
        let previous = heap.stack.get(0);
        heap.alloc_pair(previous, previous);
        let top = heap.stack.pop().unwrap();
        heap.stack.set(0, top);
    }
}

#[test]
fn collection_keeps_the_shape_of_a_chain() {
    let links: usize = 100;
    let mut heap = Heap::new(16);
    chain(&mut heap, links);
    collect(&mut heap);
    assert_eq!(heap.memory.len(), 3 * links);
    let mut current = heap.stack.get(0);
    for _ in 1..links {
        assert_eq!(current.tag(), Tags::Pair);
        assert_eq!(current.size(&heap.memory), Some(3));
        let car = heap.memory.car(current);
        assert_eq!(heap.memory.cdr(current), car);
        current = car;
    }
    assert_eq!(current.tag(), Tags::Pair);
    assert_eq!(current.size(&heap.memory), Some(3));
    assert_eq!(heap.memory.car(current), ZERO);
    assert_eq!(heap.memory.cdr(current), ZERO);
}

#[test]
fn collection_copies_in_breadth_first_order() {
    let mut heap = Heap::new(16);
    heap.alloc_pair(Value { contents: 4 }, Value { contents: 8 });
    heap.alloc_pair(Value { contents: 12 }, Value { contents: 16 });
    let first = heap.stack.get(0);
    let second = heap.stack.get(1);
    heap.alloc_pair(second, first);
    let top = heap.stack.pop().unwrap();
    heap.stack.pop();
    heap.stack.set(0, top);
    collect(&mut heap);
    let root = heap.stack.get(0);
    assert_eq!(root, Value { contents: 7 });
    assert_eq!(heap.memory.car(root), Value { contents: 3 * 8 + 7 });
    assert_eq!(heap.memory.cdr(root), Value { contents: 6 * 8 + 7 });
    assert_eq!(heap.memory.car(heap.memory.car(root)), Value { contents: 12 });
    assert_eq!(heap.memory.cdr(heap.memory.car(root)), Value { contents: 16 });
    assert_eq!(heap.memory.car(heap.memory.cdr(root)), Value { contents: 4 });
    assert_eq!(heap.memory.cdr(heap.memory.cdr(root)), Value { contents: 8 });
}

#[test]
fn collection_frees_everything_without_roots() {
    let mut heap = Heap::new(16);
    chain(&mut heap, 10);
    heap.stack.pop();
    assert_eq!(heap.stack.len(), 0);
    collect(&mut heap);
    assert_eq!(heap.memory.len(), 0);
    assert_eq!(heap.memory.capacity(), 45);
}

#[test]
fn collection_frees_everything_when_roots_are_numbers() {
    let mut heap = Heap::new(16);
    chain(&mut heap, 4);
    heap.stack.set(0, Value { contents: 400 });
    heap.stack.push(Value { contents: 4 });
    collect(&mut heap);
    assert_eq!(heap.memory.len(), 0);
    assert_eq!(heap.stack.len(), 2);
    assert_eq!(heap.stack.get(0), Value { contents: 400 });
    assert_eq!(heap.stack.get(1), Value { contents: 4 });
}

#[test]
fn collection_frees_what_the_roots_do_not_reach() {
    let mut heap = Heap::new(64);
    heap.alloc_pair(ZERO, ZERO);
    heap.alloc_pair(Value { contents: 4 }, Value { contents: 8 });
    heap.alloc_pair(ZERO, ZERO);
    let kept = heap.stack.get(1);
    heap.stack.pop();
    heap.stack.pop();
    heap.stack.set(0, kept);
    assert_eq!(heap.memory.len(), 9);
    collect(&mut heap);
    assert_eq!(heap.memory.len(), 3);
    let root = heap.stack.get(0);
    assert_eq!(root, Value { contents: 7 });
    assert_eq!(heap.memory.car(root), Value { contents: 4 });
    assert_eq!(heap.memory.cdr(root), Value { contents: 8 });
}

#[test]
fn collection_leaves_nothing_dangling() {
    let mut heap = Heap::new(16);
    chain(&mut heap, 50);
    let elements = vec![heap.stack.get(0), ZERO, heap.stack.get(0)];
    heap.alloc_vector(&elements);
    collect(&mut heap);
    assert!(heap.memory.is_consistent());
    let len = heap.memory.len();
    let mut pending = vec![heap.stack.get(0), heap.stack.get(1)];
    let mut visited: usize = 0;
    while let Some(value) = pending.pop() {
        visited += 1;
        assert!(visited <= 1000);
        let tag = value.tag();
        if tag == Tags::Num || tag == Tags::Num2 {
            continue;
        }
        let size = value.size(&heap.memory).unwrap();
        assert!(value.offset() + size <= len);
        if tag == Tags::Pair {
            pending.push(heap.memory.car(value));
        } else {
            assert_eq!(tag, Tags::Vector);
            pending.push(heap.memory.field(value, 2).unwrap());
        }
    }
}

#[test]
fn collection_keeps_shared_objects_shared() {
    let mut heap = Heap::new(16);
    heap.alloc_pair(Value { contents: 4 }, Value { contents: 8 });
    let shared = heap.stack.get(0);
    heap.stack.push(shared);
    heap.alloc_pair(shared, shared);
    collect(&mut heap);
    assert_eq!(heap.memory.len(), 6);
    assert_eq!(heap.stack.get(0), heap.stack.get(1));
    let outer = heap.stack.get(2);
    assert_eq!(heap.memory.car(outer), heap.stack.get(0));
    assert_eq!(heap.memory.cdr(outer), heap.stack.get(0));
}

#[test]
fn collection_reserves_one_and_a_half_times_what_was_in_use() {
    let mut heap = Heap::new(16);
    chain(&mut heap, 5);
    assert_eq!(heap.memory.len(), 15);
    let before = heap.memory.capacity();
    collect(&mut heap);
    assert_eq!(heap.memory.len(), 15);
    assert_eq!(heap.memory.capacity(), 23);
    assert_eq!(heap.memory.retired_capacity(), before);
    assert!(2 * heap.memory.capacity() >= 3 * heap.memory.len());
    heap.alloc_pair(ZERO, ZERO);
    heap.alloc_pair(ZERO, ZERO);
    heap.stack.pop();
    heap.stack.pop();
    assert_eq!(heap.memory.len(), 21);
    collect(&mut heap);
    assert_eq!(heap.memory.len(), 15);
    assert_eq!(heap.memory.capacity(), 32);
    assert!(2 * heap.memory.capacity() >= 3 * heap.memory.len());
}

#[test]
fn collection_of_an_empty_heap_reserves_nothing() {
    let mut heap = Heap::new(16);
    collect(&mut heap);
    assert_eq!(heap.memory.len(), 0);
    assert_eq!(heap.memory.capacity(), 0);
}

#[test]
fn collection_twice_changes_nothing_more() {
    let mut heap = Heap::new(16);
    chain(&mut heap, 7);
    collect(&mut heap);
    let root = heap.stack.get(0);
    let len = heap.memory.len();
    collect(&mut heap);
    assert_eq!(heap.stack.get(0), root);
    assert_eq!(heap.memory.len(), len);
}
