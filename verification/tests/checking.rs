use scheme_heap::check::{consistency_check, is_consistent};
use scheme_heap::heap::{collect, Heap};
use scheme_heap::value::{Value, FORWARDED, PAIR_HEADER};

const ZERO: Value = Value { contents: 0 };
const PAIR: Value = Value { contents: PAIR_HEADER };

#[test]
fn empty_semispace_is_consistent() {
    assert!(is_consistent(&Vec::new()));
}

#[test]
fn sound_objects_are_consistent() {
    let heap = vec![
        PAIR,
        ZERO,
        Value { contents: 4 },
        PAIR,
        Value { contents: 7 },
        Value { contents: 3 * 8 + 7 },
    ];
    assert!(is_consistent(&heap));
}

#[test]
fn zero_header_is_inconsistent() {
    let heap = vec![Value { contents: FORWARDED }, ZERO, ZERO];
    assert!(!is_consistent(&heap));
}

#[test]
fn header_with_a_number_tag_is_inconsistent() {
    let heap = vec![Value { contents: 2 * 16 + 4 }, ZERO, ZERO];
    assert!(!is_consistent(&heap));
}

#[test]
fn object_past_the_end_is_inconsistent() {
    let heap = vec![PAIR, ZERO];
    assert!(!is_consistent(&heap));
    let vector = vec![Value::header(1, false, 3), ZERO, ZERO];
    assert!(!is_consistent(&vector));
}

#[test]
fn reference_out_of_range_is_inconsistent() {
    let heap = vec![PAIR, ZERO, Value { contents: 3 * 8 + 7 }];
    assert!(!is_consistent(&heap));
}

#[test]
fn pair_reference_to_another_header_is_inconsistent() {
    let heap = vec![PAIR, Value { contents: 3 * 8 + 7 }, ZERO, Value::header(1, false, 1), ZERO];
    assert!(!is_consistent(&heap));
    let right = vec![PAIR, Value { contents: 3 * 8 + 1 }, ZERO, Value::header(1, false, 1), ZERO];
    assert!(is_consistent(&right));
}

#[test]
fn reference_to_an_object_that_runs_over_is_inconsistent() {
    let heap = vec![Value::header(1, false, 1), Value { contents: 1 * 8 + 7 }, ZERO];
    assert!(!is_consistent(&heap));
}

#[test]
fn leaves_are_not_looked_into() {
    let stray = Value { contents: 400 * 8 + 7 };
    let heap = vec![Value::header(6, true, 2), stray, Value { contents: 3 }];
    assert!(is_consistent(&heap));
    let open = vec![Value::header(1, false, 2), stray, Value { contents: 3 }];
    assert!(!is_consistent(&open));
}

#[test]
fn heap_is_consistent_before_and_after_collection() {
    let mut heap = Heap::new(8);
    heap.alloc_pair(ZERO, ZERO);
    let first = heap.stack.get(0);
    heap.alloc_vector(&[first, first]);
    heap.alloc_pair(heap.stack.get(1), heap.stack.get(0));
    assert!(heap.memory.is_consistent());
    collect(&mut heap);
    assert!(heap.memory.is_consistent());
}

#[test]
fn reference_into_the_middle_of_an_object_is_inconsistent() {
    let heap = vec![
        Value { contents: 65 },
        ZERO,
        ZERO,
        ZERO,
        Value { contents: 39 },
        Value { contents: 94 },
        ZERO,
        ZERO,
        ZERO,
        ZERO,
        ZERO,
    ];
    assert!(!is_consistent(&heap));
    let inside = vec![PAIR, Value { contents: 1 * 8 + 7 }, PAIR, ZERO, ZERO];
    assert!(!is_consistent(&inside));
}

#[test]
fn reference_to_a_later_object_is_consistent() {
    let heap = vec![PAIR, Value { contents: 3 * 8 + 1 }, ZERO, Value::header(1, false, 0), ZERO];
    assert!(is_consistent(&heap));
}

#[test]
fn check_of_a_consistent_semispace_returns() {
    let heap = vec![PAIR, ZERO, Value { contents: 7 }];
    assert!(is_consistent(&heap));
    consistency_check(&heap);
    let mut grown = Heap::new(4);
    grown.alloc_pair(ZERO, ZERO);
    grown.alloc_vector(&[grown.stack.get(0)]);
    collect(&mut grown);
    assert!(grown.memory.is_consistent());
    grown.memory.consistency_check();
}
