use scheme_heap::heap::Heap;
use scheme_heap::stack::Stack;
use scheme_heap::value::{
    Tags, Value, CLOSURE_TAG, HASH_TABLE_TAG, FORWARDED, LEAF_FLAG, MAX_WORDS, NUM_TAG, NUM_TAG_2,
    PAIR_HEADER, PAIR_TAG, RECORD_TAG, RUSTDATA_TAG, SIZEOF_PAIR, TAG_MASK, VECTOR_HEADER,
    VECTOR_TAG,
};

#[test]
fn every_tag_decodes() {
    let base: usize = 5 * 8;
    assert_eq!(Value { contents: base + NUM_TAG }.tag(), Tags::Num);
    assert_eq!(Value { contents: base + VECTOR_TAG }.tag(), Tags::Vector);
    assert_eq!(Value { contents: base + CLOSURE_TAG }.tag(), Tags::Closure);
    assert_eq!(Value { contents: base + RECORD_TAG }.tag(), Tags::Record);
    assert_eq!(Value { contents: base + NUM_TAG_2 }.tag(), Tags::Num2);
    assert_eq!(Value { contents: base + HASH_TABLE_TAG }.tag(), Tags::HashTable);
    assert_eq!(Value { contents: base + RUSTDATA_TAG }.tag(), Tags::RustData);
    assert_eq!(Value { contents: base + PAIR_TAG }.tag(), Tags::Pair);
    assert_eq!(Value { contents: usize::MAX }.tag(), Tags::Pair);
    assert_eq!(Value { contents: 0 }.tag(), Tags::Num);
}

#[test]
fn immediates_have_two_low_bits_clear() {
    assert!(Value { contents: 0 }.is_immediate());
    assert!(Value { contents: 4 }.is_immediate());
    assert!(Value { contents: 8 }.is_immediate());
    assert!(Value { contents: usize::MAX - 3 }.is_immediate());
    assert!(!Value { contents: 1 }.is_immediate());
    assert!(!Value { contents: 2 }.is_immediate());
    assert!(!Value { contents: 3 }.is_immediate());
    assert!(!Value { contents: 7 }.is_immediate());
    assert!(!Value { contents: usize::MAX }.is_immediate());
}

#[test]
fn pointer_packs_offset_and_tag() {
    let value = Value::pointer(5, PAIR_TAG);
    assert_eq!(value.contents, 47);
    assert_eq!(value.offset(), 5);
    assert_eq!(value.tag(), Tags::Pair);
    let far = Value::pointer(MAX_WORDS, VECTOR_TAG);
    assert_eq!(far.offset(), MAX_WORDS);
    assert_eq!(far.tag(), Tags::Vector);
    assert_eq!(Value::pointer(0, CLOSURE_TAG).contents, 2);
}

#[test]
fn header_packs_tag_leaf_and_count() {
    let header = Value::header(RECORD_TAG, false, 9);
    assert_eq!(header.contents, 9 * 16 + 3);
    assert_eq!(header.header_words(), 10);
    assert!(!header.leafp());
    assert!(header.is_legal_header());
    let leaf = Value::header(RUSTDATA_TAG, true, 2);
    assert_eq!(leaf.contents, 2 * 16 + 8 + 6);
    assert_eq!(leaf.contents & LEAF_FLAG, LEAF_FLAG);
    assert_eq!(leaf.header_words(), 3);
    assert!(leaf.leafp());
    assert!(leaf.is_legal_header());
    assert_eq!(leaf.contents & TAG_MASK, RUSTDATA_TAG);
}

#[test]
fn header_without_payload_has_two_words() {
    assert_eq!(Value { contents: VECTOR_HEADER }.header_words(), 2);
    assert_eq!(Value::header(VECTOR_TAG, false, 0).header_words(), 2);
    assert_eq!(Value::header(VECTOR_TAG, false, 1).header_words(), 2);
    assert_eq!(Value::header(VECTOR_TAG, false, 2).header_words(), 3);
}

#[test]
fn forwarding_mark_is_no_legal_header() {
    let mark = Value { contents: FORWARDED };
    assert!(mark.is_forwarded());
    assert!(!mark.is_legal_header());
    assert!(!Value { contents: PAIR_HEADER }.is_forwarded());
}

#[test]
fn legal_headers_carry_a_reference_tag() {
    assert!(!Value { contents: 16 }.is_legal_header());
    assert!(!Value { contents: 16 + 4 }.is_legal_header());
    assert!(Value { contents: 16 + 1 }.is_legal_header());
    assert!(Value { contents: 16 + 5 }.is_legal_header());
    assert!(Value { contents: PAIR_HEADER }.is_legal_header());
    assert!(!Value { contents: 16 + 7 }.is_legal_header());
    assert!(!Value { contents: PAIR_HEADER + 8 }.is_legal_header());
    assert_eq!(SIZEOF_PAIR, 3);
}

#[test]
fn size_is_nothing_for_immediates_and_strays() {
    let mut heap = Heap::new(16);
    heap.alloc_pair(Value { contents: 0 }, Value { contents: 0 });
    assert_eq!(Value { contents: 0 }.size(&heap.memory), None);
    assert_eq!(Value { contents: 44 }.size(&heap.memory), None);
    assert_eq!(Value { contents: 3 * 8 + 7 }.size(&heap.memory), None);
    assert_eq!(Value { contents: 7 }.size(&heap.memory), Some(3));
}

#[test]
fn field_is_nothing_outside_the_object() {
    let mut heap = Heap::new(16);
    heap.alloc_pair(Value { contents: 4 }, Value { contents: 8 });
    let pair = heap.stack.get(0);
    assert_eq!(heap.memory.field(pair, 0), None);
    assert_eq!(heap.memory.field(pair, 1), Some(Value { contents: 4 }));
    assert_eq!(heap.memory.field(pair, 2), Some(Value { contents: 8 }));
    assert_eq!(heap.memory.field(pair, 3), None);
    assert_eq!(heap.memory.field(pair, usize::MAX), None);
    assert_eq!(heap.memory.field(Value { contents: 4 }, 1), None);
    assert_eq!(heap.memory.field(Value { contents: 5 * 8 + 7 }, 1), None);
}

#[test]
fn stack_pushes_and_pops() {
    let mut stack = Stack { innards: Vec::new() };
    assert_eq!(stack.len(), 0);
    assert_eq!(stack.pop(), None);
    stack.push(Value { contents: 4 });
    stack.push(Value { contents: 8 });
    assert_eq!(stack.len(), 2);
    assert_eq!(stack.get(0), Value { contents: 4 });
    assert_eq!(stack.get(1), Value { contents: 8 });
    stack.set(0, Value { contents: 12 });
    assert_eq!(stack.get(0), Value { contents: 12 });
    assert_eq!(stack.pop(), Some(Value { contents: 8 }));
    assert_eq!(stack.pop(), Some(Value { contents: 12 }));
    assert_eq!(stack.pop(), None);
    assert_eq!(stack.len(), 0);
}

#[test]
fn stack_extends_in_order() {
    let mut stack = Stack { innards: vec![Value { contents: 4 }] };
    stack.extend(&[Value { contents: 8 }, Value { contents: 12 }]);
    assert_eq!(stack.len(), 3);
    assert_eq!(stack.get(0), Value { contents: 4 });
    assert_eq!(stack.get(1), Value { contents: 8 });
    assert_eq!(stack.get(2), Value { contents: 12 });
    stack.extend(&[]);
    assert_eq!(stack.len(), 3);
}

#[test]
fn with_tag_of_swaps_the_tag_only() {
    let stored = Value { contents: 9 * 8 + 7 };
    assert_eq!(stored.with_tag_of(Value { contents: 1 }), Value { contents: 9 * 8 + 1 });
    assert_eq!(stored.with_tag_of(Value { contents: 400 * 8 + 5 }), Value { contents: 9 * 8 + 5 });
    assert_eq!(stored.with_tag_of(stored), stored);
}

#[test]
fn header_tells_kind_size_and_leaf() {
    let mut heap = Heap::new(16);
    heap.alloc_pair(Value { contents: 0 }, Value { contents: 0 });
    heap.alloc_vector(&[Value { contents: 4 }, Value { contents: 8 }, Value { contents: 12 }]);
    let pair = heap.memory.header(heap.stack.get(0)).unwrap();
    assert_eq!(pair.contents, PAIR_HEADER);
    assert!(!pair.leafp());
    let vector = heap.memory.header(heap.stack.get(1)).unwrap();
    assert_eq!(vector.contents, VECTOR_HEADER + 3 * 16);
    assert_eq!(vector.header_words(), 4);
    assert_eq!(vector.tag(), Tags::Vector);
    assert!(!vector.leafp());
    assert_eq!(heap.memory.header(Value { contents: 8 }), None);
    assert_eq!(heap.memory.header(Value { contents: 7 * 8 + 1 }), None);
}
