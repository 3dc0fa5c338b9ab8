//! Tagged values and object headers.
//!
//! A [`Value`] is one machine word. Its three low bits are a tag. Two tags
//! mark immediate numbers; the other six mark references, whose remaining
//! bits are the word offset of an object header inside the active arena.
//!
//! The first word of every heap object is a header. Its three low bits repeat
//! the tag of the references to the object, the next bit marks a leaf (an
//! object whose payload holds raw data and no child values), and the bits
//! above hold the number of payload words. A word of zero in the place of a
//! header is the forwarding mark: the object has moved, and the word after it
//! holds the reference to its new place.

use vstd::prelude::*;

verus! {

/// Tag of an immediate number.
pub const NUM_TAG: usize = 0b000;

/// Tag of a reference to a vector.
pub const VECTOR_TAG: usize = 0b001;

/// Tag of a reference to a closure.
pub const CLOSURE_TAG: usize = 0b010;

/// Tag of a reference to a record.
pub const RECORD_TAG: usize = 0b011;

/// Second tag of an immediate number.
pub const NUM_TAG_2: usize = 0b100;

/// Tag of a reference to a hash table.
pub const HASH_TABLE_TAG: usize = 0b101;

/// Tag of a reference to a host object (a port or an opaque cell).
pub const RUSTDATA_TAG: usize = 0b110;

/// Tag of a reference to a pair.
pub const PAIR_TAG: usize = 0b111;

/// Mask of the tag bits of a word.
pub const TAG_MASK: usize = 0b111;

/// The word that replaces the header of an object that has moved. No legal
/// header is zero.
pub const FORWARDED: usize = 0;

/// Header bit of a leaf object.
pub const LEAF_FLAG: usize = 0b1000;

/// Number of words of a pair: header, car, cdr.
pub const SIZEOF_PAIR: usize = 3;

/// The header of every pair: two payload words, not a leaf, pair tag.
pub const PAIR_HEADER: usize = 0b10_0111;

/// The header of a vector without elements; the element count is added above
/// the four low bits.
pub const VECTOR_HEADER: usize = 0b0001;

/// The largest number of words an arena may hold. Every offset below it fits
/// in a reference, and every count below it fits in a header.
pub const MAX_WORDS: usize = usize::MAX / 16;

/// What the tag bits of a word say.
#[derive(Clone, Copy, Debug, PartialEq, Eq, Structural)]
pub enum Tags {
    Num,
    Vector,
    Closure,
    Record,
    Num2,
    HashTable,
    RustData,
    Pair,
}

/// One machine word: an immediate number, a reference, or an object header.
#[derive(Clone, Copy, Debug, PartialEq, Eq, Structural)]
pub struct Value {
    pub contents: usize,
}

impl Value {
    /// The three tag bits as a number.
    pub open spec fn tag_bits(self) -> int {
        self.contents as int % 8
    }

    /// The meaning of the tag bits.
    pub open spec fn tag_spec(self) -> Tags {
        let t = self.tag_bits();
        if t == 0 {
            Tags::Num
        } else if t == 1 {
            Tags::Vector
        } else if t == 2 {
            Tags::Closure
        } else if t == 3 {
            Tags::Record
        } else if t == 4 {
            Tags::Num2
        } else if t == 5 {
            Tags::HashTable
        } else if t == 6 {
            Tags::RustData
        } else {
            Tags::Pair
        }
    }

    /// An immediate number has its two low bits clear.
    pub open spec fn immediate(self) -> bool {
        self.contents as int % 4 == 0
    }

    /// The word offset a reference holds.
    pub open spec fn address(self) -> int {
        self.contents as int / 8
    }

    /// The reference with the given word offset and tag bits.
    pub open spec fn reference(address: int, tag: int) -> Value {
        Value { contents: (address * 8 + tag) as usize }
    }

    /// Read as a header: the tag of the references to the object.
    pub open spec fn kind(self) -> int {
        self.contents as int % 8
    }

    /// Read as a header: whether the object is a leaf.
    pub open spec fn leaf(self) -> bool {
        (self.contents as int / 8) % 2 == 1
    }

    /// Read as a header: the number of payload words the object declares.
    pub open spec fn count(self) -> int {
        self.contents as int / 16
    }

    /// Read as a header: the number of words the object occupies, header
    /// included. An object without payload still has one payload slot, so
    /// that a moved object always has room for its forwarding reference.
    pub open spec fn words(self) -> int {
        if self.count() == 0 {
            2
        } else {
            1 + self.count()
        }
    }

    /// A legal header carries the tag of a reference, and the header of a
    /// pair is always `PAIR_HEADER`. The forwarding mark is not legal.
    pub open spec fn legal_header(self) -> bool {
        &&& self.kind() % 4 != 0
        &&& self.kind() == PAIR_TAG ==> self.contents == PAIR_HEADER
    }

    /// The header with the given tag, leaf mark and payload count.
    pub open spec fn header_spec(tag: int, leaf: bool, count: int) -> Value {
        Value { contents: (count * 16 + (if leaf { 8int } else { 0int }) + tag) as usize }
    }

    /// Decodes the tag bits.
    pub fn tag(&self) -> (t: Tags)
        ensures
            t == self.tag_spec(),
    {
        let word: usize = self.contents;
        let bits: usize = word & TAG_MASK;
        assert(word & 0b111 == word % 8) by (bit_vector);
        if bits == NUM_TAG {
            Tags::Num
        } else if bits == VECTOR_TAG {
            Tags::Vector
        } else if bits == CLOSURE_TAG {
            Tags::Closure
        } else if bits == RECORD_TAG {
            Tags::Record
        } else if bits == NUM_TAG_2 {
            Tags::Num2
        } else if bits == HASH_TABLE_TAG {
            Tags::HashTable
        } else if bits == RUSTDATA_TAG {
            Tags::RustData
        } else {
            Tags::Pair
        }
    }

    /// Whether the word is an immediate number.
    pub fn is_immediate(&self) -> (b: bool)
        ensures
            b == self.immediate(),
    {
        let word: usize = self.contents;
        assert(word & 0b11 == word % 4) by (bit_vector);
        word & 0b11 == 0
    }

    /// The word offset held by a reference.
    pub fn offset(&self) -> (a: usize)
        ensures
            a == self.address(),
    {
        let word: usize = self.contents;
        assert(word >> 3 == word / 8) by (bit_vector);
        word >> 3
    }

    /// Builds the reference to the object at `address`, with tag bits `tag`.
    pub fn pointer(address: usize, tag: usize) -> (v: Value)
        requires
            address <= MAX_WORDS,
            tag < 8,
        ensures
            v == Value::reference(address as int, tag as int),
            v.address() == address,
            v.tag_bits() == tag,
    {
        Value { contents: address * 8 + tag }
    }

    /// The reference to the object that `self` refers to, with the tag bits
    /// of `other`.
    pub fn with_tag_of(&self, other: Value) -> (v: Value)
        ensures
            v == Value::reference(self.address(), other.tag_bits()),
    {
        let word: usize = self.contents;
        let tagged: usize = other.contents;
        assert((word & !0b111usize) | (tagged & 0b111usize) == (word / 8) * 8 + tagged % 8)
            by (bit_vector);
        Value { contents: (word & !TAG_MASK) | (tagged & TAG_MASK) }
    }

    /// Builds the header of an object with `count` payload words.
    pub fn header(tag: usize, leaf: bool, count: usize) -> (h: Value)
        requires
            tag < 8,
            count < MAX_WORDS,
        ensures
            h == Value::header_spec(tag as int, leaf, count as int),
            h.kind() == tag,
            h.leaf() == leaf,
            h.count() == count,
    {
        let flag: usize = if leaf { LEAF_FLAG } else { 0 };
        Value { contents: count * 16 + flag + tag }
    }

    /// Read as a header: whether the object's payload holds no child values,
    /// so that the collector copies it but does not look inside.
    pub fn leafp(&self) -> (b: bool)
        ensures
            b == self.leaf(),
    {
        let word: usize = self.contents;
        assert(word & 0b1000 != 0 <==> (word / 8) % 2 == 1) by (bit_vector);
        word & LEAF_FLAG != 0
    }

    /// Read as a header: whether the word is a legal header.
    pub fn is_legal_header(&self) -> (b: bool)
        ensures
            b == self.legal_header(),
    {
        let word: usize = self.contents;
        assert(word & 0b111 == word % 8) by (bit_vector);
        assert(word & 0b11 == 0 <==> (word % 8) % 4 == 0) by (bit_vector);
        word & 0b11 != 0 && (word & TAG_MASK != PAIR_TAG || word == PAIR_HEADER)
    }

    /// Read as a header: whether the word is the forwarding mark.
    pub fn is_forwarded(&self) -> (b: bool)
        ensures
            b == (self.contents == FORWARDED),
    {
        self.contents == FORWARDED
    }

    /// Read as a header: the number of words of the object, header included.
    pub fn header_words(&self) -> (n: usize)
        ensures
            n == self.words(),
    {
        let word: usize = self.contents;
        assert(word >> 4 == word / 16) by (bit_vector);
        let count: usize = word >> 4;
        if count == 0 {
            2
        } else {
            count + 1
        }
    }
}

} // verus!
