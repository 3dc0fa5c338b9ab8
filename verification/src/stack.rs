//! The stack of the runtime.

use vstd::prelude::*;
use crate::value::Value;

verus! {

/// Represents the stack: the interpreter's working storage, and the roots of
/// the collector.
#[derive(Debug)]
pub struct Stack {
    pub innards: Vec<Value>,
}

impl View for Stack {
    type V = Seq<Value>;

    open spec fn view(&self) -> Seq<Value> {
        self.innards@
    }
}

impl Stack {
    /// Number of values on the stack.
    pub fn len(&self) -> (n: usize)
        ensures
            n == self@.len(),
    {
        self.innards.len()
    }

    /// Puts a value on top of the stack.
    pub fn push(&mut self, value: Value)
        ensures
            final(self)@ == old(self)@.push(value),
    {
        self.innards.push(value);
    }

    /// Takes the top value off the stack; nothing if the stack is empty.
    pub fn pop(&mut self) -> (top: Option<Value>)
        ensures
            old(self)@.len() == 0 ==> top.is_none() && final(self)@ == old(self)@,
            old(self)@.len() > 0 ==> top == Some(old(self)@.last()) && final(self)@ == old(
                self,
            )@.drop_last(),
    {
        self.innards.pop()
    }

    /// The value at `index`, counted from the bottom.
    pub fn get(&self, index: usize) -> (value: Value)
        requires
            index < self@.len(),
        ensures
            value == self@[index as int],
    {
        self.innards[index]
    }

    /// Replaces the value at `index`, counted from the bottom.
    pub fn set(&mut self, index: usize, value: Value)
        requires
            index < old(self)@.len(),
        ensures
            final(self)@ == old(self)@.update(index as int, value),
    {
        self.innards[index] = value;
    }

    /// Puts `values` on the stack, the first lowest.
    pub fn extend(&mut self, values: &[Value])
        ensures
            final(self)@ == old(self)@ + values@,
    {
        let len: usize = values.len();
        let mut i: usize = 0;
        while i < len
            invariant
                i <= len,
                len == values@.len(),
                self@ == old(self)@ + values@.take(i as int),
            decreases len - i,
        {
            self.innards.push(values[i]);
            i += 1;
        }
    }
}

} // verus!
