//! A stack of fixed capacity.

use vstd::prelude::*;

verus! {

/// The position that the next element goes to, on a stack of `len` positions with `depth` elements:
/// the first free one, or the last.
pub open spec fn push_position(len: nat, depth: nat) -> int {
    if depth < len {
        depth as int
    } else {
        len - 1
    }
}

/// A stack that never grows past its positions.
pub trait FastStack<T: Copy + Default> {
    /// What stands in each position, whether it is on the stack or not.
    spec fn slots(&self) -> Seq<T>;

    /// The number of elements on the stack. They stand in the first positions.
    spec fn depth(&self) -> nat;

    /// Whether there are positions, and no more elements than positions.
    spec fn usable(&self) -> bool;

    /// Pushes a value onto the stack. If the stack is full it will overwrite the value in the last
    /// position.
    fn push(&mut self, v: T)
        requires
            old(self).usable(),
        ensures
            final(self).usable(),
            final(self).slots() == old(self).slots().update(
                push_position(old(self).slots().len(), old(self).depth()),
                v,
            ),
            final(self).depth() == (if old(self).depth() < old(self).slots().len() {
                (old(self).depth() + 1) as nat
            } else {
                old(self).slots().len()
            }),
    ;

    /// Pops a value from the stack. If the stack is empty it will return the value in the first
    /// position.
    fn pop_fast(&mut self) -> (r: T)
        requires
            old(self).usable(),
        ensures
            final(self).usable(),
            final(self).slots() == old(self).slots(),
            final(self).depth() == (if old(self).depth() > 0 {
                (old(self).depth() - 1) as nat
            } else {
                0
            }),
            r == old(self).slots()[final(self).depth() as int],
    ;

    /// Pops a value from the stack.
    fn pop(&mut self) -> (r: Option<T>)
        requires
            old(self).usable(),
        ensures
            final(self).usable(),
            final(self).slots() == old(self).slots(),
            r is Some <==> old(self).depth() > 0,
            r is None ==> final(self).depth() == 0,
            r matches Some(v) ==> final(self).depth() == old(self).depth() - 1 && v
                == old(self).slots()[old(self).depth() - 1],
    ;

    /// Returns the number of elements in the stack.
    fn len(&self) -> (r: usize)
        requires
            self.usable(),
        ensures
            r == self.depth(),
    ;

    /// Returns true if the stack is empty.
    fn is_empty(&self) -> (r: bool)
        requires
            self.usable(),
        ensures
            r == (self.depth() == 0),
    ;

    /// Clears the stack, removing all elements.
    fn clear(&mut self)
        requires
            old(self).usable(),
        ensures
            final(self).usable(),
            final(self).slots() == old(self).slots(),
            final(self).depth() == 0,
    ;
}

/// A stack data structure implemented on the stack with fixed capacity.
pub struct StackStack<T: Copy + Default, const STACK_SIZE: usize> {
    data: [T; STACK_SIZE],
    index: usize,
}

impl<T: Copy + Default, const STACK_SIZE: usize> StackStack<T, STACK_SIZE> {
    /// A stack without elements, each position of which holds `filler`.
    pub fn filled_with(filler: T) -> (r: StackStack<T, STACK_SIZE>)
        ensures
            r.slots() == Seq::new(STACK_SIZE as nat, |i: int| filler),
            r.depth() == 0,
            STACK_SIZE > 0 ==> r.usable(),
    {
        let r: StackStack<T, STACK_SIZE> = StackStack { data: [filler; STACK_SIZE], index: 0 };
        assert(r.slots() =~= Seq::new(STACK_SIZE as nat, |i: int| filler));
        r
    }
}

impl<T: Copy + Default, const STACK_SIZE: usize> Default for StackStack<T, STACK_SIZE> {
    fn default() -> (r: StackStack<T, STACK_SIZE>)
        ensures
            exists|filler: T|
                #[trigger] call_ensures(T::default, (), filler) && r.slots() == Seq::new(
                    STACK_SIZE as nat,
                    |i: int| filler,
                ),
            r.depth() == 0,
            STACK_SIZE > 0 ==> r.usable(),
    {
        let filler: T = T::default();
        let r: StackStack<T, STACK_SIZE> = Self::filled_with(filler);
        assert(r.slots() == Seq::new(STACK_SIZE as nat, |i: int| filler));
        r
    }
}

impl<T: Copy + Default, const STACK_SIZE: usize> FastStack<T> for StackStack<T, STACK_SIZE> {
    closed spec fn slots(&self) -> Seq<T> {
        self.data@
    }

    closed spec fn depth(&self) -> nat {
        self.index as nat
    }

    open spec fn usable(&self) -> bool {
        0 < self.slots().len() && self.depth() <= self.slots().len()
    }

    #[inline(always)]
    fn push(&mut self, v: T) {
        let index: usize = if self.index < STACK_SIZE {
            self.index
        } else {
            STACK_SIZE - 1
        };
        self.data[index] = v;
        if self.index < STACK_SIZE {
            self.index = self.index + 1;
        }
    }

    #[inline(always)]
    fn pop_fast(&mut self) -> (r: T) {
        if self.index > 0 {
            self.index = self.index - 1;
        }
        self.data[self.index]
    }

    #[inline(always)]
    fn pop(&mut self) -> (r: Option<T>) {
        if self.index > 0 {
            self.index = self.index - 1;
            Some(self.data[self.index])
        } else {
            None
        }
    }

    #[inline(always)]
    fn len(&self) -> (r: usize) {
        self.index
    }

    #[inline(always)]
    fn is_empty(&self) -> (r: bool) {
        self.index == 0
    }

    #[inline(always)]
    fn clear(&mut self) {
        self.index = 0;
    }
}

/// A value that was pushed onto a stack is on top of it, above all that was on the stack before. A
/// full stack loses the element that was on top.
pub proof fn law_push_on_top<T: Copy + Default, S: FastStack<T>>(before: S, after: S, v: T)
    requires
        0 < before.slots().len(),
        before.depth() <= before.slots().len(),
        after.slots() == before.slots().update(
            push_position(before.slots().len(), before.depth()),
            v,
        ),
        after.depth() == (if before.depth() < before.slots().len() {
            (before.depth() + 1) as nat
        } else {
            before.slots().len()
        }),
    ensures
        after.slots()[after.depth() - 1] == v,
        after.slots().take(after.depth() - 1) == before.slots().take(after.depth() - 1),
        before.depth() < before.slots().len() ==> after.depth() - 1 == before.depth(),
        before.depth() == before.slots().len() ==> after.depth() == before.depth(),
{
    assert(after.slots().take(after.depth() - 1) =~= before.slots().take(after.depth() - 1));
}

} // verus!
