use vstd::prelude::*;

verus! {

/// implements a stack. Purely for semantic reasons.
#[derive(Debug)]
pub struct Stack<T> {
    item: Vec<T>,
}

impl<T> View for Stack<T> {
    type V = Seq<T>;

    /// The items, from the bottom of the stack to its top.
    closed spec fn view(&self) -> Seq<T> {
        self.item@
    }
}

impl<T> Stack<T> {
    /// An empty stack.
    pub fn new() -> (r: Self)
        ensures
            r@ == Seq::<T>::empty(),
    {
        Self { item: Vec::new() }
    }

    /// Puts `obj` on top.
    pub fn push(&mut self, obj: T)
        ensures
            final(self)@ == old(self)@.push(obj),
    {
        self.item.push(obj);
    }

    /// Takes the top item off, if there is one.
    pub fn pop(&mut self) -> (r: Option<T>)
        ensures
            old(self)@.len() == 0 ==> r is None && final(self)@ == old(self)@,
            old(self)@.len() > 0 ==> r == Some(old(self)@.last()) && final(self)@ == old(
                self,
            )@.drop_last(),
    {
        self.item.pop()
    }

    /// The top item, if there is one.
    pub fn peek(&self) -> (r: Option<&T>)
        ensures
            self@.len() == 0 ==> r is None,
            self@.len() > 0 ==> (r matches Some(x) && *x == self@.last()),
    {
        if self.item.len() == 0 {
            None
        } else {
            Some(&self.item[self.item.len() - 1])
        }
    }

    /// The items, from the bottom of the stack to its top.
    pub fn as_vec(&self) -> (r: &Vec<T>)
        ensures
            r@ == self@,
    {
        &self.item
    }

    /// A stack holding the items of `v`, the last on top.
    pub fn from_vec(v: Vec<T>) -> (r: Self)
        ensures
            r@ == v@,
    {
        Stack { item: v }
    }

    /// Whether the stack holds nothing.
    pub fn is_empty(&self) -> (r: bool)
        ensures
            r == (self@.len() == 0),
    {
        self.item.len() == 0
    }
}

impl<T> Default for Stack<T> {
    fn default() -> (r: Self)
        ensures
            r@ == Seq::<T>::empty(),
    {
        Self::new()
    }
}

/// Pushing an item and then popping gives that item back and leaves the
/// stack as it was.
pub proof fn law_stack_push_then_pop<T>(s: Seq<T>, x: T)
    ensures
        s.push(x).len() > 0,
        s.push(x).last() == x,
        s.push(x).drop_last() == s,
{
    assert(s.push(x).drop_last() =~= s);
}

} // verus!
