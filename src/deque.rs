use std::rc::Rc;
use vstd::prelude::*;

use crate::list::{List, ListIterator};

verus! {

/// A persistent double-ended queue: the elements of `head` in order, then those of `tail`
/// in reverse order.
pub struct Deque<T> {
    head: List<T>,
    tail: List<T>,
}

/// Neither side is empty unless the whole queue holds at most one element.
pub open spec fn balanced(head_len: nat, tail_len: nat) -> bool {
    (head_len == 0 || tail_len == 0) ==> head_len + tail_len <= 1
}

impl<T> View for Deque<T> {
    type V = Seq<T>;

    /// The elements front to back.
    closed spec fn view(&self) -> Seq<T> {
        self.head@ + self.tail@.reverse()
    }
}

impl<T> Clone for Deque<T> {
    /// Another handle on the same nodes.
    fn clone(&self) -> (r: Self)
        ensures
            r@ == self@,
    {
        proof { use_type_invariant(self); }
        Deque { head: self.head.clone(), tail: self.tail.clone() }
    }
}

impl<T> Default for Deque<T> {
    fn default() -> (r: Self)
        ensures
            r@ == Seq::<T>::empty(),
    {
        Deque::new()
    }
}

impl<T> Deque<T> {
    #[verifier::type_invariant]
    spec fn inv(self) -> bool {
        &&& balanced(self.head@.len(), self.tail@.len())
        &&& self.head@.len() + self.tail@.len() <= usize::MAX
    }

    /// The split of the elements between the two sides is balanced.
    pub closed spec fn is_balanced(&self) -> bool {
        balanced(self.head@.len(), self.tail@.len())
    }

    pub fn new() -> (r: Self)
        ensures
            r@ == Seq::<T>::empty(),
            r.is_balanced(),
    {
        let r = Deque { head: List::new(), tail: List::new() };
        proof { use_type_invariant(&r); }
        r
    }

    /// A deque holding `head` followed by `tail` reversed, with the elements moved so that
    /// an empty side is refilled from the other one.
    fn balance(head: List<T>, tail: List<T>) -> (r: Self)
        requires
            head@.len() + tail@.len() <= usize::MAX,
        ensures
            r@ == head@ + tail@.reverse(),
            r.is_balanced(),
            head@.len() > 0 && tail@.len() > 0 ==> r.head@ == head@ && r.tail@ == tail@,
    {
        if head.is_empty() {
            let (new_tail, rev_head) = tail.split();
            let new_head = rev_head.reverse();
            proof {
                assert(tail@ == new_tail@ + rev_head@);
                assert(tail@.reverse() =~= rev_head@.reverse() + new_tail@.reverse());
                assert(head@ + tail@.reverse() =~= new_head@ + new_tail@.reverse());
            }
            let r = Deque { head: new_head, tail: new_tail };
            proof { use_type_invariant(&r); }
            r
        } else if tail.is_empty() {
            let (new_head, rev_tail) = head.split();
            let new_tail = rev_tail.reverse();
            proof {
                assert(new_tail@.reverse() =~= rev_tail@);
                assert(head@ + tail@.reverse() =~= new_head@ + new_tail@.reverse());
            }
            let r = Deque { head: new_head, tail: new_tail };
            proof { use_type_invariant(&r); }
            r
        } else {
            let r = Deque { head, tail };
            proof { use_type_invariant(&r); }
            r
        }
    }

    pub fn is_empty(&self) -> (r: bool)
        ensures
            r == (self@.len() == 0),
    {
        self.length() == 0
    }

    pub fn length(&self) -> (r: usize)
        ensures
            r == self@.len(),
    {
        proof { use_type_invariant(self); }
        self.head.length() + self.tail.length()
    }

    /// A new version with `value` in front.
    pub fn push_front(&self, value: T) -> (r: Self)
        requires
            self@.len() < usize::MAX,
        ensures
            r@ == seq![value] + self@,
            r.is_balanced(),
    {
        proof { use_type_invariant(self); }
        let r = Self::balance(self.head.push_front(value), self.tail.clone());
        proof { assert(r@ =~= seq![value] + self@); }
        r
    }

    /// A new version with `value` at the back.
    pub fn push_back(&self, value: T) -> (r: Self)
        requires
            self@.len() < usize::MAX,
        ensures
            r@ == self@.push(value),
            r.is_balanced(),
    {
        proof { use_type_invariant(self); }
        let tail = self.tail.push_front(value);
        proof { assert((seq![value] + self.tail@).reverse() =~= self.tail@.reverse().push(value)); }
        let r = Self::balance(self.head.clone(), tail);
        proof { assert(r@ =~= self@.push(value)); }
        r
    }

    /// The front element and the rest, or `None` when the deque is empty.
    pub fn pop_front(&self) -> (r: Option<(&T, Self)>)
        ensures
            self@.len() == 0 <==> r is None,
            r matches Some((v, rest)) ==> *v == self@[0] && rest@ == self@.drop_first(),
            r matches Some((_, rest)) ==> rest.is_balanced(),
    {
        proof { use_type_invariant(self); }
        if self.is_empty() {
            None
        } else if self.head.is_empty() {
            match self.tail.pop_front() {
                Some((a, b)) => {
                    proof {
                        assert(self.tail@.len() == 1);
                        assert(b@.len() == 0);
                        assert(self@ =~= seq![*a]);
                    }
                    let rest = Self::balance(self.head.clone(), b);
                    proof { assert(rest@ =~= self@.drop_first()); }
                    Some((a, rest))
                },
                None => None,
            }
        } else {
            match self.head.pop_front() {
                Some((a, b)) => {
                    let rest = Self::balance(b, self.tail.clone());
                    proof { assert(rest@ =~= self@.drop_first()); }
                    Some((a, rest))
                },
                None => None,
            }
        }
    }

    /// The back element and the rest, or `None` when the deque is empty.
    pub fn pop_back(&self) -> (r: Option<(&T, Self)>)
        ensures
            self@.len() == 0 <==> r is None,
            r matches Some((v, rest)) ==> *v == self@.last() && rest@ == self@.drop_last(),
            r matches Some((_, rest)) ==> rest.is_balanced(),
    {
        proof { use_type_invariant(self); }
        if self.is_empty() {
            None
        } else if self.tail.is_empty() {
            match self.head.pop_front() {
                Some((a, b)) => {
                    proof {
                        assert(self.head@.len() == 1);
                        assert(b@.len() == 0);
                        assert(self@ =~= seq![*a]);
                    }
                    let rest = Self::balance(b, self.tail.clone());
                    proof { assert(rest@ =~= self@.drop_last()); }
                    Some((a, rest))
                },
                None => None,
            }
        } else {
            match self.tail.pop_front() {
                Some((a, b)) => {
                    proof {
                        assert(self.tail@ =~= seq![*a] + b@);
                        assert(self.tail@.reverse() =~= b@.reverse().push(*a));
                    }
                    let rest = Self::balance(self.head.clone(), b);
                    proof { assert(rest@ =~= self@.drop_last()); }
                    Some((a, rest))
                },
                None => None,
            }
        }
    }

    /// A cursor that hands out the elements front to back.
    pub fn iter(&self) -> (r: DequeIterator<T>)
        ensures
            r@ == self@,
    {
        DequeIterator { head_iter: self.head.iter(), tail_iter: self.tail.reverse().iter() }
    }
}

/// A cursor over the elements of a deque, front to back.
pub struct DequeIterator<T> {
    head_iter: ListIterator<T>,
    tail_iter: ListIterator<T>,
}

impl<T> View for DequeIterator<T> {
    type V = Seq<T>;

    /// The elements not yet handed out.
    closed spec fn view(&self) -> Seq<T> {
        self.head_iter@ + self.tail_iter@
    }
}

impl<T> DequeIterator<T> {
    /// Hands out the next element, or `None` once every element has been handed out.
    pub fn next(&mut self) -> (r: Option<Rc<T>>)
        ensures
            old(self)@.len() == 0 ==> r is None && final(self)@ == old(self)@,
            old(self)@.len() > 0 ==> (r matches Some(v) && *v == old(self)@[0]
                && final(self)@ == old(self)@.drop_first()),
    {
        match self.head_iter.next() {
            Some(value) => {
                proof { assert(self@ =~= old(self)@.drop_first()); }
                Some(value)
            },
            None => {
                let r = self.tail_iter.next();
                proof { assert(self@ =~= old(self)@.drop_first() || old(self)@.len() == 0); }
                r
            },
        }
    }
}

} // verus!
