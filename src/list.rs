use std::rc::Rc;
use vstd::prelude::*;

verus! {

enum ListNode<T> {
    Empty,
    Value { value: Rc<T>, next_node: Rc<ListNode<T>> },
}

/// The elements reachable from a node, front to back.
spec fn node_seq<T>(n: ListNode<T>) -> Seq<T>
    decreases n,
{
    match n {
        ListNode::Empty => Seq::empty(),
        ListNode::Value { value, next_node } => seq![*value] + node_seq(*next_node),
    }
}

/// Moving one element from the front of the rest of `s` to the front of its reversed prefix.
proof fn lemma_reverse_step<T>(s: Seq<T>, d: int, v: T)
    requires
        0 <= d < s.len(),
        s[d] == v,
    ensures
        forall|rest: Seq<T>| #[trigger] (seq![v] + rest) == s.subrange(d, s.len() as int)
            ==> rest == s.subrange(d + 1, s.len() as int),
        s.subrange(0, d + 1).reverse() == seq![v] + s.subrange(0, d).reverse(),
{
    assert forall|rest: Seq<T>| #[trigger] (seq![v] + rest) == s.subrange(d, s.len() as int)
        implies rest == s.subrange(d + 1, s.len() as int) by {
        assert((seq![v] + rest).len() == rest.len() + 1);
        assert forall|i: int| 0 <= i < rest.len() implies rest[i] == s[d + 1 + i] by {
            assert((seq![v] + rest)[i + 1] == rest[i]);
            assert(s.subrange(d, s.len() as int)[i + 1] == s[d + 1 + i]);
        }
        assert(rest =~= s.subrange(d + 1, s.len() as int));
    }
    assert(s.subrange(0, d + 1).reverse() =~= seq![v] + s.subrange(0, d).reverse());
}

/// A cursor over the elements of a list, front to back; it shares the list's nodes.
pub struct ListIterator<T> {
    current: Rc<ListNode<T>>,
}

impl<T> View for ListIterator<T> {
    type V = Seq<T>;

    /// The elements not yet handed out.
    closed spec fn view(&self) -> Seq<T> {
        node_seq(*self.current)
    }
}

impl<T> ListIterator<T> {
    /// Hands out the next element, or `None` once every element has been handed out.
    pub fn next(&mut self) -> (r: Option<Rc<T>>)
        ensures
            old(self)@.len() == 0 ==> r is None && final(self)@ == old(self)@,
            old(self)@.len() > 0 ==> (r matches Some(v) && *v == old(self)@[0]
                && final(self)@ == old(self)@.drop_first()),
    {
        let (r, nx) = match &*self.current {
            ListNode::Empty => (None, self.current.clone()),
            ListNode::Value { value, next_node } => {
                proof { assert(node_seq(*self.current).drop_first() =~= node_seq(**next_node)); }
                (Some(value.clone()), next_node.clone())
            },
        };
        self.current = nx;
        r
    }
}

/// A persistent singly-linked list whose nodes are shared between versions.
pub struct List<T> {
    head: Rc<ListNode<T>>,
    len: usize,
}

impl<T> View for List<T> {
    type V = Seq<T>;

    closed spec fn view(&self) -> Seq<T> {
        node_seq(*self.head)
    }
}

impl<T> Clone for List<T> {
    /// Another handle on the same nodes.
    fn clone(&self) -> (r: Self)
        ensures
            r@ == self@,
    {
        proof { use_type_invariant(self); }
        List { head: self.head.clone(), len: self.len }
    }
}

impl<T> Default for List<T> {
    fn default() -> (r: Self)
        ensures
            r@ == Seq::<T>::empty(),
    {
        List::new()
    }
}

impl<T> List<T> {
    #[verifier::type_invariant]
    spec fn inv(self) -> bool {
        self.len == node_seq(*self.head).len()
    }

    pub fn new() -> (r: List<T>)
        ensures
            r@ == Seq::<T>::empty(),
            r@.len() == 0,
    {
        List { head: Rc::new(ListNode::Empty), len: 0 }
    }

    fn push_front_rc(&self, rc_value: Rc<T>) -> (r: List<T>)
        requires
            self@.len() < usize::MAX,
        ensures
            r@ == seq![*rc_value] + self@,
    {
        proof { use_type_invariant(self); }
        List {
            head: Rc::new(ListNode::Value { value: rc_value, next_node: self.head.clone() }),
            len: self.len + 1,
        }
    }

    /// A new version with `value` in front; the old chain is shared, not copied.
    pub fn push_front(&self, value: T) -> (r: List<T>)
        requires
            self@.len() < usize::MAX,
        ensures
            r@ == seq![value] + self@,
            r@.len() == self@.len() + 1,
    {
        self.push_front_rc(Rc::new(value))
    }

    pub fn is_empty(&self) -> (r: bool)
        ensures
            r == (self@.len() == 0),
    {
        self.length() == 0
    }

    pub fn length(&self) -> (r: usize)
        ensures
            r == self@.len(),
    {
        proof { use_type_invariant(self); }
        self.len
    }

    /// The front element, as a shared reference, and the rest of the list.
    pub fn pop_front_rc(&self) -> (r: Option<(Rc<T>, List<T>)>)
        ensures
            self@.len() == 0 <==> r is None,
            r matches Some((v, rest)) ==> *v == self@[0] && rest@ == self@.drop_first(),
    {
        proof { use_type_invariant(self); }
        match &*self.head {
            ListNode::Empty => None,
            ListNode::Value { value, next_node } => {
                proof { assert(self@.drop_first() =~= node_seq(**next_node)); }
                Some((value.clone(), List { head: next_node.clone(), len: self.len - 1 }))
            },
        }
    }

    /// The front element and the rest of the list.
    pub fn pop_front(&self) -> (r: Option<(&T, List<T>)>)
        ensures
            self@.len() == 0 <==> r is None,
            r matches Some((v, rest)) ==> *v == self@[0] && rest@ == self@.drop_first(),
            r matches Some((_, rest)) ==> rest@.len() == self@.len() - 1,
    {
        proof { use_type_invariant(self); }
        match &*self.head {
            ListNode::Empty => None,
            ListNode::Value { value, next_node } => {
                proof { assert(self@.drop_first() =~= node_seq(**next_node)); }
                Some((&**value, List { head: next_node.clone(), len: self.len - 1 }))
            },
        }
    }

    pub fn front(&self) -> (r: Option<&T>)
        ensures
            self@.len() == 0 <==> r is None,
            r matches Some(v) ==> *v == self@[0],
    {
        match self.pop_front() {
            None => None,
            Some((e, _)) => Some(e),
        }
    }

    /// A cursor that hands out the elements front to back; cursors never affect each other.
    pub fn iter(&self) -> (r: ListIterator<T>)
        ensures
            r@ == self@,
    {
        ListIterator { current: self.head.clone() }
    }

    /// Splits into the first `n / 2` elements and the remaining ones, both in their order.
    pub fn split(&self) -> (r: (List<T>, List<T>))
        ensures
            r.0@ == self@.subrange(0, (self@.len() / 2) as int),
            r.1@ == self@.subrange((self@.len() / 2) as int, self@.len() as int),
            r.0@.len() == self@.len() / 2,
            r.1@.len() == self@.len() - self@.len() / 2,
            r.0@ + r.1@ == self@,
    {
        let ghost s = self@;
        let n = self.length();
        let mut first = List::<T>::new();
        let mut second = List::<T>::new();
        let mut current = List { head: self.head.clone(), len: n };
        let half = n / 2;
        let other_half = n - half;
        let mut i: usize = 0;
        while i < half
            invariant
                n == s.len(),
                half == n / 2,
                i <= half,
                first@ == s.subrange(0, i as int).reverse(),
                current@ == s.subrange(i as int, n as int),
            decreases half - i,
        {
            match current.pop_front_rc() {
                Some((value_rc, new_list)) => {
                    proof {
                        assert(s.subrange(0, i + 1).reverse() =~= seq![*value_rc] + s.subrange(0, i as int).reverse());
                        assert(new_list@ =~= s.subrange(i + 1, n as int));
                    }
                    first = first.push_front_rc(value_rc);
                    current = new_list;
                },
                None => {},
            }
            i = i + 1;
        }
        let mut j: usize = 0;
        while j < other_half
            invariant
                n == s.len(),
                half == n / 2,
                other_half == n - half,
                j <= other_half,
                second@ == s.subrange(half as int, half + j).reverse(),
                current@ == s.subrange(half + j, n as int),
            decreases other_half - j,
        {
            match current.pop_front_rc() {
                Some((value_rc, new_list)) => {
                    proof {
                        assert(s.subrange(half as int, half + j + 1).reverse() =~= seq![*value_rc] + s.subrange(half as int, half + j).reverse());
                        assert(new_list@ =~= s.subrange(half + j + 1, n as int));
                    }
                    second = second.push_front_rc(value_rc);
                    current = new_list;
                },
                None => {},
            }
            j = j + 1;
        }
        let a = first.reverse();
        let b = second.reverse();
        proof {
            assert(a@ =~= s.subrange(0, half as int));
            assert(b@ =~= s.subrange(half as int, n as int));
            assert(a@ + b@ =~= s);
        }
        (a, b)
    }

    /// A new list with the same elements in the opposite order; every node is rebuilt.
    pub fn reverse(&self) -> (r: List<T>)
        ensures
            r@ == self@.reverse(),
    {
        proof { use_type_invariant(self); }
        let mut node = self.head.clone();
        let mut last_node: Rc<ListNode<T>> = Rc::new(ListNode::Empty);
        let mut done: usize = 0;
        while done < self.len
            invariant
                self.len == self@.len(),
                done <= self@.len(),
                node_seq(*node) == self@.subrange(done as int, self@.len() as int),
                node_seq(*last_node) == self@.subrange(0, done as int).reverse(),
            decreases self@.len() - done,
        {
            match &*node {
                ListNode::Value { value, next_node } => {
                    proof {
                        assert(node_seq(*node) == seq![**value] + node_seq(**next_node));
                        let ghost v = **value;
                        assert(node_seq(*node)[0] == self@[done as int]);
                        lemma_reverse_step(self@, done as int, v);
                        assert(node_seq(**next_node) == self@.subrange(done + 1, self@.len() as int));
                    }
                    last_node = Rc::new(ListNode::Value { value: value.clone(), next_node: last_node });
                    node = next_node.clone();
                },
                ListNode::Empty => {
                    proof { assert(self@.subrange(done as int, self@.len() as int).len() == 0); }
                },
            }
            done = done + 1;
        }
        proof {
            assert(self@.subrange(0, self@.len() as int) =~= self@);
        }
        List { head: last_node, len: self.len }
    }
}

/// Reversing a list twice gives back its elements in their original order.
pub proof fn lemma_reverse_involution<T>(l: List<T>)
    ensures
        l@.reverse().reverse() == l@,
{
    assert(l@.reverse().reverse() =~= l@);
}

} // verus!
