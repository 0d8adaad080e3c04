//! A singly linked sequence container.
//!
//! A list is a finite chain of `Cons` nodes ending in exactly one `Nil`.
//! Mutation follows a take/rebuild/write-back discipline: a node reached only
//! through a mutable reference is first swapped out for `Nil`, restructured as
//! an owned value, and written back.  The abstract model of a list is the
//! sequence of its values, given by [`ListNode::as_seq`].

use vstd::prelude::*;

verus! {

/// A singly linked list: either empty, or a value followed by the rest of the
/// chain, which it owns exclusively.
#[derive(Debug, PartialEq, Eq)]
pub enum ListNode<T> {
    Nil,
    Cons(T, Box<ListNode<T>>),
}

impl<T> ListNode<T> {
    /// The abstract model of the list: its values in list order.
    pub open spec fn as_seq(self) -> Seq<T>
        decreases self,
    {
        match self {
            ListNode::Nil => Seq::empty(),
            ListNode::Cons(value, rest) => seq![value] + rest.as_seq(),
        }
    }
}

impl<T> View for ListNode<T> {
    type V = Seq<T>;

    open spec fn view(&self) -> Seq<T> {
        self.as_seq()
    }
}

impl<T> ListNode<T> {
    /// Creates a new empty list.
    pub fn new() -> (r: Self)
        ensures
            r == ListNode::<T>::Nil,
            r@ == Seq::<T>::empty(),
    {
        ListNode::Nil
    }

    /// Deletes the node at the current position: a `Cons` is replaced by its
    /// own tail (dropping the held value), while deleting from `Nil` is a
    /// no-op.
    pub fn delete(&mut self)
        ensures
            *final(self) == (match *old(self) {
                ListNode::Nil => ListNode::Nil,
                ListNode::Cons(_, rest) => *rest,
            }),
            final(self)@ == (if old(self)@.len() == 0 {
                Seq::<T>::empty()
            } else {
                old(self)@.drop_first()
            }),
    {
        let mut taken = ListNode::Nil;
        core::mem::swap(self, &mut taken);
        match taken {
            ListNode::Nil => {}
            ListNode::Cons(_, rest) => {
                *self = *rest;
            }
        }
        proof {
            if old(self)@.len() != 0 {
                assert(final(self)@ =~= old(self)@.drop_first());
            }
        }
    }
}

impl<T> ListNode<T> {
    /// Splices `value` in immediately after `self` and returns a mutable
    /// reference to the newly inserted node, so that callers can chain
    /// further insertions at the new position.
    ///
    /// If `self` is `Nil` it becomes the single node holding `value` and the
    /// returned reference is `self` itself; if `self` holds a value, the new
    /// node takes over the old tail and becomes the tail of `self`.
    pub fn insert(&mut self, value: T) -> (ret: &mut Self)
        ensures
            *ret == (match *old(self) {
                ListNode::Nil => ListNode::Cons(value, Box::new(ListNode::Nil)),
                ListNode::Cons(_, rest) => ListNode::Cons(value, rest),
            }),
            *final(self) == (match *old(self) {
                ListNode::Nil => *final(ret),
                ListNode::Cons(v, _) => ListNode::Cons(v, Box::new(*final(ret))),
            }),
            ret@ == seq![value] + (if old(self)@.len() == 0 {
                Seq::<T>::empty()
            } else {
                old(self)@.drop_first()
            }),
            final(self)@ == (if old(self)@.len() == 0 {
                final(ret)@
            } else {
                seq![old(self)@[0]] + final(ret)@
            }),
    {
        let mut taken = ListNode::Nil;
        core::mem::swap(self, &mut taken);
        match taken {
            ListNode::Nil => {
                *self = ListNode::Cons(value, Box::new(ListNode::Nil));
                proof {
                    assert(old(self)@ =~= Seq::<T>::empty());
                    assert(self@ =~= seq![value] + Seq::<T>::empty());
                }
                self
            }
            ListNode::Cons(self_value, mut rest) => {
                let mut tail = ListNode::Nil;
                core::mem::swap(&mut *rest, &mut tail);
                proof {
                    assert(old(self)@ == seq![self_value] + tail.as_seq());
                    assert(old(self)@.drop_first() =~= tail.as_seq());
                    assert(old(self)@[0] == self_value);
                }
                let new_node = ListNode::Cons(value, Box::new(tail));
                *self = ListNode::Cons(self_value, Box::new(new_node));
                match self {
                    ListNode::Cons(_, next) => &mut **next,
                    ListNode::Nil => vstd::pervasive::unreached(),
                }
            }
        }
    }

    /// Reverses the list in place, in one iterative pass with constant
    /// auxiliary space: ownership of the chain is taken from `self`, the
    /// links are turned around one node at a time, and the result is written
    /// back.
    pub fn reverse(&mut self)
        ensures
            final(self)@ == old(self)@.reverse(),
    {
        let ghost orig: Seq<T> = self@;
        let mut prev: ListNode<T> = ListNode::Nil;
        let mut current: ListNode<T> = ListNode::Nil;
        core::mem::swap(self, &mut current);
        loop
            invariant_except_break
                orig.reverse() == current.as_seq().reverse() + prev.as_seq(),
            ensures
                prev.as_seq() == orig.reverse(),
            decreases current.as_seq().len(),
        {
            match current {
                ListNode::Nil => {
                    proof {
                        assert(orig.reverse() =~= Seq::<T>::empty().reverse() + prev.as_seq());
                        assert(Seq::<T>::empty().reverse() + prev.as_seq() =~= prev.as_seq());
                    }
                    break;
                }
                ListNode::Cons(value, next) => {
                    proof {
                        let cur = seq![value] + next.as_seq();
                        assert(cur.reverse() =~= next.as_seq().reverse() + seq![value]);
                        assert((next.as_seq().reverse() + seq![value]) + prev.as_seq()
                            =~= next.as_seq().reverse() + (seq![value] + prev.as_seq()));
                    }
                    prev = ListNode::Cons(value, Box::new(prev));
                    current = *next;
                }
            }
        }
        *self = prev;
    }

    /// Builds a list from a flat vector, preserving order: the resulting
    /// list holds exactly the values of `values`, first element at the head.
    pub fn from_vec(values: Vec<T>) -> (r: Self)
        ensures
            r@ == values@,
    {
        let ghost orig: Seq<T> = values@;
        let mut values = values;
        let mut head: ListNode<T> = ListNode::Nil;
        proof {
            assert(orig.take(orig.len() as int) =~= orig);
            assert(orig.skip(orig.len() as int) =~= Seq::<T>::empty());
        }
        while values.len() > 0
            invariant
                values@.len() <= orig.len(),
                head.as_seq() == orig.skip(values@.len() as int),
                values@ == orig.take(values@.len() as int),
            decreases values@.len(),
        {
            let ghost n = values@.len() as int;
            let value = values.pop().unwrap();
            proof {
                assert(value == orig[n - 1]);
                assert(seq![value] + orig.skip(n) =~= orig.skip(n - 1));
                assert(values@ =~= orig.take(n - 1));
            }
            head = ListNode::Cons(value, Box::new(head));
        }
        proof {
            assert(head.as_seq() =~= orig);
        }
        head
    }

    /// Consumes the list and collects its values into a vector, in list
    /// order.
    pub fn into_vec(self) -> (r: Vec<T>)
        ensures
            r@ == self@,
    {
        let ghost orig: Seq<T> = self@;
        let mut out: Vec<T> = Vec::new();
        let mut current: ListNode<T> = self;
        loop
            invariant_except_break
                orig == out@ + current.as_seq(),
            ensures
                out@ == orig,
            decreases current.as_seq().len(),
        {
            match current {
                ListNode::Nil => {
                    proof {
                        assert(orig =~= out@);
                    }
                    break;
                }
                ListNode::Cons(value, next) => {
                    proof {
                        assert(out@ + (seq![value] + next.as_seq())
                            =~= (out@ + seq![value]) + next.as_seq());
                    }
                    out.push(value);
                    current = *next;
                }
            }
        }
        out
    }
}

impl<T> Default for ListNode<T> {
    /// The default list is the empty list, as [`ListNode::new`] returns it.
    fn default() -> (r: Self)
        ensures
            r == ListNode::<T>::Nil,
    {
        ListNode::Nil
    }
}

/// A list is determined by its sequence of values: two lists with equal
/// models are structurally equal.
pub proof fn lemma_seq_determines_list<T>(l1: ListNode<T>, l2: ListNode<T>)
    requires
        l1@ == l2@,
    ensures
        l1 == l2,
    decreases l1,
{
    match l1 {
        ListNode::Nil => {
            match l2 {
                ListNode::Nil => {}
                ListNode::Cons(v2, r2) => {
                    assert(l2@ == seq![v2] + r2.as_seq());
                    assert(l2@.len() > 0);
                }
            }
        }
        ListNode::Cons(v1, r1) => {
            assert(l1@ == seq![v1] + r1.as_seq());
            assert(l1@.len() > 0);
            match l2 {
                ListNode::Nil => {}
                ListNode::Cons(v2, r2) => {
                    assert(l2@ == seq![v2] + r2.as_seq());
                    assert(v1 == l1@[0]);
                    assert(v2 == l2@[0]);
                    assert(r1.as_seq() =~= l1@.drop_first());
                    assert(r2.as_seq() =~= l2@.drop_first());
                    lemma_seq_determines_list(*r1, *r2);
                }
            }
        }
    }
}

/// Round trip through the list: a list built from a sequence of values
/// models exactly that sequence, so extracting the values again returns the
/// original sequence, in the same order.  This is the composition of the
/// contracts of [`ListNode::from_vec`] and [`ListNode::into_vec`].
pub proof fn lemma_list_round_trip<T>(input: Seq<T>, list: ListNode<T>, output: Seq<T>)
    requires
        list@ == input,
        output == list@,
    ensures
        output == input,
{
}

/// Reversal is an involution: a list whose model is the twice-reversed model
/// of another list is structurally equal to it.  Together with the contract
/// of [`ListNode::reverse`], this says that reversing a list twice restores
/// it exactly.
pub proof fn lemma_reverse_involution<T>(before: ListNode<T>, after: ListNode<T>)
    requires
        after@ == before@.reverse().reverse(),
    ensures
        after == before,
{
    assert(before@.reverse().reverse() =~= before@);
    lemma_seq_determines_list(after, before);
}

} // verus!
