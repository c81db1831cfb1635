//! A list that grows at its front: the accumulator of the parser, whose head
//! is the item that was added last.

use vstd::prelude::*;

verus! {

/// A list of one item or more.
pub struct LinkedList<T> {
    head: T,
    tail: Option<Box<LinkedList<T>>>,
}

impl<T> View for LinkedList<T> {
    type V = Seq<T>;

    /// The items from the head on.
    closed spec fn view(&self) -> Seq<T> {
        self.items()
    }
}

impl<T> LinkedList<T> {
    spec fn items(&self) -> Seq<T>
        decreases self,
    {
        match self.tail {
            Some(rest) => seq![self.head] + rest.items(),
            None => seq![self.head],
        }
    }

    /// A list is never empty.
    pub proof fn lemma_not_empty(&self)
        ensures
            self@.len() >= 1,
        decreases self,
    {
        match self.tail {
            Some(rest) => rest.lemma_not_empty(),
            None => {},
        }
    }

    /// The list that holds `item` alone.
    pub fn new(item: T) -> (list: LinkedList<T>)
        ensures
            list@ == seq![item],
    {
        LinkedList { head: item, tail: None }
    }

    /// The list with `item` put in front of the others.
    pub fn insert(self, item: T) -> (list: LinkedList<T>)
        ensures
            list@ == seq![item] + self@,
    {
        LinkedList { head: item, tail: Some(Box::new(self)) }
    }

    /// The first item.
    pub fn head(&self) -> (item: &T)
        ensures
            self@.len() >= 1,
            *item == self@[0],
    {
        proof {
            self.lemma_not_empty();
        }
        &self.head
    }

    /// The list after the first item, if there is more than one.
    pub fn tail(&self) -> (rest: Option<&LinkedList<T>>)
        ensures
            match rest {
                Some(rest) => self@.len() >= 2 && rest@ == self@.subrange(1, self@.len() as int),
                None => self@.len() == 1,
            },
    {
        match &self.tail {
            Some(rest) => {
                proof {
                    rest.lemma_not_empty();
                    assert((seq![self.head] + rest@).subrange(1, 1 + rest@.len() as int) =~= rest@);
                }
                Some(&**rest)
            },
            None => None,
        }
    }
}

impl<T: Clone> LinkedList<T> {
    /// The items from the head on, each one cloned.
    pub fn clone_to_vec(&self) -> (items: Vec<T>)
        ensures
            items@.len() == self@.len(),
            forall|i: int| 0 <= i < self@.len() ==> cloned::<T>(#[trigger] self@[i], items@[i]),
    {
        let mut items: Vec<T> = Vec::new();
        let mut node = self;
        proof {
            node.lemma_not_empty();
        }
        loop
            invariant_except_break
                items@.len() + node@.len() == self@.len(),
                node@.len() >= 1,
                node@ == self@.subrange(items@.len() as int, self@.len() as int),
            invariant
                items@.len() <= self@.len(),
                forall|i: int|
                    0 <= i < items@.len() ==> cloned::<T>(#[trigger] self@[i], items@[i]),
            ensures
                items@.len() == self@.len(),
                forall|i: int| 0 <= i < self@.len() ==> cloned::<T>(#[trigger] self@[i], items@[i]),
            decreases node@.len(),
        {
            let item = node.head().clone();
            proof {
                assert(node@[0] == self@[items@.len() as int]);
            }
            items.push(item);
            match node.tail() {
                Some(rest) => {
                    proof {
                        assert(rest@ =~= self@.subrange(items@.len() as int, self@.len() as int));
                    }
                    node = rest;
                },
                None => {
                    break ;
                },
            }
        }
        items
    }
}

} // verus!
