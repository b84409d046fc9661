//! An insert-only list: values are linked in at the head, and unlinked only
//! under exclusive access, head first.

use vstd::prelude::*;

verus! {

/// An insert-only list.
///
/// Nodes live in an index-addressed arena and the head is the node with the
/// highest index, so a node keeps its index for as long as it is linked.
/// Inserting links a new head; unlinking is only possible through `pop`,
/// `drain` and `into_iter`, which all take the list exclusively.
#[derive(Debug)]
pub struct ConcurrentList<T> {
    /// The nodes, oldest first. The head of the list is the last node.
    nodes: Vec<T>,
}

impl<T> ConcurrentList<T> {
    /// The values of the list from the head (the most recently pushed value)
    /// to the tail (the value pushed first).
    pub closed spec fn view(&self) -> Seq<T> {
        Seq::new(self.nodes@.len(), |i: int| self.nodes@[self.nodes@.len() - 1 - i])
    }

    /// A list never has more values than a `usize` can count.
    pub proof fn lemma_len_counted(&self)
        ensures
            self@.len() <= usize::MAX,
    {
        assert(self.nodes.len() == self.nodes@.len());
    }

    /// Creates an empty list.
    pub fn new() -> (list: Self)
        ensures
            list@ == Seq::<T>::empty(),
    {
        ConcurrentList { nodes: Vec::new() }
    }

    /// The index of the head node in the arena, if the list has one.
    fn head_node(&self) -> (index: Option<usize>)
        ensures
            self@.len() == 0 ==> index is None,
            self@.len() > 0 ==> index is Some && index->0 == self@.len() - 1,
    {
        let len: usize = self.nodes.len();
        if len == 0 {
            None
        } else {
            Some(len - 1)
        }
    }

    /// The value pushed most recently, or nothing when the list is empty.
    pub fn head(&self) -> (head: Option<&T>)
        ensures
            self@.len() == 0 ==> head is None,
            self@.len() > 0 ==> head == Some(&self@[0]),
    {
        match self.head_node() {
            Some(index) => Some(&self.nodes[index]),
            None => None,
        }
    }

    /// Exclusive access to the value pushed most recently.
    ///
    /// Whatever the caller writes through the reference becomes the head; the
    /// rest of the list is untouched.
    pub fn head_mut(&mut self) -> (head: Option<&mut T>)
        ensures
            old(self)@.len() == 0 ==> head is None && final(self)@ == old(self)@,
            old(self)@.len() > 0 ==> head is Some && *head->0 == old(self)@[0] && final(self)@
                == old(self)@.update(0, *final(head->0)),
    {
        let len: usize = self.nodes.len();
        if len == 0 {
            None
        } else {
            let head = &mut self.nodes[len - 1];
            proof {
                let before = old(self).nodes@;
                let after = before.update(len - 1, *final(head));
                assert(Seq::new(after.len(), |i: int| after[after.len() - 1 - i]) == Seq::new(
                    before.len(),
                    |i: int| before[before.len() - 1 - i],
                ).update(0, *final(head)));
            }
            Some(head)
        }
    }

    /// Shared references to every value, head first.
    pub fn iter(&self) -> (items: Vec<&T>)
        ensures
            items@.len() == self@.len(),
            forall|i: int| 0 <= i < items@.len() ==> *#[trigger] items@[i] == self@[i],
    {
        let mut items: Vec<&T> = Vec::new();
        let mut node: usize = self.nodes.len();
        while node > 0
            invariant
                node <= self.nodes@.len(),
                items@.len() == self.nodes@.len() - node,
                forall|i: int| 0 <= i < items@.len() ==> *#[trigger] items@[i] == self@[i],
            decreases node,
        {
            node = node - 1;
            items.push(&self.nodes[node]);
        }
        items
    }

    /// Exclusive references to every value, head first. What the caller
    /// writes through the reference at position `i` becomes the value at
    /// position `i` of the list.
    pub fn iter_mut(&mut self) -> (items: Vec<&mut T>)
        ensures
            items@.len() == old(self)@.len(),
            final(self)@.len() == old(self)@.len(),
            forall|i: int| 0 <= i < items@.len() ==> *#[trigger] items@[i] == old(self)@[i],
            forall|i: int|
                0 <= i < items@.len() ==> #[trigger] final(self)@[i] == *final(items@[i]),
    {
        let mut items: Vec<&mut T> = Vec::new();
        let mut rest: &mut [T] = self.nodes.as_mut_slice();
        let ghost nodes = rest@;
        let ghost end = final(rest)@;
        while rest.len() > 0
            invariant
                rest@.len() + items@.len() == nodes.len(),
                rest@ == nodes.subrange(0, rest@.len() as int),
                forall|i: int|
                    0 <= i < items@.len() ==> *#[trigger] items@[i] == nodes[nodes.len() - 1 - i],
                end == final(rest)@ + Seq::new(
                    items@.len(),
                    |j: int| *final(items@[items@.len() - 1 - j]),
                ),
            decreases rest@.len(),
        {
            let last: usize = rest.len() - 1;
            let ghost taken = Seq::new(
                items@.len(),
                |j: int| *final(items@[items@.len() - 1 - j]),
            );
            let (front, back) = rest.split_at_mut(last);
            match back.first_mut() {
                Some(node) => {
                    proof {
                        let grown = items@.push(node);
                        assert(seq![*final(node)] + taken == Seq::new(
                            grown.len(),
                            |j: int| *final(grown[grown.len() - 1 - j]),
                        ));
                        assert(final(front)@ + (seq![*final(node)] + taken) == (final(front)@
                            + seq![*final(node)]) + taken);
                    }
                    items.push(node);
                },
                None => {},
            }
            rest = front;
        }
        proof {
            let taken = Seq::new(items@.len(), |j: int| *final(items@[items@.len() - 1 - j]));
            assert(end == taken);
        }
        items
    }

    /// Unlinks every node and hands the values out, head first. The list is
    /// empty afterwards.
    pub fn drain(&mut self) -> (items: Vec<T>)
        ensures
            items@ == old(self)@,
            final(self)@ == Seq::<T>::empty(),
    {
        let mut items: Vec<T> = Vec::new();
        loop
            invariant
                items@ + self@ == old(self)@,
            ensures
                items@ == old(self)@,
                self@ == Seq::<T>::empty(),
            decreases self@.len(),
        {
            match self.pop() {
                Some(value) => {
                    proof {
                        let rest = self@;
                        assert((items@.push(value)) + rest == items@ + (seq![value] + rest));
                    }
                    items.push(value);
                },
                None => {
                    assert(items@ + self@ == items@);
                    break ;
                },
            }
        }
        items
    }

    /// Consumes the list and hands its values out, head first.
    pub fn into_iter(self) -> (items: Vec<T>)
        ensures
            items@ == self@,
    {
        let mut list = self;
        list.drain()
    }

    /// Links `value` in as the new head and returns a reference to where it
    /// now lives. Every value pushed before keeps its place behind it.
    pub fn push(&mut self, value: T) -> (stored: &T)
        ensures
            *stored == value,
            final(self)@ == seq![value] + old(self)@,
    {
        self.nodes.push(value);
        let head: usize = self.nodes.len() - 1;
        &self.nodes[head]
    }

    /// Unlinks the head and returns its value, or nothing when the list is
    /// empty.
    pub fn pop(&mut self) -> (value: Option<T>)
        ensures
            old(self)@.len() == 0 ==> value is None && final(self)@ == old(self)@,
            old(self)@.len() > 0 ==> value == Some(old(self)@[0]) && old(self)@ == seq![
                old(self)@[0],
            ] + final(self)@,
    {
        self.nodes.pop()
    }

    /// The number of values in the list.
    pub fn len(&self) -> (len: usize)
        ensures
            len == self@.len(),
    {
        self.nodes.len()
    }

    /// Whether the list holds no value.
    pub fn is_empty(&self) -> (empty: bool)
        ensures
            empty == (self@.len() == 0),
    {
        self.nodes.len() == 0
    }
}

impl<T> Default for ConcurrentList<T> {
    fn default() -> (list: Self)
        ensures
            list@ == Seq::<T>::empty(),
    {
        ConcurrentList::new()
    }
}

} // verus!
