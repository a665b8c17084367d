//! A list with a chain of nodes from each end.
//!
//! The list owns two chains. The one that starts at `head` is linked by
//! `next` and grows and shrinks at the head; the one that starts at `tail`
//! is linked by `prev` and grows and shrinks at the tail. Nodes are owned,
//! not shared: a link added at one end is not seen from the other.

use vstd::prelude::*;
use vstd::std_specs::cmp::PartialEqSpec;

verus! {

/// A node of a chain: a key and the nodes it is linked to.
#[derive(Debug, PartialEq)]
pub struct Node<T> {
    pub prev: Option<Box<Node<T>>>,
    pub next: Option<Box<Node<T>>>,
    pub key: T,
}

impl<T> Node<T> {
    /// A node that holds `key` and has no link.
    pub open spec fn single(key: T) -> Node<T> {
        Node { prev: None, next: None, key }
    }

    /// The number of nodes on the chain that starts here and follows `next`.
    pub open spec fn next_len(self) -> nat
        decreases self,
    {
        match self.next {
            None => 1,
            Some(node) => 1 + node.next_len(),
        }
    }

    /// The number of nodes on the chain that starts here and follows `prev`.
    pub open spec fn prev_len(self) -> nat
        decreases self,
    {
        match self.prev {
            None => 1,
            Some(node) => 1 + node.prev_len(),
        }
    }

    /// The keys on the chain that starts here and follows `next`.
    pub open spec fn next_keys(self) -> Seq<T>
        decreases self,
    {
        match self.next {
            None => seq![self.key],
            Some(node) => seq![self.key] + node.next_keys(),
        }
    }

    /// The keys on the chain that starts here and follows `prev`.
    pub open spec fn prev_keys(self) -> Seq<T>
        decreases self,
    {
        match self.prev {
            None => seq![self.key],
            Some(node) => seq![self.key] + node.prev_keys(),
        }
    }

    /// A node that holds `k` and has no link.
    pub fn new(k: T) -> (node: Self)
        ensures
            node == Node::single(k),
    {
        Node { prev: None, next: None, key: k }
    }
}

/// The length of the `next` chain depends on the `next` link alone, and that
/// of the `prev` chain on the `prev` link alone.
pub proof fn lemma_chain_len_by_link<T>(a: Node<T>, b: Node<T>)
    ensures
        a.next == b.next ==> a.next_len() == b.next_len(),
        a.prev == b.prev ==> a.prev_len() == b.prev_len(),
        a.next_len() >= 1,
        a.prev_len() >= 1,
{
}

/// The keys of the `next` chain depend on the key and the `next` link alone,
/// and those of the `prev` chain on the key and the `prev` link alone.
pub proof fn lemma_chain_keys_by_link<T>(a: Node<T>, b: Node<T>)
    ensures
        a.key == b.key && a.next == b.next ==> a.next_keys() == b.next_keys(),
        a.key == b.key && a.prev == b.prev ==> a.prev_keys() == b.prev_keys(),
{
}

/// An insertion at the head puts `key` in front of the keys seen from the
/// head and leaves the keys seen from the tail; into an empty list it puts
/// the copy at the head and `key` at the tail.
pub proof fn law_head_insertion_keys<T>(list: DoublyLinkedList<T>, key: T, copy: T)
    ensures
        list.head is Some ==> list.head_inserted(key, copy).keys_from_head() == seq![key]
            + list.keys_from_head(),
        list.head is Some ==> list.head_inserted(key, copy).keys_from_tail()
            == list.keys_from_tail(),
        list.head is None ==> list.head_inserted(key, copy).keys_from_head() == seq![copy],
        list.head is None ==> list.head_inserted(key, copy).keys_from_tail() == seq![key],
{
    if list.head is Some {
        let after = list.head_inserted(key, copy);
        lemma_chain_keys_by_link(*after.head->0.next->0, *list.head->0);
    }
}

/// An insertion at the tail puts `key` in front of the keys seen from the
/// tail and leaves the keys seen from the head; into an empty list it puts
/// the copy at the head and `key` at the tail.
pub proof fn law_tail_insertion_keys<T>(list: DoublyLinkedList<T>, key: T, copy: T)
    ensures
        list.tail is Some ==> list.tail_inserted(key, copy).keys_from_tail() == seq![key]
            + list.keys_from_tail(),
        list.tail is Some ==> list.tail_inserted(key, copy).keys_from_head()
            == list.keys_from_head(),
        list.tail is None ==> list.tail_inserted(key, copy).keys_from_head() == seq![copy],
        list.tail is None ==> list.tail_inserted(key, copy).keys_from_tail() == seq![key],
{
    if list.tail is Some {
        let after = list.tail_inserted(key, copy);
        lemma_chain_keys_by_link(*after.tail->0.prev->0, *list.tail->0);
    }
}

/// A deletion at the head takes the first of the keys seen from the head
/// and leaves the keys seen from the tail, unless that key was the only one
/// seen from the head: then the list is empty afterwards.
pub proof fn law_head_deletion_keys<T>(list: DoublyLinkedList<T>)
    requires
        list.head is Some,
    ensures
        list.keys_from_head().len() > 1 ==> list.head_deleted().keys_from_head()
            == list.keys_from_head().drop_first() && list.head_deleted().keys_from_tail()
            == list.keys_from_tail(),
        list.keys_from_head().len() <= 1 ==> list.head_deleted().head is None
            && list.head_deleted().tail is None,
{
    let head = list.head->0;
    match head.next {
        None => {},
        Some(next) => {
            lemma_chain_keys_by_link(*list.head_deleted().head->0, *next);
            assert(next.next_keys().len() >= 1);
            assert((seq![head.key] + next.next_keys()).drop_first() =~= next.next_keys());
        },
    }
}

/// A deletion at the tail takes the first of the keys seen from the tail
/// and leaves the keys seen from the head, unless that key was the only one
/// seen from the tail: then the list is empty afterwards.
pub proof fn law_tail_deletion_keys<T>(list: DoublyLinkedList<T>)
    requires
        list.tail is Some,
    ensures
        list.keys_from_tail().len() > 1 ==> list.tail_deleted().keys_from_tail()
            == list.keys_from_tail().drop_first() && list.tail_deleted().keys_from_head()
            == list.keys_from_head(),
        list.keys_from_tail().len() <= 1 ==> list.tail_deleted().head is None
            && list.tail_deleted().tail is None,
{
    let tail = list.tail->0;
    match tail.prev {
        None => {},
        Some(prev) => {
            lemma_chain_keys_by_link(*list.tail_deleted().tail->0, *prev);
            assert(prev.prev_keys().len() >= 1);
            assert((seq![tail.key] + prev.prev_keys()).drop_first() =~= prev.prev_keys());
        },
    }
}

/// The first node on the chain that starts at `start` and follows `next`
/// whose key equals `key`.
pub open spec fn first_with_key<T: PartialEq>(start: Option<Box<Node<T>>>, key: T) -> Option<
    Box<Node<T>>,
>
    decreases start,
{
    match start {
        None => None,
        Some(node) => if node.key.eq_spec(&key) {
            Some(node)
        } else {
            first_with_key(node.next, key)
        },
    }
}

/// The list: its two chains and the count of its insertions less its
/// deletions.
#[derive(Debug, PartialEq)]
pub struct DoublyLinkedList<T> {
    pub head: Option<Box<Node<T>>>,
    pub tail: Option<Box<Node<T>>>,
    pub length: u32,
}

impl<T> DoublyLinkedList<T> {
    /// Both chains are there or neither is, and `length` is large enough for
    /// every deletion that the chains allow.
    pub open spec fn wf(self) -> bool {
        &&& self.head is None <==> self.tail is None
        &&& self.head is Some ==> self.length + 1 >= self.head->0.next_len()
            + self.tail->0.prev_len()
    }

    /// The keys from the head on; empty for an empty list.
    pub open spec fn keys_from_head(self) -> Seq<T> {
        match self.head {
            None => Seq::empty(),
            Some(node) => node.next_keys(),
        }
    }

    /// The keys from the tail back; empty for an empty list.
    pub open spec fn keys_from_tail(self) -> Seq<T> {
        match self.tail {
            None => Seq::empty(),
            Some(node) => node.prev_keys(),
        }
    }

    /// The list after an insertion of `key` at the head, where `copy` is the
    /// copy of `key` that the insertion made.
    ///
    /// An empty list gets `copy` as its head and `key` as its tail.
    /// Otherwise `key` becomes the head, linked by `next` to the old head,
    /// which is linked back by `prev` to `copy`; the tail stays.
    pub open spec fn head_inserted(self, key: T, copy: T) -> Self {
        match self.head {
            None => DoublyLinkedList {
                head: Some(Box::new(Node::single(copy))),
                tail: Some(Box::new(Node::single(key))),
                length: (self.length + 1) as u32,
            },
            Some(head) => DoublyLinkedList {
                head: Some(
                    Box::new(
                        Node {
                            prev: None,
                            next: Some(
                                Box::new(
                                    Node {
                                        prev: Some(Box::new(Node::single(copy))),
                                        next: head.next,
                                        key: head.key,
                                    },
                                ),
                            ),
                            key,
                        },
                    ),
                ),
                tail: self.tail,
                length: (self.length + 1) as u32,
            },
        }
    }

    /// The list after an insertion of `key` at the tail, where `copy` is the
    /// copy of `key` that the insertion made: as
    /// [`DoublyLinkedList::head_inserted`], with the two ends and the two
    /// links exchanged.
    pub open spec fn tail_inserted(self, key: T, copy: T) -> Self {
        match self.tail {
            None => DoublyLinkedList {
                head: Some(Box::new(Node::single(copy))),
                tail: Some(Box::new(Node::single(key))),
                length: (self.length + 1) as u32,
            },
            Some(tail) => DoublyLinkedList {
                head: self.head,
                tail: Some(
                    Box::new(
                        Node {
                            prev: Some(
                                Box::new(
                                    Node {
                                        prev: tail.prev,
                                        next: Some(Box::new(Node::single(copy))),
                                        key: tail.key,
                                    },
                                ),
                            ),
                            next: None,
                            key,
                        },
                    ),
                ),
                length: (self.length + 1) as u32,
            },
        }
    }

    /// The list after a deletion at the head.
    ///
    /// An empty list stays as it is. Where the head has no `next`, both
    /// chains go. Otherwise that node becomes the head and loses its `prev`;
    /// the tail stays.
    pub open spec fn head_deleted(self) -> Self {
        match self.head {
            None => self,
            Some(head) => match head.next {
                None => DoublyLinkedList { head: None, tail: None, length: (self.length - 1) as u32 },
                Some(next) => DoublyLinkedList {
                    head: Some(Box::new(Node { prev: None, next: next.next, key: next.key })),
                    tail: self.tail,
                    length: (self.length - 1) as u32,
                },
            },
        }
    }

    /// The list after a deletion at the tail: as
    /// [`DoublyLinkedList::head_deleted`], with the two ends and the two
    /// links exchanged.
    pub open spec fn tail_deleted(self) -> Self {
        match self.tail {
            None => self,
            Some(tail) => match tail.prev {
                None => DoublyLinkedList { head: None, tail: None, length: (self.length - 1) as u32 },
                Some(prev) => DoublyLinkedList {
                    head: self.head,
                    tail: Some(Box::new(Node { prev: prev.prev, next: None, key: prev.key })),
                    length: (self.length - 1) as u32,
                },
            },
        }
    }

    /// An empty list.
    pub fn new() -> (list: Self)
        ensures
            list.head is None,
            list.tail is None,
            list.length == 0,
            list.wf(),
    {
        DoublyLinkedList { head: None, tail: None, length: 0 }
    }

    /// The keys from the head on, along `next`, in that order.
    pub fn keys(&self) -> (keys: Vec<&T>)
        ensures
            keys@.len() == self.keys_from_head().len(),
            forall|i: int| 0 <= i < keys@.len() ==> *(#[trigger] keys@[i]) == self.keys_from_head()[i],
    {
        let mut keys: Vec<&T> = Vec::new();
        let mut current_node = &self.head;
        let ghost whole = self.keys_from_head();
        loop
            invariant_except_break
                whole == self.keys_from_head(),
                keys@.len() <= whole.len(),
                forall|i: int| 0 <= i < keys@.len() ==> *(#[trigger] keys@[i]) == whole[i],
                whole.skip(keys@.len() as int) == match *current_node {
                    None => Seq::<T>::empty(),
                    Some(node) => node.next_keys(),
                },
            ensures
                keys@.len() == whole.len(),
                forall|i: int| 0 <= i < keys@.len() ==> *(#[trigger] keys@[i]) == whole[i],
            decreases *current_node,
        {
            match current_node {
                None => {
                    break ;
                },
                Some(node) => {
                    let ghost rest = whole.skip(keys@.len() as int);
                    assert(rest[0] == node.key);
                    keys.push(&node.key);
                    assert(whole.skip(keys@.len() as int) =~= rest.skip(1));
                    assert(rest.skip(1) =~= match node.next {
                        None => Seq::<T>::empty(),
                        Some(after) => after.next_keys(),
                    });
                    current_node = &node.next;
                },
            }
        }
        keys
    }

    /// Inserts `key` at the head, given the copy of it that goes into the
    /// other chain or into the back link.
    pub fn insert_at_head_with(&mut self, key: T, copy: T)
        requires
            old(self).wf(),
            old(self).length < u32::MAX,
        ensures
            *final(self) == old(self).head_inserted(key, copy),
            final(self).wf(),
    {
        let mut node = Box::new(Node::new(key));
        match self.head.take() {
            None => {
                self.head = Some(Box::new(Node::new(copy)));
                self.tail = Some(node);
            },
            Some(mut head) => {
                head.prev = Some(Box::new(Node::new(copy)));
                proof {
                    lemma_chain_len_by_link(*head, *old(self).head->0);
                }
                node.next = Some(head);
                assert(node.next_len() == 1 + head.next_len());
                self.head = Some(node);
            },
        }
        self.length += 1;
    }

    /// Inserts `key` at the tail, given the copy of it that goes into the
    /// other chain or into the forward link.
    pub fn insert_at_tail_with(&mut self, key: T, copy: T)
        requires
            old(self).wf(),
            old(self).length < u32::MAX,
        ensures
            *final(self) == old(self).tail_inserted(key, copy),
            final(self).wf(),
    {
        let mut node = Box::new(Node::new(key));
        match self.tail.take() {
            None => {
                self.head = Some(Box::new(Node::new(copy)));
                self.tail = Some(node);
            },
            Some(mut tail) => {
                tail.next = Some(Box::new(Node::new(copy)));
                proof {
                    lemma_chain_len_by_link(*tail, *old(self).tail->0);
                }
                node.prev = Some(tail);
                assert(node.prev_len() == 1 + tail.prev_len());
                self.tail = Some(node);
            },
        }
        self.length += 1;
    }

    /// Deletes the node at the head and returns its key; `None` for an empty
    /// list.
    pub fn delete_head(&mut self) -> (deleted: Option<T>)
        requires
            old(self).wf(),
        ensures
            deleted == match old(self).head {
                None => None,
                Some(head) => Some(head.key),
            },
            *final(self) == old(self).head_deleted(),
            final(self).wf(),
    {
        match self.head.take() {
            None => None,
            Some(head) => {
                let head = *head;
                proof {
                    lemma_chain_len_by_link(head, *old(self).tail->0);
                }
                match head.next {
                    None => {
                        self.tail = None;
                    },
                    Some(mut next) => {
                        assert(head.next_len() == 1 + next.next_len());
                        let ghost linked = *next;
                        next.prev = None;
                        proof {
                            lemma_chain_len_by_link(*next, linked);
                        }
                        self.head = Some(next);
                    },
                }
                self.length -= 1;
                Some(head.key)
            },
        }
    }

    /// Deletes the node at the tail and returns its key; `None` for an empty
    /// list.
    pub fn delete_tail(&mut self) -> (deleted: Option<T>)
        requires
            old(self).wf(),
        ensures
            deleted == match old(self).tail {
                None => None,
                Some(tail) => Some(tail.key),
            },
            *final(self) == old(self).tail_deleted(),
            final(self).wf(),
    {
        match self.tail.take() {
            None => None,
            Some(tail) => {
                let tail = *tail;
                proof {
                    lemma_chain_len_by_link(tail, *old(self).head->0);
                }
                match tail.prev {
                    None => {
                        self.head = None;
                    },
                    Some(mut prev) => {
                        assert(tail.prev_len() == 1 + prev.prev_len());
                        let ghost linked = *prev;
                        prev.next = None;
                        proof {
                            lemma_chain_len_by_link(*prev, linked);
                        }
                        self.tail = Some(prev);
                    },
                }
                self.length -= 1;
                Some(tail.key)
            },
        }
    }
}

impl<T: Clone> DoublyLinkedList<T> {
    /// Inserts `key` at the head.
    ///
    /// One copy of `key` is made: it becomes the head of an empty list, whose
    /// tail is `key` itself, or the back link of the old head.
    pub fn insert_at_head(&mut self, key: T)
        requires
            old(self).wf(),
            old(self).length < u32::MAX,
        ensures
            exists|copy: T|
                (#[trigger] cloned(key, copy)) && *final(self) == old(self).head_inserted(
                    key,
                    copy,
                ),
            final(self).wf(),
    {
        let copy = key.clone();
        assert(cloned(key, copy));
        self.insert_at_head_with(key, copy);
    }

    /// Inserts `key` at the tail.
    ///
    /// One copy of `key` is made: it becomes the head of an empty list, whose
    /// tail is `key` itself, or the forward link of the old tail.
    pub fn insert_at_tail(&mut self, key: T)
        requires
            old(self).wf(),
            old(self).length < u32::MAX,
        ensures
            exists|copy: T|
                (#[trigger] cloned(key, copy)) && *final(self) == old(self).tail_inserted(
                    key,
                    copy,
                ),
            final(self).wf(),
    {
        let copy = key.clone();
        assert(cloned(key, copy));
        self.insert_at_tail_with(key, copy);
    }
}

impl<T: PartialEq> DoublyLinkedList<T> {
    /// Finds the first node from the head on, along `next`, whose key equals
    /// `key`.
    pub fn search_by_key(&mut self, key: T) -> (found: Option<&Box<Node<T>>>)
        ensures
            *final(self) == *old(self),
            T::obeys_eq_spec() ==> match first_with_key(old(self).head, key) {
                None => found is None,
                Some(node) => found is Some && *found->0 == node,
            },
    {
        let mut current_node = &self.head;
        loop
            invariant_except_break
                T::obeys_eq_spec() ==> first_with_key(self.head, key) == first_with_key(
                    *current_node,
                    key,
                ),
            ensures
                T::obeys_eq_spec() ==> match first_with_key(self.head, key) {
                    None => current_node is None,
                    Some(node) => current_node is Some && current_node->0 == node,
                },
            decreases *current_node,
        {
            match current_node {
                None => {
                    break ;
                },
                Some(node) => {
                    if node.key == key {
                        break ;
                    }
                    current_node = &node.next;
                },
            }
        }
        current_node.as_ref()
    }
}

} // verus!
