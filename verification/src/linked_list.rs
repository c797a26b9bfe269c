//! A singly linked list of numbers, viewed as the sequence of its values.

use vstd::prelude::*;

verus! {

/// One node and whatever hangs off it.
pub struct Node {
    pub value: u32,
    pub link: Option<Box<Node>>,
}

/// The values of the list, front first.
pub open spec fn node_seq(n: Node) -> Seq<u32>
    decreases n,
{
    match n.link {
        Some(node) => seq![n.value] + node_seq(*node),
        None => seq![n.value],
    }
}

impl View for Node {
    type V = Seq<u32>;

    open spec fn view(&self) -> Seq<u32> {
        node_seq(*self)
    }
}


/// The new list came from the old one by inserting `value` right after the
/// first occurrence of `after`.
pub open spec fn inserted_after_first(
    older: Seq<u32>,
    newer: Seq<u32>,
    value: u32,
    after: u32,
) -> bool {
    exists|i: int|
        0 <= i < older.len() && older[i] == after && (forall|j: int|
            0 <= j < i ==> older[j] != after) && newer == older.insert(i + 1, value)
}

/// A non-empty list holds a value exactly when its head is the value or its
/// tail holds it.
proof fn lemma_cons_contains(head: u32, tail: Seq<u32>, after: u32)
    ensures
        (seq![head] + tail).contains(after) == (head == after || tail.contains(after)),
{
    let s = seq![head] + tail;
    if s.contains(after) {
        let w = choose|w: int| 0 <= w < s.len() && s[w] == after;
        if w > 0 {
            assert(tail[w - 1] == after);
        }
    }
    if head == after {
        assert(s[0] == after);
    }
    if tail.contains(after) {
        let w = choose|w: int| 0 <= w < tail.len() && tail[w] == after;
        assert(s[w + 1] == after);
    }
}

impl Node {
    /// A list of one value.
    pub fn new(value: u32) -> (r: Node)
        ensures
            r@ == seq![value],
    {
        Node { value: value, link: None }
    }

    /// Appends a value at the end of the list.
    pub fn append(&mut self, value: u32)
        ensures
            final(self)@ == old(self)@ + seq![value],
        decreases *old(self),
    {
        match &mut self.link {
            Some(node) => {
                node.append(value);
                proof {
                    assert(self@ =~= old(self)@ + seq![value]);
                }
            },
            None => {
                self.link = Some(Box::new(Node::new(value)));
                proof {
                    assert(self@ =~= old(self)@ + seq![value]);
                }
            },
        }
    }

    /// The number of values in the list.
    pub fn length(&self) -> (r: u32)
        requires
            self@.len() <= u32::MAX,
        ensures
            r == self@.len(),
        decreases *self,
    {
        match &self.link {
            Some(node) => node.length() + 1,
            None => 1,
        }
    }

    /// Inserts a value right after the first node holding `after`; tells
    /// whether such a node was found.
    pub fn insert_after(&mut self, value: u32, after: u32) -> (r: bool)
        ensures
            r == old(self)@.contains(after),
            r ==> inserted_after_first(old(self)@, final(self)@, value, after),
            !r ==> final(self)@ == old(self)@,
        decreases *old(self),
    {
        if self.value == after {
            self.link = Some(Box::new(Node { value: value, link: self.link.take() }));
            proof {
                let inner = Node { value: value, link: old(self).link };
                assert(node_seq(*self) == seq![self.value] + node_seq(inner));
                match old(self).link {
                    Some(t) => {
                        assert(node_seq(inner) == seq![value] + node_seq(*t));
                        assert(node_seq(*old(self)) == seq![old(self).value] + node_seq(*t));
                    },
                    None => {
                        assert(node_seq(inner) == seq![value]);
                        assert(node_seq(*old(self)) == seq![old(self).value]);
                    },
                }
                assert(old(self)@[0] == after);
                assert(old(self)@.contains(after));
                assert(self@ =~= old(self)@.insert(1, value));
                assert(0 <= 0 < old(self)@.len() && old(self)@[0] == after && (forall|j: int|
                    0 <= j < 0 ==> old(self)@[j] != after) && self@ == old(self)@.insert(
                    1int,
                    value,
                ));
            }
            true
        } else {
            match &mut self.link {
                Some(node) => {
                    let ghost tailold = node@;
                    let r = node.insert_after(value, after);
                    proof {
                        assert(old(self)@ =~= seq![old(self).value] + tailold);
                        lemma_cons_contains(old(self).value, tailold, after);
                        if r {
                            let ti = choose|i: int|
                                0 <= i < tailold.len() && tailold[i] == after && (forall|j: int|
                                    0 <= j < i ==> tailold[j] != after) && node@ == tailold.insert(
                                    i + 1,
                                    value,
                                );
                            assert forall|j: int| 0 <= j < ti + 1 implies old(self)@[j]
                                != after by {
                                if j > 0 {
                                    assert(old(self)@[j] == tailold[j - 1]);
                                }
                            }
                            assert(old(self)@[ti + 1] == tailold[ti]);
                            assert(self@ =~= old(self)@.insert(ti + 2, value));
                        } else {
                            assert(self@ =~= old(self)@);
                        }
                    }
                    r
                },
                None => {
                    proof {
                        assert(self@ =~= seq![self.value]);
                        lemma_cons_contains(self.value, Seq::<u32>::empty(), after);
                        assert(old(self)@ =~= seq![self.value] + Seq::<u32>::empty());
                    }
                    false
                },
            }
        }
    }
}

} // verus!
