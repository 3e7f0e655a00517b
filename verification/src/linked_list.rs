//! The free lists of the buddy allocator: singly linked stacks of block
//! addresses. The kernel threads them through the free blocks themselves; here
//! a list is its sequence of addresses, head first.
use vstd::prelude::*;

verus! {

/// A stack of block addresses; the head is the most recently pushed entry.
#[derive(Debug, Clone)]
pub struct LinkedList {
    /// The entries, with the head last.
    items: Vec<usize>,
}

impl View for LinkedList {
    type V = Seq<usize>;

    /// The entries in list order: the head first.
    closed spec fn view(&self) -> Seq<usize> {
        Seq::new(self.items@.len(), |i: int| self.items@[self.items@.len() - 1 - i])
    }
}

impl LinkedList {
    /// An empty list.
    pub fn new() -> (l: LinkedList)
        ensures
            l@ == Seq::<usize>::empty(),
    {
        let l = LinkedList { items: Vec::new() };
        assert(l@ =~= Seq::<usize>::empty());
        l
    }

    /// Whether the list holds no entry.
    pub fn is_empty(&self) -> (b: bool)
        ensures
            b == (self@.len() == 0),
    {
        self.items.len() == 0
    }

    /// The number of entries.
    pub fn len(&self) -> (n: usize)
        ensures
            n == self@.len(),
    {
        self.items.len()
    }

    /// Whether `v` is on the list.
    pub fn contains(&self, v: usize) -> (b: bool)
        ensures
            b == self@.contains(v),
    {
        let n = self.items.len();
        let mut i: usize = 0;
        while i < n
            invariant
                n == self@.len(),
                i <= n,
                forall|j: int| 0 <= j < i ==> self@[j] != v,
            decreases n - i,
        {
            if self.get(i) == v {
                return true;
            }
            i = i + 1;
        }
        false
    }

    /// Makes `entry` the new head.
    pub fn push(&mut self, entry: usize)
        ensures
            final(self)@ == seq![entry] + old(self)@,
    {
        self.items.push(entry);
        assert(self@ =~= seq![entry] + old(self)@);
    }

    /// Takes the head off the list, if there is one.
    pub fn pop(&mut self) -> (r: Option<usize>)
        ensures
            old(self)@.len() == 0 ==> r is None && final(self)@ == old(self)@,
            old(self)@.len() > 0 ==> r == Some(old(self)@[0]) && final(self)@
                == old(self)@.drop_first(),
    {
        if self.is_empty() {
            None
        } else {
            let r = self.items.pop();
            assert(self@ =~= old(self)@.drop_first());
            r
        }
    }

    /// The entry at `index`, counting from the head.
    fn get(&self, index: usize) -> (v: usize)
        requires
            index < self@.len(),
        ensures
            v == self@[index as int],
    {
        self.items[self.items.len() - 1 - index]
    }

    /// Unlinks the entry at `index`, counting from the head, and returns it.
    fn remove_at(&mut self, index: usize) -> (v: usize)
        requires
            index < old(self)@.len(),
        ensures
            v == old(self)@[index as int],
            final(self)@ == old(self)@.remove(index as int),
    {
        let k = self.items.len() - 1 - index;
        let v = self.items.remove(k);
        assert(self@ =~= old(self)@.remove(index as int));
        v
    }

    /// A read-only walk over the entries, from the head.
    pub fn iter(&self) -> (it: Iter<'_>)
        ensures
            it.list() == self,
            it.position() == 0,
    {
        Iter { list: self, pos: 0 }
    }

    /// A walk over the entries, from the head, whose nodes can unlink
    /// themselves.
    pub fn iter_mut(&mut self) -> (it: IterMut)
        ensures
            it.position() == 0,
            it.seen() == old(self)@.len(),
            final(self)@ == old(self)@,
    {
        IterMut { pos: 0, seen: self.len() }
    }
}

/// A read-only walk over a list.
pub struct Iter<'a> {
    list: &'a LinkedList,
    pos: usize,
}

impl<'a> Iter<'a> {
    /// The list being walked.
    pub closed spec fn list(&self) -> &'a LinkedList {
        self.list
    }

    /// How many entries the walk has handed out.
    pub closed spec fn position(&self) -> nat {
        self.pos as nat
    }

    /// The next entry, or `None` once the walk has passed the tail.
    pub fn next(&mut self) -> (r: Option<usize>)
        ensures
            final(self).list() == old(self).list(),
            old(self).position() < old(self).list()@.len() ==> r == Some(
                old(self).list()@[old(self).position() as int],
            ) && final(self).position() == old(self).position() + 1,
            old(self).position() >= old(self).list()@.len() ==> r is None && final(self).position()
                == old(self).position(),
    {
        if self.pos < self.list.len() {
            let v = self.list.get(self.pos);
            self.pos = self.pos + 1;
            Some(v)
        } else {
            None
        }
    }
}

/// A node handed out by [`IterMut`]: an entry and where it stands.
pub struct ListNode {
    index: usize,
    cur: usize,
}

impl ListNode {
    /// The position of the node, counting from the head.
    pub closed spec fn index(&self) -> nat {
        self.index as nat
    }

    /// The address the node holds.
    pub closed spec fn spec_value(&self) -> usize {
        self.cur
    }

    /// The address the node holds.
    pub fn value(&self) -> (v: usize)
        ensures
            v == self.spec_value(),
    {
        self.cur
    }

    /// Unlinks the node from the list it was found in and returns its address.
    pub fn remove(self, list: &mut LinkedList) -> (v: usize)
        requires
            self.index() < old(list)@.len(),
            old(list)@[self.index() as int] == self.spec_value(),
        ensures
            v == self.spec_value(),
            final(list)@ == old(list)@.remove(self.index() as int),
    {
        list.remove_at(self.index)
    }
}

/// Where a walk that has handed out nodes up to `position` of a list that had
/// `seen` entries goes on, now that the list has `len` entries. While the walk
/// lasts the list only changes by the removal of the node handed out last;
/// when that happened, the entry that followed it now stands at its place, and
/// the walk goes on with that entry.
pub open spec fn resume_index(position: nat, seen: nat, len: nat) -> nat {
    if len < seen && position > 0 {
        (position - 1) as nat
    } else {
        position
    }
}

/// A walk over a list that hands out removable nodes.
pub struct IterMut {
    pos: usize,
    seen: usize,
}

impl IterMut {
    /// How many nodes the walk has handed out.
    pub closed spec fn position(&self) -> nat {
        self.pos as nat
    }

    /// How many entries the list had at the walk's last step.
    pub closed spec fn seen(&self) -> nat {
        self.seen as nat
    }

    /// The next node of `list`, or `None` once the walk has passed the tail.
    /// If the node handed out last was removed, the next node is the entry
    /// that followed it.
    pub fn next(&mut self, list: &LinkedList) -> (r: Option<ListNode>)
        ensures
            final(self).seen() == list@.len(),
            ({
                let p = resume_index(old(self).position(), old(self).seen(), list@.len());
                &&& p < list@.len() ==> r is Some && r->0.index() == p && r->0.spec_value()
                    == list@[p as int] && final(self).position() == p + 1
                &&& p >= list@.len() ==> r is None && final(self).position() == p
            }),
    {
        let len = list.len();
        if len < self.seen && self.pos > 0 {
            self.pos = self.pos - 1;
        }
        self.seen = len;
        if self.pos < len {
            let node = ListNode { index: self.pos, cur: list.get(self.pos) };
            self.pos = self.pos + 1;
            Some(node)
        } else {
            None
        }
    }
}

/// A list is a stack: popping right after a push gives back the pushed
/// address and the list as it was.
pub proof fn lemma_push_then_pop(before: Seq<usize>, entry: usize)
    ensures
        (seq![entry] + before).len() > 0,
        (seq![entry] + before)[0] == entry,
        (seq![entry] + before).drop_first() == before,
{
    assert((seq![entry] + before).drop_first() =~= before);
}

} // verus!
