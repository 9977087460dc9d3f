//! An ordered list of owned nodes with stable access by position handle.
//!
//! A handle is the current position of a node, counted from the front;
//! `begin_node`/`end_node` hand out the handles of the boundary nodes.
//! Any mutation may shift positions, so a handle is taken immediately
//! before the operation that consumes it.
//!
//! The view of a list is the sequence of its elements, front first.

use vstd::prelude::*;

verus! {

/// Position of the node a splice inserts before: the handle itself, or the
/// front of an empty destination list.
pub open spec fn splice_before_pos(dst_node: Option<usize>) -> int {
    match dst_node {
        Some(d) => d as int,
        None => 0,
    }
}

/// Position a splice inserts at when placing the node after the destination
/// handle: one past the handle, or the front of an empty destination list.
pub open spec fn splice_after_pos(dst_node: Option<usize>) -> int {
    match dst_node {
        Some(d) => d as int + 1,
        None => 0,
    }
}

/// The sequence `s` after moving the node at position `i` to just before the
/// node at position `d`; moving a node before itself changes nothing.
pub open spec fn moved_before<T>(s: Seq<T>, d: int, i: int) -> Seq<T> {
    if d == i {
        s
    } else if i < d {
        s.remove(i).insert(d - 1, s[i])
    } else {
        s.remove(i).insert(d, s[i])
    }
}

pub struct List<T> {
    items: Vec<T>,
}

impl<T> View for List<T> {
    type V = Seq<T>;

    closed spec fn view(&self) -> Seq<T> {
        self.items@
    }
}

impl<T> List<T> {
    pub fn new() -> (r: List<T>)
        ensures
            r@ == Seq::<T>::empty(),
    {
        List { items: Vec::new() }
    }

    pub fn len(&self) -> (r: usize)
        ensures
            r == self@.len(),
    {
        self.items.len()
    }

    pub fn is_empty(&self) -> (r: bool)
        ensures
            r == (self@.len() == 0),
    {
        self.items.len() == 0
    }

    pub fn push_back(&mut self, ele: T)
        ensures
            final(self)@ == old(self)@.push(ele),
    {
        self.items.push(ele);
    }

    pub fn push_front(&mut self, ele: T)
        ensures
            final(self)@ == seq![ele] + old(self)@,
    {
        self.items.insert(0, ele);
        proof {
            assert(self.items@ =~= seq![ele] + old(self)@);
        }
    }

    pub fn pop_front(&mut self) -> (r: Option<T>)
        ensures
            old(self)@.len() == 0 ==> r is None && final(self)@ == old(self)@,
            old(self)@.len() > 0 ==> r == Some(old(self)@[0]) && final(self)@ == old(
                self,
            )@.drop_first(),
    {
        if self.items.len() == 0 {
            None
        } else {
            let e = self.items.remove(0);
            proof {
                assert(self.items@ =~= old(self)@.drop_first());
            }
            Some(e)
        }
    }

    pub fn pop_back(&mut self) -> (r: Option<T>)
        ensures
            old(self)@.len() == 0 ==> r is None && final(self)@ == old(self)@,
            old(self)@.len() > 0 ==> r == Some(old(self)@.last()) && final(self)@ == old(
                self,
            )@.drop_last(),
    {
        let r = self.items.pop();
        proof {
            if old(self)@.len() > 0 {
                assert(self.items@ =~= old(self)@.drop_last());
            }
        }
        r
    }

    /// Handle of the front node, absent when the list is empty.
    pub fn begin_node(&self) -> (r: Option<usize>)
        ensures
            self@.len() == 0 ==> r is None,
            self@.len() > 0 ==> r == Some(0usize),
    {
        if self.items.len() == 0 {
            None
        } else {
            Some(0)
        }
    }

    /// Handle of the back node, absent when the list is empty.
    pub fn end_node(&self) -> (r: Option<usize>)
        ensures
            self@.len() == 0 ==> r is None,
            self@.len() > 0 ==> (r matches Some(d) && d == self@.len() - 1),
    {
        if self.items.len() == 0 {
            None
        } else {
            Some(self.items.len() - 1)
        }
    }

    pub fn front(&self) -> (r: Option<&T>)
        ensures
            self@.len() == 0 ==> r is None,
            self@.len() > 0 ==> (r matches Some(e) && *e == self@[0]),
    {
        if self.items.len() == 0 {
            None
        } else {
            Some(&self.items[0])
        }
    }

    pub fn back(&self) -> (r: Option<&T>)
        ensures
            self@.len() == 0 ==> r is None,
            self@.len() > 0 ==> (r matches Some(e) && *e == self@.last()),
    {
        if self.items.len() == 0 {
            None
        } else {
            Some(&self.items[self.items.len() - 1])
        }
    }

    /// Read-only access to the node at a handle.
    pub fn get(&self, node: usize) -> (r: &T)
        requires
            node < self@.len(),
        ensures
            *r == self@[node as int],
    {
        &self.items[node]
    }

    /// Replaces the element at a handle, returning the old element.
    pub fn replace_at(&mut self, node: usize, ele: T) -> (r: T)
        requires
            node < old(self)@.len(),
        ensures
            r == old(self)@[node as int],
            final(self)@ == old(self)@.update(node as int, ele),
    {
        let r = self.items.remove(node);
        self.items.insert(node, ele);
        proof {
            assert(self.items@ =~= old(self)@.update(node as int, ele));
        }
        r
    }

    /// Detaches the node at `src_node` from `src` and re-links it in `self`
    /// immediately after `dst_node` (at the front when `dst_node` is absent,
    /// which is only allowed on an empty destination).
    pub fn splice_back(&mut self, dst_node: Option<usize>, src: &mut List<T>, src_node: usize)
        requires
            src_node < old(src)@.len(),
            match dst_node {
                Some(d) => d < old(self)@.len(),
                None => old(self)@.len() == 0,
            },
        ensures
            final(src)@ == old(src)@.remove(src_node as int),
            final(self)@ == old(self)@.insert(
                splice_after_pos(dst_node),
                old(src)@[src_node as int],
            ),
    {
        let ele = src.items.remove(src_node);
        match dst_node {
            Some(d) => {
                // d is below the node count, which a usize holds, so d + 1 fits
                let n: usize = self.items.len();
                self.items.insert(d + 1, ele);
            },
            None => self.items.insert(0, ele),
        }
    }

    /// Detaches the node at `src_node` from `src` and re-links it in `self`
    /// immediately before `dst_node` (at the front when `dst_node` is absent,
    /// which is only allowed on an empty destination).
    pub fn splice_front(&mut self, dst_node: Option<usize>, src: &mut List<T>, src_node: usize)
        requires
            src_node < old(src)@.len(),
            match dst_node {
                Some(d) => d < old(self)@.len(),
                None => old(self)@.len() == 0,
            },
        ensures
            final(src)@ == old(src)@.remove(src_node as int),
            final(self)@ == old(self)@.insert(
                splice_before_pos(dst_node),
                old(src)@[src_node as int],
            ),
    {
        let ele = src.items.remove(src_node);
        match dst_node {
            Some(d) => self.items.insert(d, ele),
            None => self.items.insert(0, ele),
        }
    }

    /// Moves the node at `src_node` to just before `dst_node` within this
    /// list; a move onto itself changes nothing.
    pub fn splice_self_front(&mut self, dst_node: Option<usize>, src_node: usize)
        requires
            src_node < old(self)@.len(),
            match dst_node {
                Some(d) => d < old(self)@.len(),
                None => old(self)@.len() == 0,
            },
        ensures
            match dst_node {
                Some(d) => final(self)@ == moved_before(old(self)@, d as int, src_node as int),
                None => final(self)@ == old(self)@,
            },
    {
        match dst_node {
            None => {},
            Some(d) => {
                if d != src_node {
                    let ele = self.items.remove(src_node);
                    let d2: usize = if src_node < d {
                        d - 1
                    } else {
                        d
                    };
                    self.items.insert(d2, ele);
                }
            },
        }
    }

    /// Removes the node at a handle, yielding ownership of its element.
    pub fn remove_node(&mut self, node: usize) -> (r: T)
        requires
            node < old(self)@.len(),
        ensures
            r == old(self)@[node as int],
            final(self)@ == old(self)@.remove(node as int),
    {
        self.items.remove(node)
    }
}

} // verus!
