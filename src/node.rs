use vstd::prelude::*;

verus! {

/// One vertex of the forest: a parent index (heavy or light edge), the two
/// splay-tree children, and the size of its splay subtree.
#[derive(Clone, Copy, Debug, PartialEq, Eq)]
pub struct LCTNode {
    pub parent: Option<usize>,
    pub left: Option<usize>,
    pub right: Option<usize>,
    pub len: usize,
}

impl LCTNode {
    /// The child stored in slot `dir` (0 is left, 1 is right).
    pub open spec fn child_spec(self, dir: int) -> Option<usize> {
        if dir == 0 {
            self.left
        } else {
            self.right
        }
    }

    /// This node with slot `dir` set to `c`.
    pub open spec fn with_child(self, dir: int, c: Option<usize>) -> LCTNode {
        if dir == 0 {
            LCTNode { left: c, ..self }
        } else {
            LCTNode { right: c, ..self }
        }
    }

    pub fn get_child(&self, dir: usize) -> (r: Option<usize>)
        requires
            dir < 2,
        ensures
            r == self.child_spec(dir as int),
    {
        if dir == 0 {
            self.left
        } else {
            self.right
        }
    }

    pub fn set_child(&mut self, dir: usize, c: Option<usize>)
        requires
            dir < 2,
        ensures
            *final(self) == old(self).with_child(dir as int, c),
    {
        if dir == 0 {
            self.left = c;
        } else {
            self.right = c;
        }
    }
}

} // verus!
