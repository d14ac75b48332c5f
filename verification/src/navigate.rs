//! Moving through the tree: down to the ends of a subtree, up to the next
//! node in ascending order, and down by key comparison.

use vstd::prelude::*;
use crate::model::counted;
use crate::node::NIL;
use crate::raw::RawTree;

verus! {

impl RawTree {
    /// Follows left links from `node` to the first node of its subtree.
    pub(crate) fn leftmost_child(&self, node: usize) -> (first: usize)
        requires
            self.wf_shape(),
            self.graph().live(node),
        ensures
            self.graph().live(first),
            self.nodes@[first as int].left == NIL,
            self.span@[first as int].at == self.span@[node as int].lo,
            self.span@[first as int].hi <= self.span@[node as int].hi,
    {
        let ghost g = self.graph();
        let mut cur: usize = node;
        proof {
            assert(g.slot_ok(cur));
        }
        while self.nodes[cur].left != NIL
            invariant
                self.wf_shape(),
                g == self.graph(),
                g.live(cur),
                g.slot_ok(cur),
                g.span[cur as int].lo == g.span[node as int].lo,
                g.span[cur as int].hi <= g.span[node as int].hi,
            decreases g.span[cur as int].at - g.span[cur as int].lo,
        {
            cur = self.nodes[cur].left;
            proof {
                assert(g.slot_ok(cur));
            }
        }
        cur
    }

    /// Follows right links from `node` to the last node of its subtree.
    pub(crate) fn rightmost_child(&self, node: usize) -> (last: usize)
        requires
            self.wf_shape(),
            self.graph().live(node),
        ensures
            self.graph().live(last),
            self.nodes@[last as int].right == NIL,
            self.span@[last as int].at == self.span@[node as int].hi - 1,
            self.span@[last as int].lo >= self.span@[node as int].lo,
    {
        let ghost g = self.graph();
        let mut cur: usize = node;
        proof {
            assert(g.slot_ok(cur));
        }
        while self.nodes[cur].right != NIL
            invariant
                self.wf_shape(),
                g == self.graph(),
                g.live(cur),
                g.slot_ok(cur),
                g.span[cur as int].hi == g.span[node as int].hi,
                g.span[cur as int].lo >= g.span[node as int].lo,
            decreases g.span[cur as int].hi - g.span[cur as int].at,
        {
            cur = self.nodes[cur].right;
            proof {
                assert(g.slot_ok(cur));
            }
        }
        cur
    }

    /// Climbs from `node` to the nearest ancestor that is reached through its
    /// left link: the node that follows the subtree of `node` in ascending
    /// order. `NIL` where the subtree of `node` ends the sequence.
    pub(crate) fn parent_with_left(&self, node: usize) -> (up: usize)
        requires
            self.wf_shape(),
            self.graph().live(node),
        ensures
            self.span@[node as int].hi == self.order@.len() ==> up == NIL,
            self.span@[node as int].hi != self.order@.len() ==> self.graph().live(up)
                && self.span@[up as int].at == self.span@[node as int].hi,
    {
        let ghost g = self.graph();
        let mut cur: usize = node;
        proof {
            assert(g.slot_ok(cur));
        }
        loop
            invariant
                self.wf_shape(),
                g == self.graph(),
                g.live(cur),
                g.slot_ok(cur),
                g.span[cur as int].hi == g.span[node as int].hi,
            decreases g.order.len() - (g.span[cur as int].hi - g.span[cur as int].lo),
        {
            let parent: usize = self.nodes[cur].parent;
            if parent == NIL {
                return NIL;
            }
            proof {
                assert(g.slot_ok(parent));
            }
            if self.nodes[parent].left == cur {
                return parent;
            }
            cur = parent;
        }
    }

    /// Climbs from `node` to the nearest ancestor that is reached through its
    /// right link: the node that precedes the subtree of `node` in ascending
    /// order. `NIL` where the subtree of `node` starts the sequence.
    pub(crate) fn parent_with_right(&self, node: usize) -> (up: usize)
        requires
            self.wf_shape(),
            self.graph().live(node),
        ensures
            self.span@[node as int].lo == 0 ==> up == NIL,
            self.span@[node as int].lo != 0 ==> self.graph().live(up) && self.span@[up as int].at
                == self.span@[node as int].lo - 1,
    {
        let ghost g = self.graph();
        let mut cur: usize = node;
        proof {
            assert(g.slot_ok(cur));
        }
        loop
            invariant
                self.wf_shape(),
                g == self.graph(),
                g.live(cur),
                g.slot_ok(cur),
                g.span[cur as int].lo == g.span[node as int].lo,
            decreases g.order.len() - (g.span[cur as int].hi - g.span[cur as int].lo),
        {
            let parent: usize = self.nodes[cur].parent;
            if parent == NIL {
                return NIL;
            }
            proof {
                assert(g.slot_ok(parent));
            }
            if self.nodes[parent].right == cur {
                return parent;
            }
            cur = parent;
        }
    }

    /// The node that follows `node` in ascending order, or `NIL` after the
    /// last one.
    pub(crate) fn successor_of_node(&self, node: usize) -> (next: usize)
        requires
            self.wf_shape(),
            self.graph().live(node),
        ensures
            self.span@[node as int].at + 1 == self.order@.len() ==> next == NIL,
            self.span@[node as int].at + 1 != self.order@.len() ==> next
                == self.order@[self.span@[node as int].at + 1],
            next != NIL ==> self.graph().live(next),
            self.nodes@[node as int].right != NIL ==> next != NIL && self.nodes@[next as int].left
                == NIL,
    {
        proof {
            assert(self.graph().slot_ok(node));
        }
        let next: usize = if self.nodes[node].right != NIL {
            self.leftmost_child(self.nodes[node].right)
        } else {
            self.parent_with_left(node)
        };
        proof {
            if next != NIL {
                assert(self.graph().slot_ok(next));
            }
        }
        next
    }

    /// The node that precedes `node` in ascending order, or `NIL` before the
    /// first one.
    pub(crate) fn predecessor_of_node(&self, node: usize) -> (prev: usize)
        requires
            self.wf_shape(),
            self.graph().live(node),
        ensures
            self.span@[node as int].at == 0 ==> prev == NIL,
            self.span@[node as int].at != 0 ==> prev == self.order@[self.span@[node as int].at - 1],
            prev != NIL ==> self.graph().live(prev),
            self.nodes@[node as int].left != NIL ==> prev != NIL && self.nodes@[prev as int].right
                == NIL,
    {
        proof {
            assert(self.graph().slot_ok(node));
        }
        let prev: usize = if self.nodes[node].left != NIL {
            self.rightmost_child(self.nodes[node].left)
        } else {
            self.parent_with_right(node)
        };
        proof {
            if prev != NIL {
                assert(self.graph().slot_ok(prev));
            }
        }
        prev
    }

    /// Descends from `fromnode` by key comparison and returns the node that
    /// holds `data`, or `NIL` where the subtree of `fromnode` does not hold
    /// it. Each step down counts as one node visit.
    pub(crate) fn find_node(&mut self, fromnode: usize, data: i32) -> (found: usize)
        requires
            old(self).wf_shape(),
            old(self).graph().sorted(),
            fromnode != NIL ==> old(self).graph().live(fromnode),
        ensures
            final(self).same_tree(old(self)),
            final(self).accessed_nodes == counted(
                old(self).accessed_nodes as nat,
                old(self).graph().shape_at(fromnode).misses(data),
            ),
            found != NIL ==> {
                &&& final(self).graph().live(found)
                &&& final(self).nodes@[found as int].data == data
                &&& fromnode != NIL
                &&& old(self).span@[fromnode as int].lo <= old(self).span@[found as int].at
                    < old(self).span@[fromnode as int].hi
            },
            found == NIL && fromnode != NIL ==> forall|p: int|
                old(self).span@[fromnode as int].lo <= p < old(self).span@[fromnode as int].hi
                    ==> #[trigger] old(self).graph().key_at(p) != data,
    {
        let ghost g = self.graph();
        let ghost mut lo: int = 0;
        let ghost mut hi: int = 0;
        let mut cur: usize = fromnode;
        proof {
            if fromnode != NIL {
                assert(g.slot_ok(fromnode));
                lo = g.span[fromnode as int].lo;
                hi = g.span[fromnode as int].hi;
            }
        }
        let ghost lo0 = lo;
        let ghost hi0 = hi;
        while cur != NIL && self.nodes[cur].data != data
            invariant
                self.same_tree(old(self)),
                counted(self.accessed_nodes as nat, g.shape_at(cur).misses(data)) == counted(
                    old(self).accessed_nodes as nat,
                    g.shape_at(fromnode).misses(data),
                ),
                g == self.graph(),
                g.shape_ok(),
                g.sorted(),
                cur != NIL ==> g.live(cur) && g.slot_ok(cur) && lo == g.span[cur as int].lo && hi
                    == g.span[cur as int].hi,
                cur == NIL ==> lo == hi,
                cur != NIL ==> fromnode != NIL,
                fromnode != NIL ==> lo0 == g.span[fromnode as int].lo && hi0
                    == g.span[fromnode as int].hi,
                lo0 <= lo <= hi <= hi0,
                0 <= lo0 && hi0 <= g.order.len(),
                forall|p: int| lo0 <= p < lo ==> #[trigger] g.key_at(p) < data,
                forall|p: int| hi <= p < hi0 ==> data < #[trigger] g.key_at(p),
            decreases hi - lo + (if cur != NIL { 1int } else { 0int }),
        {
            self.increase_nodes();
            let ghost at = g.span[cur as int].at;
            proof {
                assert(g.key_at(at) == g.nodes[cur as int].data);
                g.lemma_descent(cur, data);
            }
            if data < self.nodes[cur].data {
                proof {
                    assert forall|p: int| at <= p < hi0 implies data < #[trigger] g.key_at(p) by {
                        if p > at {
                            assert(g.key_at(at) < g.key_at(p));
                        }
                    }
                    hi = at;
                }
                cur = self.nodes[cur].left;
            } else {
                proof {
                    assert forall|p: int| lo0 <= p < at + 1 implies #[trigger] g.key_at(p) < data by {
                        if p < at {
                            assert(g.key_at(p) < g.key_at(at));
                        }
                    }
                    lo = at + 1;
                }
                cur = self.nodes[cur].right;
            }
            proof {
                if cur != NIL {
                    assert(g.slot_ok(cur));
                }
            }
        }
        proof {
            if cur != NIL {
                assert(g.key_at(g.span[cur as int].at) == g.nodes[cur as int].data);
                g.lemma_descent(cur, data);
            }
        }
        cur
    }
}

} // verus!
