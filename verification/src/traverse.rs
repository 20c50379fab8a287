//! Depth-first, pre-order traversal of a scene tree.
//!
//! The order of a traversal is defined once, as a sequence of node indices,
//! and everything else is stated against it: the plan that tells which visit
//! is the parent of which, the world transforms composed along that plan, and
//! the draw calls issued for the nodes that carry geometry.

use crate::scene::SceneError;
use crate::scene::SceneGraph;
use vstd::prelude::*;

verus! {

/// One visit of a traversal: the node, and the position in the same
/// traversal at which its parent was visited.
#[derive(Clone, Copy, Debug, PartialEq, Eq)]
pub struct Step {
    /// The node that is visited.
    pub node: usize,
    /// Position of the visit of the node's parent; `None` for the root of
    /// the traversal.
    pub parent: Option<usize>,
}

/// One draw invocation of a traversal.
pub struct DrawCall<M> {
    /// Position in the traversal of the visit that issued the call.
    pub step: usize,
    /// The node that is drawn.
    pub node: usize,
    /// Geometry of the node.
    pub draw_handle: u32,
    /// Number of indices to draw.
    pub primitive_count: i32,
    /// The node's world transform, projected for the GPU.
    pub transform: M,
}

/// What one traversal computed.
pub struct Traversal<M> {
    /// The visits, in order.
    pub steps: Vec<Step>,
    /// The world transform of each visited node, aligned with `steps`.
    pub worlds: Vec<M>,
    /// The draw calls, in the order in which they are to be issued.
    pub calls: Vec<DrawCall<M>>,
}

/// The indices below `n` form a set of `n` elements.
proof fn lemma_index_range(n: nat)
    requires
        n <= usize::MAX + 1,
    ensures
        Set::new(|x: usize| x < n).finite(),
        Set::new(|x: usize| x < n).len() == n,
    decreases n,
{
    let s = Set::new(|x: usize| x < n);
    if n == 0 {
        assert(s =~= Set::empty());
    } else {
        lemma_index_range((n - 1) as nat);
        let prev = Set::new(|x: usize| x < (n - 1) as nat);
        assert(s =~= prev.insert((n - 1) as usize));
    }
}

/// A sequence of distinct indices below `n` has at most `n` elements.
proof fn lemma_distinct_below(s: Seq<usize>, n: nat)
    requires
        s.no_duplicates(),
        forall|i: int| 0 <= i < s.len() ==> s[i] < n,
        n <= usize::MAX + 1,
    ensures
        s.len() <= n,
{
    let range = Set::new(|x: usize| x < n);
    s.unique_seq_to_set();
    lemma_index_range(n);
    assert(s.to_set().subset_of(range));
    vstd::set_lib::lemma_len_subset(s.to_set(), range);
}

/// Filtering keeps a sequence free of repetitions.
proof fn lemma_filter_no_duplicates(s: Seq<usize>, pred: spec_fn(usize) -> bool)
    requires
        s.no_duplicates(),
    ensures
        s.filter(pred).no_duplicates(),
    decreases s.len(),
{
    reveal(Seq::filter);
    if s.len() > 0 {
        let rest = s.drop_last();
        lemma_filter_no_duplicates(rest, pred);
        if pred(s.last()) && rest.filter(pred).contains(s.last()) {
            rest.lemma_filter_contains_rev(pred, s.last());
            let i = choose|i: int| 0 <= i < rest.len() && rest[i] == s.last();
            assert(s[i] == s[s.len() - 1]);
        }
    }
}

impl<T> SceneGraph<T> {
    /// The nodes of the subtree at `n`, each node before its children and the
    /// children in their listed order.
    pub open spec fn preorder(&self, n: usize) -> Seq<usize>
        decreases self.depth_bound() - self.depth(n), self@[n as int].children@.len() + 1,
        when self.wf() && self.has(n)
    {
        seq![n] + self.preorder_children(n, self@[n as int].children@.len())
    }

    /// The subtrees of the first `k` children of `n`, one after the other.
    pub open spec fn preorder_children(&self, n: usize, k: nat) -> Seq<usize>
        decreases self.depth_bound() - self.depth(n), k,
        when self.wf() && self.has(n) && k <= self@[n as int].children@.len()
    {
        if k == 0 {
            Seq::empty()
        } else {
            proof {
                self.lemma_ranks();
            }
            self.preorder_children(n, (k - 1) as nat) + self.preorder(
                self@[n as int].children@[k - 1],
            )
        }
    }

    /// The subtree relation is transitive.
    pub proof fn lemma_subtree_transitive(&self, a: usize, b: usize, c: usize)
        requires
            self.wf(),
            self.has(b),
            self.has(c),
            self.in_subtree(a, b),
            self.in_subtree(b, c),
        ensures
            self.in_subtree(a, c),
        decreases self.depth(c),
    {
        if c != b && c != a {
            let p = self@[c as int].parent->0;
            self.lemma_parent(c);
            self.lemma_subtree_transitive(a, b, p);
        }
    }

    /// The ancestors of a node lie on one chain: of two of them, one is in
    /// the subtree of the other.
    pub proof fn lemma_ancestors_chain(&self, a: usize, b: usize, x: usize)
        requires
            self.wf(),
            self.has(x),
            self.in_subtree(a, x),
            self.in_subtree(b, x),
        ensures
            self.has(a) && self.has(b),
            self.in_subtree(a, b) || self.in_subtree(b, a),
        decreases self.depth(x),
    {
        self.lemma_subtree_depth(a, x);
        self.lemma_subtree_depth(b, x);
        if x != a && x != b {
            let p = self@[x as int].parent->0;
            self.lemma_parent(x);
            self.lemma_ancestors_chain(a, b, p);
        }
    }

    /// The subtrees of two different children of one node share no node.
    pub proof fn lemma_sibling_subtrees_disjoint(&self, n: usize, j: int, k: int, x: usize)
        requires
            self.wf(),
            self.has(n),
            self.has(x),
            0 <= j < k < self@[n as int].children@.len(),
            self.in_subtree(self@[n as int].children@[j], x),
        ensures
            !self.in_subtree(self@[n as int].children@[k], x),
    {
        let cj = self@[n as int].children@[j];
        let ck = self@[n as int].children@[k];
        self.lemma_ranks();
        if self.in_subtree(ck, x) {
            self.lemma_ancestors_chain(cj, ck, x);
            self.lemma_parent(cj);
            self.lemma_parent(ck);
            if self.in_subtree(cj, ck) {
                assert(self.in_subtree(cj, n));
                self.lemma_subtree_depth(cj, n);
            } else {
                assert(self.in_subtree(ck, n));
                self.lemma_subtree_depth(ck, n);
            }
        }
    }

    /// Every node of `preorder(n)` lies in the subtree at `n`.
    pub proof fn lemma_preorder_members(&self, n: usize)
        requires
            self.wf(),
            self.has(n),
        ensures
            forall|x: usize| #[trigger]
                self.preorder(n).contains(x) ==> self.has(x) && self.in_subtree(n, x),
        decreases self.depth_bound() - self.depth(n), self@[n as int].children@.len() + 1,
    {
        let kids = self@[n as int].children@;
        self.lemma_preorder_children_members(n, kids.len());
        assert forall|x: usize| #[trigger] self.preorder(n).contains(x) implies self.has(x)
            && self.in_subtree(n, x) by {
            if x != n {
                assert(self.preorder_children(n, kids.len()).contains(x));
                let j = choose|j: int| 0 <= j < kids.len() && self.in_subtree(kids[j], x);
                self.lemma_parent(kids[j]);
                self.lemma_subtree_transitive(n, kids[j], x);
            }
        }
    }

    /// Every node of `preorder_children(n, k)` lies under one of the first
    /// `k` children of `n`.
    pub proof fn lemma_preorder_children_members(&self, n: usize, k: nat)
        requires
            self.wf(),
            self.has(n),
            k <= self@[n as int].children@.len(),
        ensures
            forall|x: usize| #[trigger]
                self.preorder_children(n, k).contains(x) ==> self.has(x) && x != n && exists|
                    j: int,
                | 0 <= j < k && self.in_subtree(self@[n as int].children@[j], x),
        decreases self.depth_bound() - self.depth(n), k,
    {
        if k > 0 {
            let kids = self@[n as int].children@;
            let c = kids[k - 1];
            let head = self.preorder_children(n, (k - 1) as nat);
            let tail = self.preorder(c);
            self.lemma_ranks();
            self.lemma_preorder_children_members(n, (k - 1) as nat);
            self.lemma_preorder_members(c);
            assert forall|x: usize| #[trigger]
                self.preorder_children(n, k).contains(x) implies self.has(x) && x != n && exists|
                j: int,
            | 0 <= j < k && self.in_subtree(kids[j], x) by {
                if head.contains(x) {
                    let j = choose|j: int| 0 <= j < k - 1 && self.in_subtree(kids[j], x);
                    assert(0 <= j < k && self.in_subtree(kids[j], x));
                } else {
                    assert(tail.contains(x));
                    assert(self.in_subtree(kids[k - 1], x));
                    self.lemma_subtree_depth(c, x);
                }
            }
        }
    }

    /// A proper descendant of `n` lies under one of the children of `n`;
    /// the lemma returns the position of that child.
    pub proof fn lemma_branch(&self, n: usize, x: usize) -> (k: int)
        requires
            self.wf(),
            self.has(x),
            self.in_subtree(n, x),
            x != n,
        ensures
            self.has(n),
            0 <= k < self@[n as int].children@.len(),
            self.in_subtree(self@[n as int].children@[k], x),
        decreases self.depth(x),
    {
        let p = self@[x as int].parent->0;
        self.lemma_parent(x);
        self.lemma_subtree_depth(n, x);
        if p == n {
            let k = choose|k: int|
                0 <= k < self@[n as int].children@.len() && self@[n as int].children@[k] == x;
            assert(self.in_subtree(x, x));
            k
        } else {
            let k = self.lemma_branch(n, p);
            k
        }
    }

    /// The traversal of the first `k` children holds the whole traversal of
    /// each of them.
    pub proof fn lemma_children_cover(&self, n: usize, j: int, k: nat, x: usize)
        requires
            self.wf(),
            self.has(n),
            0 <= j < k <= self@[n as int].children@.len(),
            self.preorder(self@[n as int].children@[j]).contains(x),
        ensures
            self.preorder_children(n, k).contains(x),
        decreases k,
    {
        let head = self.preorder_children(n, (k - 1) as nat);
        let tail = self.preorder(self@[n as int].children@[k - 1]);
        if j < k - 1 {
            self.lemma_children_cover(n, j, (k - 1) as nat, x);
            let i = choose|i: int| 0 <= i < head.len() && head[i] == x;
            assert((head + tail)[i] == x);
        } else {
            let i = choose|i: int| 0 <= i < tail.len() && tail[i] == x;
            assert((head + tail)[head.len() + i] == x);
        }
    }

    /// Every node of the subtree at `n` occurs in `preorder(n)`.
    pub proof fn lemma_preorder_complete(&self, n: usize, x: usize)
        requires
            self.wf(),
            self.has(n),
            self.has(x),
            self.in_subtree(n, x),
        ensures
            self.preorder(n).contains(x),
        decreases self.depth_bound() - self.depth(n),
    {
        let kids = self@[n as int].children@;
        let rest = self.preorder_children(n, kids.len());
        if x == n {
            assert(self.preorder(n)[0] == n);
        } else {
            let k = self.lemma_branch(n, x);
            self.lemma_ranks();
            self.lemma_preorder_complete(kids[k], x);
            self.lemma_children_cover(n, k, kids.len(), x);
            let i = choose|i: int| 0 <= i < rest.len() && rest[i] == x;
            assert(self.preorder(n)[1 + i] == x);
        }
    }

    /// No node occurs twice in `preorder(n)`.
    pub proof fn lemma_preorder_no_duplicates(&self, n: usize)
        requires
            self.wf(),
            self.has(n),
        ensures
            self.preorder(n).no_duplicates(),
        decreases self.depth_bound() - self.depth(n), self@[n as int].children@.len() + 1,
    {
        let kids = self@[n as int].children@;
        let rest = self.preorder_children(n, kids.len());
        self.lemma_preorder_children_no_duplicates(n, kids.len());
        self.lemma_preorder_children_members(n, kids.len());
        assert forall|i: int, j: int| 0 <= i < 1 && 0 <= j < rest.len() implies seq![n][i]
            != rest[j] by {
            assert(rest.contains(rest[j]));
        }
        vstd::seq_lib::lemma_no_dup_in_concat(seq![n], rest);
    }

    /// No node occurs twice in `preorder_children(n, k)`.
    pub proof fn lemma_preorder_children_no_duplicates(&self, n: usize, k: nat)
        requires
            self.wf(),
            self.has(n),
            k <= self@[n as int].children@.len(),
        ensures
            self.preorder_children(n, k).no_duplicates(),
        decreases self.depth_bound() - self.depth(n), k,
    {
        if k > 0 {
            let kids = self@[n as int].children@;
            let c = kids[k - 1];
            let head = self.preorder_children(n, (k - 1) as nat);
            let tail = self.preorder(c);
            self.lemma_ranks();
            self.lemma_preorder_children_no_duplicates(n, (k - 1) as nat);
            self.lemma_preorder_no_duplicates(c);
            self.lemma_preorder_children_members(n, (k - 1) as nat);
            self.lemma_preorder_members(c);
            assert forall|i: int, j: int| 0 <= i < head.len() && 0 <= j < tail.len() implies head[i]
                != tail[j] by {
                let x = head[i];
                assert(head.contains(x));
                assert(tail.contains(tail[j]));
                let b = choose|b: int| 0 <= b < k - 1 && self.in_subtree(kids[b], x);
                self.lemma_sibling_subtrees_disjoint(n, b, k - 1, x);
            }
            vstd::seq_lib::lemma_no_dup_in_concat(head, tail);
        }
    }

    /// The nodes of the tree rooted at `root`.
    pub open spec fn subtree(&self, root: usize) -> Set<usize> {
        Set::new(|x: usize| self.has(x) && self.in_subtree(root, x))
    }

    /// A traversal visits every node of the tree exactly once: the order has
    /// no repetition and its nodes are those of the subtree, whatever the
    /// shape or depth of the tree.
    pub proof fn lemma_preorder_visits_subtree(&self, root: usize)
        requires
            self.wf(),
            self.has(root),
        ensures
            self.preorder(root).no_duplicates(),
            self.preorder(root).to_set() == self.subtree(root),
            self.subtree(root).finite(),
            self.preorder(root).len() == self.subtree(root).len(),
    {
        let order = self.preorder(root);
        self.lemma_preorder_no_duplicates(root);
        self.lemma_preorder_members(root);
        assert forall|x: usize| self.subtree(root).contains(x) implies order.to_set().contains(
            x,
        ) by {
            self.lemma_preorder_complete(root, x);
        }
        assert(order.to_set() =~= self.subtree(root));
        vstd::seq_lib::seq_to_set_is_finite(order);
        order.unique_seq_to_set();
    }

    /// The visits of a traversal from `root`: the nodes in pre-order, each
    /// with the position at which its parent was visited.
    pub open spec fn plan(&self, root: usize) -> Seq<Step> {
        let order = self.preorder(root);
        Seq::new(
            order.len(),
            |i: int|
                Step {
                    node: order[i],
                    parent: if i == 0 {
                        None
                    } else {
                        Some(order.index_of(self@[order[i] as int].parent->0) as usize)
                    },
                },
        )
    }

    /// What `visit` appends for the subtree at `n`, when the visit of `n`
    /// lands at position `base`.
    spec fn walk(&self, n: usize, parent: Option<usize>, base: usize) -> Seq<Step>
        decreases self.depth_bound() - self.depth(n), self@[n as int].children@.len() + 1,
        when self.wf() && self.has(n)
    {
        seq![Step { node: n, parent }] + self.walk_children(
            n,
            self@[n as int].children@.len(),
            base,
        )
    }

    /// What `visit` appends for the first `k` children of `n`.
    spec fn walk_children(&self, n: usize, k: nat, base: usize) -> Seq<Step>
        decreases self.depth_bound() - self.depth(n), k,
        when self.wf() && self.has(n) && k <= self@[n as int].children@.len()
    {
        if k == 0 {
            Seq::empty()
        } else {
            proof {
                self.lemma_ranks();
            }
            let head = self.walk_children(n, (k - 1) as nat, base);
            head + self.walk(
                self@[n as int].children@[k - 1],
                Some(base),
                (base + 1 + head.len()) as usize,
            )
        }
    }

    /// The visits of `walk` name the nodes of `preorder`, one for one.
    proof fn lemma_walk_nodes(&self, n: usize, parent: Option<usize>, base: usize)
        requires
            self.wf(),
            self.has(n),
        ensures
            self.walk(n, parent, base).len() == self.preorder(n).len(),
            forall|i: int| #![trigger self.walk(n, parent, base)[i]]
                0 <= i < self.preorder(n).len() ==> self.walk(n, parent, base)[i].node
                    == self.preorder(n)[i],
        decreases self.depth_bound() - self.depth(n), self@[n as int].children@.len() + 1,
    {
        self.lemma_walk_children_nodes(n, self@[n as int].children@.len(), base);
    }

    /// The visits of `walk_children` name the nodes of `preorder_children`.
    proof fn lemma_walk_children_nodes(&self, n: usize, k: nat, base: usize)
        requires
            self.wf(),
            self.has(n),
            k <= self@[n as int].children@.len(),
        ensures
            self.walk_children(n, k, base).len() == self.preorder_children(n, k).len(),
            forall|i: int| #![trigger self.walk_children(n, k, base)[i]]
                0 <= i < self.preorder_children(n, k).len() ==> self.walk_children(
                    n,
                    k,
                    base,
                )[i].node == self.preorder_children(n, k)[i],
        decreases self.depth_bound() - self.depth(n), k,
    {
        if k > 0 {
            let c = self@[n as int].children@[k - 1];
            let head = self.walk_children(n, (k - 1) as nat, base);
            self.lemma_ranks();
            self.lemma_walk_children_nodes(n, (k - 1) as nat, base);
            self.lemma_walk_nodes(c, Some(base), (base + 1 + head.len()) as usize);
        }
    }

    /// Every visit but the first links to an earlier visit, and that visit
    /// is the one of the node's parent.
    proof fn lemma_walk_links(&self, n: usize, parent: Option<usize>, base: usize)
        requires
            self.wf(),
            self.has(n),
            base + self.preorder(n).len() <= usize::MAX,
        ensures
            self.walk(n, parent, base)[0].parent == parent,
            forall|i: int| #![trigger self.walk(n, parent, base)[i]]
                0 < i < self.preorder(n).len() ==> match self.walk(n, parent, base)[i].parent {
                    Some(q) => base <= q < base + i && self@[self.preorder(n)[i] as int].parent
                        == Some(self.preorder(n)[q - base]),
                    None => false,
                },
        decreases self.depth_bound() - self.depth(n), self@[n as int].children@.len() + 1,
    {
        let kids = self@[n as int].children@;
        let w = self.walk(n, parent, base);
        let rest = self.walk_children(n, kids.len(), base);
        self.lemma_walk_children_nodes(n, kids.len(), base);
        self.lemma_walk_children_links(n, kids.len(), base);
        assert forall|i: int| #![trigger w[i]] 0 < i < self.preorder(n).len() implies match w[i].parent {
            Some(q) => base <= q < base + i && self@[self.preorder(n)[i] as int].parent == Some(
                self.preorder(n)[q - base],
            ),
            None => false,
        } by {
            assert(w[i] == rest[i - 1]);
        }
    }

    /// Every visit under `n` links to the visit of `n` at `base` or to an
    /// earlier visit under `n`, and that visit is the one of its parent.
    proof fn lemma_walk_children_links(&self, n: usize, k: nat, base: usize)
        requires
            self.wf(),
            self.has(n),
            k <= self@[n as int].children@.len(),
            base + 1 + self.preorder_children(n, k).len() <= usize::MAX,
        ensures
            forall|i: int| #![trigger self.walk_children(n, k, base)[i]]
                0 <= i < self.preorder_children(n, k).len() ==> match self.walk_children(
                    n,
                    k,
                    base,
                )[i].parent {
                    Some(q) => base <= q < base + 1 + i && self@[self.preorder_children(
                        n,
                        k,
                    )[i] as int].parent == Some(
                        if q == base {
                            n
                        } else {
                            self.preorder_children(n, k)[q - base - 1]
                        },
                    ),
                    None => false,
                },
        decreases self.depth_bound() - self.depth(n), k,
    {
        if k > 0 {
            let c = self@[n as int].children@[k - 1];
            let head = self.walk_children(n, (k - 1) as nat, base);
            let order_head = self.preorder_children(n, (k - 1) as nat);
            let order = self.preorder_children(n, k);
            let start = (base + 1 + head.len()) as usize;
            let tail = self.walk(c, Some(base), start);
            let all = self.walk_children(n, k, base);
            self.lemma_ranks();
            self.lemma_walk_children_nodes(n, (k - 1) as nat, base);
            self.lemma_walk_children_links(n, (k - 1) as nat, base);
            self.lemma_walk_nodes(c, Some(base), start);
            self.lemma_walk_links(c, Some(base), start);
            assert forall|i: int| #![trigger all[i]] 0 <= i < order.len() implies match all[i].parent {
                Some(q) => base <= q < base + 1 + i && self@[order[i] as int].parent == Some(
                    if q == base {
                        n
                    } else {
                        order[q - base - 1]
                    },
                ),
                None => false,
            } by {
                if i < head.len() {
                    assert(all[i] == head[i]);
                } else {
                    let j = i - head.len();
                    assert(all[i] == tail[j]);
                    assert(order[i] == self.preorder(c)[j]);
                    if j > 0 {
                        let q = tail[j].parent->0;
                        assert(order[q - base - 1] == self.preorder(c)[q - start]);
                    }
                }
            }
        }
    }

    /// Appends the visits of the subtree at `n` to `out`.
    fn visit(&self, n: usize, parent: Option<usize>, out: &mut Vec<Step>)
        requires
            self.wf(),
            self.has(n),
        ensures
            final(out)@ == old(out)@ + self.walk(n, parent, old(out)@.len() as usize),
        decreases self.depth_bound() - self.depth(n),
    {
        let ghost start = out@;
        let here = out.len();
        out.push(Step { node: n, parent });
        let node = self.node(n);
        let count = node.children.len();
        let mut k: usize = 0;
        while k < count
            invariant
                self.wf(),
                self.has(n),
                k <= count,
                count == self@[n as int].children@.len(),
                *node == self@[n as int],
                here == start.len(),
                out@ == start + seq![Step { node: n, parent }] + self.walk_children(
                    n,
                    k as nat,
                    here,
                ),
            decreases count - k,
        {
            let c = node.children[k];
            proof {
                self.lemma_ranks();
            }
            let ghost before = out@;
            self.visit(c, Some(here), out);
            k += 1;
            assert(out@ == start + seq![Step { node: n, parent }] + self.walk_children(
                n,
                k as nat,
                here,
            )) by {
                let head = self.walk_children(n, (k - 1) as nat, here);
                assert(before.len() == here + 1 + head.len());
                assert(out@ =~= start + seq![Step { node: n, parent }] + (head + self.walk(
                    c,
                    Some(here),
                    (here + 1 + head.len()) as usize,
                )));
            }
        }
        assert(out@ =~= start + self.walk(n, parent, here));
    }

    /// What `visit` appends from an empty list is the plan, and the plan
    /// is no longer than the arena.
    proof fn lemma_walk_is_plan(&self, root: usize)
        requires
            self.wf(),
            self.has(root),
        ensures
            self.walk(root, None, 0) == self.plan(root),
            self.preorder(root).len() <= self@.len() <= usize::MAX,
    {
        let order = self.preorder(root);
        let w = self.walk(root, None, 0);
        self.lemma_len_bound();
        self.lemma_preorder_no_duplicates(root);
        self.lemma_preorder_members(root);
        assert forall|i: int| 0 <= i < order.len() implies order[i] < self@.len() by {
            assert(order.contains(order[i]));
        }
        lemma_distinct_below(order, self@.len());
        self.lemma_walk_nodes(root, None, 0);
        self.lemma_walk_links(root, None, 0);
        assert forall|i: int| 0 <= i < order.len() implies w[i] == self.plan(root)[i] by {
            if i > 0 {
                let q = w[i].parent->0;
                let up = self@[order[i] as int].parent->0;
                assert(order[q as int] == up);
                assert(order.contains(up));
            }
        }
        assert(w =~= self.plan(root));
    }

    /// The plan follows the hierarchy: the first step has no parent, and
    /// every later step points back at the earlier step that visited the
    /// parent of its node.
    pub proof fn lemma_plan_links(&self, root: usize)
        requires
            self.wf(),
            self.has(root),
        ensures
            self.plan(root).len() == self.preorder(root).len(),
            self.plan(root).len() <= self@.len(),
            self.plan(root)[0] == (Step { node: root, parent: None }),
            forall|i: int| #![trigger self.plan(root)[i]]
                0 <= i < self.plan(root).len() ==> self.has(self.plan(root)[i].node),
            forall|i: int| #![trigger self.plan(root)[i]]
                0 < i < self.plan(root).len() ==> match self.plan(root)[i].parent {
                    Some(q) => q < i && self@[self.plan(root)[i].node as int].parent == Some(
                        self.plan(root)[q as int].node,
                    ),
                    None => false,
                },
    {
        let order = self.preorder(root);
        self.lemma_walk_is_plan(root);
        self.lemma_walk_links(root, None, 0);
        self.lemma_preorder_members(root);
        assert forall|i: int| #![trigger self.plan(root)[i]]
            0 <= i < self.plan(root).len() implies self.has(self.plan(root)[i].node) by {
            assert(order.contains(order[i]));
        }
    }

    /// Plans a traversal from `root`: which node is visited at each step,
    /// and which earlier step visited its parent.
    pub fn traversal_plan(&self, root: usize) -> (r: Result<Vec<Step>, SceneError>)
        requires
            self.wf(),
        ensures
            match r {
                Ok(steps) => self.has(root) && steps@ == self.plan(root),
                Err(e) => !self.has(root) && e == SceneError::NoSuchNode,
            },
    {
        if root >= self.len() {
            return Err(SceneError::NoSuchNode);
        }
        let mut steps: Vec<Step> = Vec::new();
        self.visit(root, None, &mut steps);
        proof {
            assert(steps@ =~= self.walk(root, None, 0));
            self.lemma_walk_is_plan(root);
        }
        Ok(steps)
    }

    /// The drawable nodes of the tree at `root`, in the order in which a
    /// traversal meets them.
    pub open spec fn draw_order(&self, root: usize) -> Seq<usize> {
        self.preorder(root).filter(|x: usize| self@[x as int].drawable())
    }

    /// The drawable nodes of the tree at `root`.
    pub open spec fn drawable_nodes(&self, root: usize) -> Set<usize> {
        Set::new(
            |x: usize| self.has(x) && self.in_subtree(root, x) && self@[x as int].drawable(),
        )
    }

    /// A traversal draws each drawable node of the tree exactly once and
    /// nothing else, so the number of draw calls is the number of drawable
    /// nodes, whatever the shape or depth of the tree.
    pub proof fn lemma_draw_count(&self, root: usize)
        requires
            self.wf(),
            self.has(root),
        ensures
            self.draw_order(root).no_duplicates(),
            self.draw_order(root).to_set() == self.drawable_nodes(root),
            self.drawable_nodes(root).finite(),
            self.draw_order(root).len() == self.drawable_nodes(root).len(),
    {
        let order = self.preorder(root);
        let pred = |x: usize| self@[x as int].drawable();
        let drawn = order.filter(pred);
        self.lemma_preorder_visits_subtree(root);
        lemma_filter_no_duplicates(order, pred);
        assert forall|x: usize| drawn.to_set().contains(x) implies self.drawable_nodes(
            root,
        ).contains(x) by {
            order.lemma_filter_contains_rev(pred, x);
            let i = choose|i: int| 0 <= i < drawn.len() && drawn[i] == x;
            order.lemma_filter_pred(pred, i);
            assert(order.to_set().contains(x));
        }
        assert forall|x: usize| self.drawable_nodes(root).contains(x) implies drawn.to_set().contains(
            x,
        ) by {
            assert(self.subtree(root).contains(x));
            assert(order.to_set().contains(x));
            let i = choose|i: int| 0 <= i < order.len() && order[i] == x;
            order.lemma_filter_contains(pred, i);
        }
        assert(drawn.to_set() =~= self.drawable_nodes(root));
        vstd::seq_lib::seq_to_set_is_finite(drawn);
        drawn.unique_seq_to_set();
    }

    /// The world transform at position `i` was composed from the world
    /// transform of the parent visit, or from `initial` at the root, and the
    /// node's own data.
    pub open spec fn world_composed<M, C: Fn(&M, &T) -> M>(
        &self,
        steps: Seq<Step>,
        worlds: Seq<M>,
        initial: M,
        compose: C,
        i: int,
    ) -> bool {
        compose.ensures(
            (
                match steps[i].parent {
                    Some(q) => &worlds[q as int],
                    None => &initial,
                },
                &self@[steps[i].node as int].data,
            ),
            worlds[i],
        )
    }

    /// The world transform of `x` in a traversal from `root` when composing
    /// is the function `f`: `f` applied along the chain of ancestors, from
    /// `initial` above `root` down to `x`.
    pub open spec fn world_of<M>(
        &self,
        root: usize,
        initial: M,
        f: spec_fn(M, T) -> M,
        x: usize,
    ) -> M
        decreases self.depth(x),
        when self.wf() && self.has(x)
    {
        if x != root && self@[x as int].parent is Some {
            proof {
                self.lemma_parent(x);
            }
            f(self.world_of(root, initial, f, self@[x as int].parent->0), self@[x as int].data)
        } else {
            f(initial, self@[x as int].data)
        }
    }

    /// Hierarchical composition: when composing is a function, the world
    /// transform that a traversal computes for a node is that function
    /// applied to the data of the root, then of each ancestor in turn, then
    /// of the node itself. For a chain root, A, B the world of B is
    /// `f(f(f(initial, root), A), B)`.
    pub proof fn lemma_worlds_follow_ancestors<M, C: Fn(&M, &T) -> M>(
        &self,
        root: usize,
        initial: M,
        compose: C,
        f: spec_fn(M, T) -> M,
        worlds: Seq<M>,
        i: int,
    )
        requires
            self.wf(),
            self.has(root),
            worlds.len() == self.plan(root).len(),
            forall|j: int|
                0 <= j < worlds.len() ==> self.world_composed(
                    self.plan(root),
                    worlds,
                    initial,
                    compose,
                    j,
                ),
            forall|parent: &M, data: &T, out: M|
                compose.ensures((parent, data), out) ==> out == f(*parent, *data),
            0 <= i < worlds.len(),
        ensures
            worlds[i] == self.world_of(root, initial, f, self.plan(root)[i].node),
        decreases i,
    {
        let steps = self.plan(root);
        self.lemma_plan_links(root);
        self.lemma_preorder_no_duplicates(root);
        assert(self.world_composed(steps, worlds, initial, compose, i));
        if i > 0 {
            let q = steps[i].parent->0;
            assert(self.preorder(root)[i] != self.preorder(root)[0]);
            self.lemma_worlds_follow_ancestors(root, initial, compose, f, worlds, q as int);
        }
    }

    /// `call` draws the node of the visit it names, with that node's
    /// geometry and the projection of that visit's world transform.
    pub open spec fn call_issued<M, P: Fn(&M) -> M>(
        &self,
        steps: Seq<Step>,
        worlds: Seq<M>,
        project: P,
        call: DrawCall<M>,
    ) -> bool {
        &&& call.step < steps.len()
        &&& steps[call.step as int].node == call.node
        &&& call.draw_handle == self@[call.node as int].draw_handle
        &&& call.primitive_count == self@[call.node as int].primitive_count
        &&& project.ensures((&worlds[call.step as int],), call.transform)
    }

    /// Walks the tree at `root` depth first, each node before its children.
    ///
    /// The world transform of a node is `compose(parent world, node data)`,
    /// with `initial` standing for the parent of `root`; it is computed
    /// afresh on every call. For every node that has geometry and a positive
    /// primitive count, one draw call is recorded with `project(world)` as
    /// its transform. The graph is not changed.
    pub fn traverse<M, C, P>(&self, root: usize, initial: &M, compose: C, project: P) -> (r: Result<
        Traversal<M>,
        SceneError,
    >) where C: Fn(&M, &T) -> M, P: Fn(&M) -> M
        requires
            self.wf(),
            forall|parent: &M, data: &T| compose.requires((parent, data)),
            forall|world: &M| project.requires((world,)),
        ensures
            match r {
                Ok(t) => {
                    &&& self.has(root)
                    &&& t.steps@ == self.plan(root)
                    &&& t.worlds@.len() == t.steps@.len()
                    &&& forall|i: int|
                        0 <= i < t.steps@.len() ==> self.world_composed(
                            t.steps@,
                            t.worlds@,
                            *initial,
                            compose,
                            i,
                        )
                    &&& t.calls@.map_values(|c: DrawCall<M>| c.node) == self.draw_order(root)
                    &&& forall|k: int|
                        0 <= k < t.calls@.len() ==> self.call_issued(
                            t.steps@,
                            t.worlds@,
                            project,
                            #[trigger] t.calls@[k],
                        )
                    &&& t.calls@.len() == self.drawable_nodes(root).len()
                },
                Err(e) => !self.has(root) && e == SceneError::NoSuchNode,
            },
    {
        let steps = match self.traversal_plan(root) {
            Ok(steps) => steps,
            Err(e) => {
                return Err(e);
            },
        };
        let ghost order = self.preorder(root);
        let ghost pred = |x: usize| self@[x as int].drawable();
        proof {
            self.lemma_plan_links(root);
        }
        let mut worlds: Vec<M> = Vec::new();
        let mut calls: Vec<DrawCall<M>> = Vec::new();
        let mut i: usize = 0;
        assert(order.take(0).filter(pred) =~= Seq::<usize>::empty()) by {
            reveal(Seq::filter);
        }
        while i < steps.len()
            invariant
                self.wf(),
                self.has(root),
                steps@ == self.plan(root),
                order == self.preorder(root),
                pred == |x: usize| self@[x as int].drawable(),
                steps@.len() == order.len(),
                forall|j: int| #![trigger steps@[j]]
                    0 <= j < steps@.len() ==> self.has(steps@[j].node) && steps@[j].node
                        == order[j],
                steps@[0].parent is None,
                forall|j: int| #![trigger steps@[j]]
                    0 < j < steps@.len() ==> match steps@[j].parent {
                        Some(q) => q < j,
                        None => false,
                    },
                i <= steps.len(),
                worlds@.len() == i,
                forall|j: int|
                    0 <= j < i ==> self.world_composed(steps@, worlds@, *initial, compose, j),
                calls@.map_values(|c: DrawCall<M>| c.node) == order.take(i as int).filter(pred),
                forall|k: int|
                    0 <= k < calls@.len() ==> (#[trigger] calls@[k]).step < i && self.call_issued(
                        steps@,
                        worlds@,
                        project,
                        calls@[k],
                    ),
                forall|parent: &M, data: &T| compose.requires((parent, data)),
                forall|world: &M| project.requires((world,)),
            decreases steps.len() - i,
        {
            let step = steps[i];
            let node = self.node(step.node);
            let world = match step.parent {
                Some(q) => compose(&worlds[q], &node.data),
                None => compose(initial, &node.data),
            };
            let ghost worlds_before = worlds@;
            let ghost calls_before = calls@;
            if node.is_drawable() {
                let transform = project(&world);
                calls.push(
                    DrawCall {
                        step: i,
                        node: step.node,
                        draw_handle: node.draw_handle,
                        primitive_count: node.primitive_count,
                        transform,
                    },
                );
            }
            worlds.push(world);
            proof {
                order.lemma_take_succ_push(i as int);
                order.take(i as int).lemma_filter_push(order[i as int], pred);
                assert(calls@.map_values(|c: DrawCall<M>| c.node) =~= order.take(i + 1).filter(
                    pred,
                ));
                assert forall|j: int| 0 <= j < i + 1 implies self.world_composed(
                    steps@,
                    worlds@,
                    *initial,
                    compose,
                    j,
                ) by {
                    if j < i {
                        assert(self.world_composed(steps@, worlds_before, *initial, compose, j));
                    }
                }
                assert forall|k: int| 0 <= k < calls@.len() implies (#[trigger] calls@[k]).step < i
                    + 1 && self.call_issued(steps@, worlds@, project, calls@[k]) by {
                    if k < calls_before.len() {
                        assert(calls@[k] == calls_before[k]);
                        assert(self.call_issued(steps@, worlds_before, project, calls_before[k]));
                    }
                }
            }
            i += 1;
        }
        proof {
            order.lemma_take_len();
            self.lemma_draw_count(root);
        }
        Ok(Traversal { steps, worlds, calls })
    }
}

} // verus!
