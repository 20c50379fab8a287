//! The scene tree: an arena of nodes addressed by stable indices.
//!
//! A node never moves once it is in the arena, so an index stays valid for
//! the life of the graph. Each node records its parent and its ordered
//! children; the graph keeps the two consistent and free of cycles.

use vstd::prelude::*;

verus! {

/// A spatial entity of the scene.
///
/// `data` carries the node's transform parameters (position, Euler
/// rotation, scale, pivot); the graph never looks inside it.
pub struct SceneNode<T> {
    /// Transform parameters of the node, relative to its parent.
    pub data: T,
    /// Identity of the GPU-resident geometry; zero when the node has none.
    pub draw_handle: u32,
    /// Number of indices to draw.
    pub primitive_count: i32,
    /// The node this one is attached to, if any.
    pub parent: Option<usize>,
    /// Attached nodes, in draw order.
    pub children: Vec<usize>,
}

impl<T> SceneNode<T> {
    /// A node is drawn when it has geometry and something to draw from it.
    pub open spec fn drawable(&self) -> bool {
        self.draw_handle != 0 && self.primitive_count > 0
    }

    /// Whether a traversal issues a draw call for this node.
    pub fn is_drawable(&self) -> (r: bool)
        ensures
            r == self.drawable(),
    {
        self.draw_handle != 0 && self.primitive_count > 0
    }
}

/// Why an operation on the graph was refused.
#[derive(Clone, Copy, Debug, PartialEq, Eq, Structural)]
pub enum SceneError {
    /// An index does not name a node of this graph.
    NoSuchNode,
    /// The child already has a parent.
    AlreadyAttached,
    /// The child is the parent itself or one of its ancestors.
    WouldCycle,
}

/// A forest of scene nodes.
pub struct SceneGraph<T> {
    nodes: Vec<SceneNode<T>>,
    depth: Ghost<Seq<nat>>,
    bound: Ghost<nat>,
}

impl<T> View for SceneGraph<T> {
    type V = Seq<SceneNode<T>>;

    closed spec fn view(&self) -> Seq<SceneNode<T>> {
        self.nodes@
    }
}

impl<T> SceneGraph<T> {
    /// `i` names a node of the graph.
    pub open spec fn has(&self, i: usize) -> bool {
        i < self@.len()
    }

    /// A rank that grows strictly from every node to each of its children.
    pub closed spec fn depth(&self, i: usize) -> nat {
        self.depth@[i as int]
    }

    /// A number above every rank.
    pub closed spec fn depth_bound(&self) -> nat {
        self.bound@
    }

    /// Parent and child links agree, stay inside the arena, and no node is
    /// listed twice under one parent.
    pub open spec fn well_linked(&self) -> bool {
        &&& forall|i: usize| #![trigger self@[i as int].parent]
            self.has(i) ==> match self@[i as int].parent {
                Some(p) => self.has(p) && self@[p as int].children@.contains(i),
                None => true,
            }
        &&& forall|p: usize, k: int| #![trigger self@[p as int].children@[k]]
            self.has(p) && 0 <= k < self@[p as int].children@.len() ==> {
                let c = self@[p as int].children@[k];
                self.has(c) && self@[c as int].parent == Some(p)
            }
        &&& forall|p: usize| #![trigger self@[p as int].children]
            self.has(p) ==> self@[p as int].children@.no_duplicates()
    }

    /// Following parent links always climbs to a smaller rank, so it ends.
    pub closed spec fn ranked(&self) -> bool {
        &&& self.depth@.len() == self.nodes@.len()
        &&& forall|i: usize| #![trigger self.depth@[i as int]]
            i < self.nodes@.len() ==> self.depth@[i as int] < self.bound@
        &&& forall|i: usize| #![trigger self.nodes@[i as int].parent]
            i < self.nodes@.len() ==> match self.nodes@[i as int].parent {
                Some(p) => p < self.nodes@.len() && self.depth@[p as int] < self.depth@[i as int],
                None => true,
            }
    }

    /// The graph is a forest: consistent links and no cycle.
    pub open spec fn wf(&self) -> bool {
        self.well_linked() && self.ranked()
    }

    /// `x` is `root` or one of its descendants.
    pub open spec fn in_subtree(&self, root: usize, x: usize) -> bool
        decreases self.depth(x),
        when self.wf() && self.has(x)
    {
        x == root || match self@[x as int].parent {
            Some(p) => self.in_subtree(root, p),
            None => false,
        }
    }

    /// In a forest every rank is under the bound, and a child ranks above
    /// its parent.
    pub proof fn lemma_ranks(&self)
        requires
            self.wf(),
        ensures
            forall|i: usize| self.has(i) ==> #[trigger] self.depth(i) < self.depth_bound(),
            forall|p: usize, k: int| #![trigger self@[p as int].children@[k]]
                self.has(p) && 0 <= k < self@[p as int].children@.len() ==> self.depth(p)
                    < self.depth(self@[p as int].children@[k]),
    {
        assert forall|p: usize, k: int| #![trigger self@[p as int].children@[k]]
            self.has(p) && 0 <= k < self@[p as int].children@.len() implies self.depth(p)
            < self.depth(self@[p as int].children@[k]) by {
            let c = self@[p as int].children@[k];
            assert(self.nodes@[c as int].parent == Some(p));
        }
    }

    /// The arena is indexed by machine words.
    pub proof fn lemma_len_bound(&self)
        ensures
            self@.len() <= usize::MAX,
    {
        assert(self.nodes.len() == self.nodes@.len());
    }

    /// A node lies in the subtree of its parent, which ranks below it.
    pub proof fn lemma_parent(&self, x: usize)
        requires
            self.wf(),
            self.has(x),
            self@[x as int].parent is Some,
        ensures
            self.has(self@[x as int].parent->0),
            self.depth(self@[x as int].parent->0) < self.depth(x),
            self.in_subtree(self@[x as int].parent->0, x),
    {
        let p = self@[x as int].parent->0;
        assert(self.nodes@[x as int].parent == Some(p));
        assert(self.in_subtree(p, p));
    }

    /// Descendants rank at or above the root of their subtree, and only the
    /// root itself shares its rank.
    pub proof fn lemma_subtree_depth(&self, root: usize, x: usize)
        requires
            self.wf(),
            self.has(x),
            self.in_subtree(root, x),
        ensures
            self.has(root),
            self.depth(root) <= self.depth(x),
            self.depth(root) == self.depth(x) ==> root == x,
        decreases self.depth(x),
    {
        if x != root {
            let p = self@[x as int].parent->0;
            assert(self.nodes@[x as int].parent == Some(p));
            self.lemma_subtree_depth(root, p);
        }
    }

    /// An empty graph.
    pub fn new() -> (g: Self)
        ensures
            g.wf(),
            g@.len() == 0,
    {
        SceneGraph { nodes: Vec::new(), depth: Ghost(Seq::empty()), bound: Ghost(0) }
    }

    /// Number of nodes in the arena.
    pub fn len(&self) -> (n: usize)
        ensures
            n == self@.len(),
    {
        self.nodes.len()
    }

    /// The node at `id`, or `None` when `id` names no node.
    pub fn get(&self, id: usize) -> (r: Option<&SceneNode<T>>)
        ensures
            match r {
                Some(node) => self.has(id) && *node == self@[id as int],
                None => !self.has(id),
            },
    {
        if id < self.nodes.len() {
            Some(&self.nodes[id])
        } else {
            None
        }
    }

    /// The node at `id`, for callers that know the index to be valid.
    pub(crate) fn node(&self, id: usize) -> (node: &SceneNode<T>)
        requires
            self.has(id),
        ensures
            *node == self@[id as int],
    {
        &self.nodes[id]
    }

    /// Adds a detached node with the given geometry and returns its index.
    ///
    /// A zero `draw_handle` makes a grouping node that only carries a
    /// transform.
    pub fn add_node(&mut self, data: T, draw_handle: u32, primitive_count: i32) -> (id: usize)
        requires
            old(self).wf(),
        ensures
            final(self).wf(),
            id == old(self)@.len(),
            final(self)@.len() == old(self)@.len() + 1,
            forall|i: int| 0 <= i < old(self)@.len() ==> final(self)@[i] == old(self)@[i],
            final(self)@[id as int].data == data,
            final(self)@[id as int].draw_handle == draw_handle,
            final(self)@[id as int].primitive_count == primitive_count,
            final(self)@[id as int].parent is None,
            final(self)@[id as int].children@.len() == 0,
    {
        let id = self.nodes.len();
        self.nodes.push(
            SceneNode { data, draw_handle, primitive_count, parent: None, children: Vec::new() },
        );
        proof {
            self.depth@ = self.depth@.push(0);
            self.bound@ = self.bound@ + 1;
        }
        id
    }

    /// Replaces the transform parameters of the node at `id` and returns the
    /// old ones. The shape of the graph is not touched.
    pub fn set_data(&mut self, id: usize, data: T) -> (r: Result<T, SceneError>)
        requires
            old(self).wf(),
        ensures
            final(self).wf(),
            final(self)@.len() == old(self)@.len(),
            forall|i: int|
                0 <= i < old(self)@.len() && i != id ==> final(self)@[i] == old(self)@[i],
            match r {
                Ok(previous) => {
                    &&& old(self).has(id)
                    &&& previous == old(self)@[id as int].data
                    &&& final(self)@[id as int].data == data
                    &&& final(self)@[id as int].draw_handle == old(self)@[id as int].draw_handle
                    &&& final(self)@[id as int].primitive_count == old(
                        self,
                    )@[id as int].primitive_count
                    &&& final(self)@[id as int].parent == old(self)@[id as int].parent
                    &&& final(self)@[id as int].children == old(self)@[id as int].children
                },
                Err(e) => !old(self).has(id) && e == SceneError::NoSuchNode && final(self)@ == old(
                    self,
                )@,
            },
    {
        if id >= self.nodes.len() {
            return Err(SceneError::NoSuchNode);
        }
        let mut data = data;
        core::mem::swap(&mut self.nodes[id].data, &mut data);
        Ok(data)
    }

    /// Why `child` cannot be attached under `parent`, or `None` when it can.
    pub open spec fn attach_refusal(&self, parent: usize, child: usize) -> Option<SceneError> {
        if !self.has(parent) || !self.has(child) {
            Some(SceneError::NoSuchNode)
        } else if self@[child as int].parent is Some {
            Some(SceneError::AlreadyAttached)
        } else if self.in_subtree(child, parent) {
            Some(SceneError::WouldCycle)
        } else {
            None
        }
    }

    /// Whether `x` is `root` or lies below it.
    pub fn is_in_subtree(&self, root: usize, x: usize) -> (r: bool)
        requires
            self.wf(),
        ensures
            r == (self.has(x) && self.in_subtree(root, x)),
    {
        if x >= self.nodes.len() {
            return false;
        }
        let mut cur = x;
        let mut found = cur == root;
        let mut at_top = false;
        while !found && !at_top
            invariant
                self.wf(),
                self.has(x),
                self.has(cur),
                self.in_subtree(root, x) == self.in_subtree(root, cur),
                found ==> self.in_subtree(root, cur),
                at_top ==> !self.in_subtree(root, cur),
                !found ==> cur != root,
            decreases self.depth(cur) + (if at_top { 0nat } else { 1nat }),
        {
            match self.nodes[cur].parent {
                Some(p) => {
                    cur = p;
                    found = cur == root;
                },
                None => {
                    at_top = true;
                },
            }
        }
        found
    }

    /// Appends `child` to the children of `parent`.
    ///
    /// The child must be detached, and must not be the parent or one of its
    /// ancestors; otherwise the graph is left as it was and the reason is
    /// returned.
    pub fn add_child(&mut self, parent: usize, child: usize) -> (r: Result<(), SceneError>)
        requires
            old(self).wf(),
        ensures
            final(self).wf(),
            final(self)@.len() == old(self)@.len(),
            match old(self).attach_refusal(parent, child) {
                Some(e) => r == Err::<(), SceneError>(e) && final(self)@ == old(self)@,
                None => {
                    &&& r is Ok
                    &&& final(self)@[parent as int].children@ == old(self)@[parent as int].children@.push(child)
                    &&& final(self)@[parent as int].parent == old(self)@[parent as int].parent
                    &&& final(self)@[parent as int].data == old(self)@[parent as int].data
                    &&& final(self)@[parent as int].draw_handle == old(self)@[parent as int].draw_handle
                    &&& final(self)@[parent as int].primitive_count == old(self)@[parent as int].primitive_count
                    &&& final(self)@[child as int].parent == Some(parent)
                    &&& final(self)@[child as int].children == old(self)@[child as int].children
                    &&& final(self)@[child as int].data == old(self)@[child as int].data
                    &&& final(self)@[child as int].draw_handle == old(self)@[child as int].draw_handle
                    &&& final(self)@[child as int].primitive_count == old(self)@[child as int].primitive_count
                    &&& forall|i: int|
                        0 <= i < old(self)@.len() && i != parent && i != child ==> final(self)@[i]
                            == old(self)@[i]
                },
            },
    {
        if parent >= self.nodes.len() || child >= self.nodes.len() {
            return Err(SceneError::NoSuchNode);
        }
        if self.nodes[child].parent.is_some() {
            return Err(SceneError::AlreadyAttached);
        }
        if self.is_in_subtree(child, parent) {
            return Err(SceneError::WouldCycle);
        }
        let ghost before = *self;
        self.nodes[parent].children.push(child);
        self.nodes[child].parent = Some(parent);
        proof {
            let lift = before.depth@[parent as int] + 1;
            self.depth@ = Seq::new(
                before.depth@.len(),
                |x: int|
                    if before.in_subtree(child, x as usize) {
                        before.depth@[x] + lift
                    } else {
                        before.depth@[x]
                    },
            );
            self.bound@ = before.bound@ + lift;
            // Only the subtree of `child` is lifted, so every old edge keeps
            // its order of ranks and the new edge gets one.
            assert forall|i: usize| #![trigger self.nodes@[i as int].parent]
                i < self.nodes@.len() implies match self.nodes@[i as int].parent {
                Some(p) => p < self.nodes@.len() && self.depth@[p as int] < self.depth@[i as int],
                None => true,
            } by {
                if i != child {
                    assert(self.nodes@[i as int].parent == before.nodes@[i as int].parent);
                }
            }
            // Every node is still listed by its parent.
            assert forall|i: usize| #![trigger self@[i as int].parent]
                self.has(i) implies match self@[i as int].parent {
                Some(p) => self.has(p) && self@[p as int].children@.contains(i),
                None => true,
            } by {
                if i == child {
                    assert(self@[parent as int].children@.last() == child);
                } else if let Some(p) = before@[i as int].parent {
                    let k = choose|k: int|
                        0 <= k < before@[p as int].children@.len() && before@[p as int].children@[k]
                            == i;
                    assert(self@[p as int].children@[k] == i);
                }
            }
            // Every listed child still points back at its parent.
            assert forall|p: usize, k: int| #![trigger self@[p as int].children@[k]]
                self.has(p) && 0 <= k < self@[p as int].children@.len() implies {
                let c = self@[p as int].children@[k];
                self.has(c) && self@[c as int].parent == Some(p)
            } by {
                if p != parent || k < before@[p as int].children@.len() {
                    assert(self@[p as int].children@[k] == before@[p as int].children@[k]);
                }
            }
            // `child` had no parent, so it was in no list before.
            assert forall|p: usize| #![trigger self@[p as int].children]
                self.has(p) implies self@[p as int].children@.no_duplicates() by {
                assert(before@[p as int].children@.no_duplicates());
            }
        }
        Ok(())
    }
}

} // verus!
