//! An arena of scene nodes addressed by stable indices.
use vstd::prelude::*;

verus! {

/// GPU geometry a node refers to: a vertex array object and the number of
/// indices to draw from it.
#[derive(Clone, Copy, Debug, PartialEq, Eq, Structural)]
pub struct Drawable {
    pub vao_id: u32,
    pub index_count: i32,
}

/// One draw call: the node that issues it and the geometry it binds.
#[derive(Clone, Copy, Debug, PartialEq, Eq, Structural)]
pub struct DrawSubmission {
    pub node: usize,
    pub vao_id: u32,
    pub index_count: i32,
}

/// A forest of scene nodes.
///
/// Node `i` lives at index `i` of each of the parallel vectors. Callers hold
/// node indices as handles, so a node added as a child stays reachable (and
/// mutable) through the handle its creator kept.
pub struct SceneGraph {
    drawables: Vec<Option<Drawable>>,
    children: Vec<Vec<usize>>,
    parents: Vec<Option<usize>>,
    /// The top node of the tree each node belongs to.
    roots: Vec<usize>,
    /// Strictly decreasing along every parent-to-child edge: a witness that
    /// the graph has no cycle, and the measure of every walk down the tree.
    rank: Ghost<Seq<nat>>,
}

/// How many of the draw calls in `ds` are issued by node `y`.
pub open spec fn submissions_by(ds: Seq<DrawSubmission>, y: usize) -> nat
    decreases ds.len(),
{
    if ds.len() == 0 {
        0
    } else {
        submissions_by(ds.drop_last(), y) + if ds.last().node == y { 1nat } else { 0nat }
    }
}

/// How many times `y` occurs in `s`.
pub open spec fn occurrences(s: Seq<usize>, y: usize) -> nat
    decreases s.len(),
{
    if s.len() == 0 {
        0
    } else {
        occurrences(s.drop_last(), y) + if s.last() == y { 1nat } else { 0nat }
    }
}

proof fn lemma_occurrences_unique(s: Seq<usize>, y: usize)
    requires
        s.no_duplicates(),
    ensures
        occurrences(s, y) == if s.contains(y) { 1nat } else { 0nat },
    decreases s.len(),
{
    if s.len() > 0 {
        let t = s.drop_last();
        assert(t.no_duplicates());
        lemma_occurrences_unique(t, y);
        if s.last() == y {
            assert(!t.contains(y));
            assert(s.contains(y)) by { assert(s[s.len() - 1] == y); }
        } else {
            assert(s.contains(y) == t.contains(y)) by {
                if s.contains(y) {
                    let i = choose|i: int| 0 <= i < s.len() && s[i] == y;
                    assert(t[i] == y);
                }
                if t.contains(y) {
                    let i = choose|i: int| 0 <= i < t.len() && t[i] == y;
                    assert(s[i] == y);
                }
            }
        }
    }
}

/// `after` is `before` with `child` appended to the children of `parent`:
/// the parent link of `child` is set, and the tree below `child` joins the
/// tree that holds `parent`.
pub open spec fn adds_child(before: SceneGraph, after: SceneGraph, parent: usize, child: usize) -> bool {
    &&& after.drawables_spec() == before.drawables_spec()
    &&& after.children_view() == before.children_view().update(parent as int, before.kids(parent).push(child))
    &&& after.parents_view() == before.parents_view().update(child as int, Some(parent))
    &&& after.roots_view().len() == before.roots_view().len()
    &&& forall|x: int| #![trigger after.roots_view()[x]]
        0 <= x < before.roots_view().len() ==> after.roots_view()[x] == if before.roots_view()[x] == child {
            before.root_spec(parent)
        } else {
            before.roots_view()[x]
        }
}

impl SceneGraph {
    /// Number of nodes.
    pub open spec fn len_spec(&self) -> nat {
        self.drawables_spec().len()
    }

    /// The geometry of every node, by index.
    pub closed spec fn drawables_spec(&self) -> Seq<Option<Drawable>> {
        self.drawables@
    }

    /// The geometry of node `x`, if any.
    pub open spec fn drawable_spec(&self, x: usize) -> Option<Drawable> {
        self.drawables_spec()[x as int]
    }

    /// The children of `x`, in insertion order.
    pub open spec fn kids(&self, x: usize) -> Seq<usize> {
        self.children_view()[x as int]
    }

    /// The node `x` is a child of, if any.
    pub open spec fn parent_spec(&self, x: usize) -> Option<usize> {
        self.parents_view()[x as int]
    }

    /// The top node of the tree that holds `x`.
    pub open spec fn root_spec(&self, x: usize) -> usize {
        self.roots_view()[x as int]
    }

    /// The acyclicity measure of `x`.
    pub closed spec fn rank_of(&self, x: usize) -> nat {
        self.rank@[x as int]
    }

    /// Every per-node view has one entry per node, and the links are sound
    /// (see `links_ok`).
    pub open spec fn wf(&self) -> bool {
        &&& self.children_view().len() == self.len_spec()
        &&& self.parents_view().len() == self.len_spec()
        &&& self.roots_view().len() == self.len_spec()
        &&& self.links_ok()
    }

    /// Every edge joins two nodes of one tree, the child records the parent,
    /// the parent lists the child once, ranks fall along the edge, and a node
    /// without a parent is the top of its own tree.
    pub closed spec fn links_ok(&self) -> bool {
        let n = self.len_spec();
        &&& self.children@.len() == n
        &&& self.parents@.len() == n
        &&& self.roots@.len() == n
        &&& self.rank@.len() == n
        &&& forall|p: usize, i: int|
            #![trigger self.kids(p)[i]]
            p < n && 0 <= i < self.kids(p).len() ==> {
                let c = self.kids(p)[i];
                &&& c < n
                &&& self.parent_spec(c) == Some(p)
                &&& self.rank_of(c) < self.rank_of(p)
                &&& self.root_spec(c) == self.root_spec(p)
            }
        &&& forall|p: usize, i: int, j: int|
            #![trigger self.kids(p)[i], self.kids(p)[j]]
            p < n && 0 <= i < self.kids(p).len() && 0 <= j < self.kids(p).len()
                && self.kids(p)[i] == self.kids(p)[j] ==> i == j
        &&& forall|x: usize| #![trigger self.parent_spec(x)]
            x < n ==> (self.parent_spec(x) is None <==> self.root_spec(x) == x)
        &&& forall|x: usize| #![trigger self.parent_spec(x)]
            x < n && self.parent_spec(x) is Some ==> {
                let p = self.parent_spec(x)->0;
                &&& p < n
                &&& self.rank_of(x) < self.rank_of(p)
                &&& self.root_spec(x) == self.root_spec(p)
                &&& self.kids(p).contains(x)
            }
        &&& forall|x: usize| #![trigger self.root_spec(x)]
            x < n ==> self.root_spec(x) < n && self.parent_spec(self.root_spec(x)) is None
    }

    /// The parent link of every node, by index.
    pub closed spec fn parents_view(&self) -> Seq<Option<usize>> {
        self.parents@
    }

    /// The child list of every node, by index.
    pub closed spec fn children_view(&self) -> Seq<Seq<usize>> {
        self.children@.map_values(|v: Vec<usize>| v@)
    }

    /// The tree top of every node, by index.
    pub closed spec fn roots_view(&self) -> Seq<usize> {
        self.roots@
    }

    /// An empty scene.
    pub fn new() -> (r: SceneGraph)
        ensures
            r.wf(),
            r.len_spec() == 0,
    {
        SceneGraph {
            drawables: Vec::new(),
            children: Vec::new(),
            parents: Vec::new(),
            roots: Vec::new(),
            rank: Ghost(Seq::empty()),
        }
    }

    /// Number of nodes created so far.
    pub fn len(&self) -> (r: usize)
        ensures
            r == self.len_spec(),
    {
        self.drawables.len()
    }

    fn push_node(&mut self, drawable: Option<Drawable>) -> (r: usize)
        requires
            old(self).wf(),
            old(self).len_spec() < usize::MAX,
        ensures
            final(self).wf(),
            r == old(self).len_spec(),
            final(self).len_spec() == old(self).len_spec() + 1,
            final(self).drawables_spec() == old(self).drawables_spec().push(drawable),
            final(self).kids(r) == Seq::<usize>::empty(),
            final(self).parent_spec(r) is None,
            final(self).root_spec(r) == r,
            forall|x: usize| x < r ==> final(self).kids(x) == old(self).kids(x)
                && final(self).parent_spec(x) == old(self).parent_spec(x)
                && final(self).root_spec(x) == old(self).root_spec(x)
                && final(self).rank_of(x) == old(self).rank_of(x),
    {
        let id = self.drawables.len();
        self.drawables.push(drawable);
        self.children.push(Vec::new());
        self.parents.push(None);
        self.roots.push(id);
        self.rank = Ghost(self.rank@.push(0));
        proof {
            assert forall|p: usize, i: int|
                #![trigger self.kids(p)[i]]
                p < self.len_spec() && 0 <= i < self.kids(p).len() implies {
                    let c = self.kids(p)[i];
                    &&& c < self.len_spec()
                    &&& self.parent_spec(c) == Some(p)
                    &&& self.rank_of(c) < self.rank_of(p)
                    &&& self.root_spec(c) == self.root_spec(p)
                } by {
                assert(p < id);
                assert(self.kids(p)[i] == old(self).kids(p)[i]);
            }
            assert forall|p: usize, i: int, j: int|
                #![trigger self.kids(p)[i], self.kids(p)[j]]
                p < self.len_spec() && 0 <= i < self.kids(p).len() && 0 <= j < self.kids(p).len()
                    && self.kids(p)[i] == self.kids(p)[j] implies i == j by {
                assert(p < id);
                assert(self.kids(p) == old(self).kids(p));
            }
            assert forall|x: usize| #![trigger self.parent_spec(x)]
                x < self.len_spec() && self.parent_spec(x) is Some implies {
                    let p = self.parent_spec(x)->0;
                    &&& p < self.len_spec()
                    &&& self.rank_of(x) < self.rank_of(p)
                    &&& self.root_spec(x) == self.root_spec(p)
                    &&& self.kids(p).contains(x)
                } by {
                assert(x < id);
                assert(old(self).parent_spec(x) == self.parent_spec(x));
                let p = self.parent_spec(x)->0;
                assert(old(self).rank_of(p) == self.rank_of(p));
                assert(old(self).root_spec(p) == self.root_spec(p));
                assert(old(self).kids(p) == self.kids(p));
            }
            assert forall|x: usize| #![trigger self.parent_spec(x)]
                x < self.len_spec() implies (self.parent_spec(x) is None <==> self.root_spec(x) == x) by {
                if x < id {
                    assert(old(self).parent_spec(x) == self.parent_spec(x));
                    assert(old(self).root_spec(x) == self.root_spec(x));
                }
            }
            assert forall|x: usize| #![trigger self.root_spec(x)]
                x < self.len_spec() implies self.root_spec(x) < self.len_spec()
                    && self.parent_spec(self.root_spec(x)) is None by {
                if x < id {
                    assert(old(self).root_spec(x) == self.root_spec(x));
                    assert(old(self).parent_spec(old(self).root_spec(x)) is None);
                }
            }
        }
        id
    }

    /// A new grouping node: no geometry of its own, no children.
    pub fn create_group(&mut self) -> (r: usize)
        requires
            old(self).wf(),
            old(self).len_spec() < usize::MAX,
        ensures
            final(self).wf(),
            r == old(self).len_spec(),
            final(self).drawables_spec() == old(self).drawables_spec().push(None),
            final(self).kids(r) == Seq::<usize>::empty(),
            final(self).parent_spec(r) is None,
            final(self).root_spec(r) == r,
            forall|x: usize| x < r ==> final(self).kids(x) == old(self).kids(x)
                && final(self).parent_spec(x) == old(self).parent_spec(x)
                && final(self).root_spec(x) == old(self).root_spec(x),
    {
        self.push_node(None)
    }

    /// A new node that draws `index_count` indices from vertex array `vao_id`.
    pub fn create_drawable(&mut self, vao_id: u32, index_count: i32) -> (r: usize)
        requires
            old(self).wf(),
            old(self).len_spec() < usize::MAX,
        ensures
            final(self).wf(),
            r == old(self).len_spec(),
            final(self).drawables_spec() == old(self).drawables_spec().push(
                Some(Drawable { vao_id, index_count }),
            ),
            final(self).kids(r) == Seq::<usize>::empty(),
            final(self).parent_spec(r) is None,
            final(self).root_spec(r) == r,
            forall|x: usize| x < r ==> final(self).kids(x) == old(self).kids(x)
                && final(self).parent_spec(x) == old(self).parent_spec(x)
                && final(self).root_spec(x) == old(self).root_spec(x),
    {
        self.push_node(Some(Drawable { vao_id, index_count }))
    }

    /// The geometry node `x` draws, if any.
    pub fn drawable(&self, x: usize) -> (r: Option<Drawable>)
        requires
            self.wf(),
            x < self.len_spec(),
        ensures
            r == self.drawable_spec(x),
    {
        self.drawables[x]
    }

    /// The node `x` was added to as a child, if any.
    pub fn parent(&self, x: usize) -> (r: Option<usize>)
        requires
            self.wf(),
            x < self.len_spec(),
        ensures
            r == self.parent_spec(x),
    {
        self.parents[x]
    }

    /// The top node of the tree that holds `x`.
    pub fn root_of(&self, x: usize) -> (r: usize)
        requires
            self.wf(),
            x < self.len_spec(),
        ensures
            r == self.root_spec(x),
            r < self.len_spec(),
            self.parent_spec(r) is None,
    {
        assert(self.root_spec(x) < self.len_spec());
        self.roots[x]
    }

    /// Number of children of `x`.
    pub fn child_count(&self, x: usize) -> (r: usize)
        requires
            self.wf(),
            x < self.len_spec(),
        ensures
            r == self.kids(x).len(),
    {
        self.children[x].len()
    }

    /// The `i`-th child of `x`, counting in insertion order from 0.
    pub fn child(&self, x: usize, i: usize) -> (r: usize)
        requires
            self.wf(),
            x < self.len_spec(),
            i < self.kids(x).len(),
        ensures
            r == self.kids(x)[i as int],
            r < self.len_spec(),
            self.parent_spec(r) == Some(x),
    {
        let r = self.children[x][i];
        assert(r == self.kids(x)[i as int]);
        r
    }

    /// Whether `add_child(parent, child)` may be called: both nodes exist,
    /// `child` has no parent yet, and `child` is not the top of the tree that
    /// holds `parent` (so the new edge closes no cycle).
    pub fn can_add_child(&self, parent: usize, child: usize) -> (r: bool)
        requires
            self.wf(),
        ensures
            r == (parent < self.len_spec() && child < self.len_spec()
                && self.parent_spec(child) is None && self.root_spec(parent) != child),
    {
        parent < self.drawables.len() && child < self.drawables.len()
            && self.parents[child].is_none() && self.roots[parent] != child
    }

    /// Appends `child` to the children of `parent`. The tree below `child`
    /// becomes part of the tree that holds `parent`.
    pub fn add_child(&mut self, parent: usize, child: usize)
        requires
            old(self).wf(),
            parent < old(self).len_spec(),
            child < old(self).len_spec(),
            old(self).parent_spec(child) is None,
            old(self).root_spec(parent) != child,
        ensures
            final(self).wf(),
            adds_child(*old(self), *final(self), parent, child),
    {
        let n = self.roots.len();
        let top = self.roots[parent];
        let ghost old_roots = self.roots@;
        let ghost old_rank = self.rank@;
        let ghost k = self.rank@[child as int] + 1;
        let mut x: usize = 0;
        while x < n
            invariant
                n == self.roots@.len(),
                n == old(self).len_spec(),
                top == old_roots[parent as int],
                top != child,
                old_roots == old(self).roots@,
                self.drawables == old(self).drawables,
                self.children == old(self).children,
                self.parents == old(self).parents,
                self.rank == old(self).rank,
                forall|y: int| 0 <= y < x ==> self.roots@[y] == (if old_roots[y] == child { top } else { old_roots[y] }),
                forall|y: int| x <= y < n ==> self.roots@[y] == old_roots[y],
            decreases n - x,
        {
            if self.roots[x] == child {
                self.roots[x] = top;
            }
            x = x + 1;
        }
        self.children[parent].push(child);
        self.parents[child] = Some(parent);
        self.rank = Ghost(Seq::new(n as nat, |y: int| if old_roots[y] == child { old_rank[y] } else { old_rank[y] + k }));
        proof {
            let o = old(self);
            assert(o.root_spec(child) == child);
            assert forall|p: usize, i: int|
                #![trigger self.kids(p)[i]]
                p < self.len_spec() && 0 <= i < self.kids(p).len() implies {
                    let c = self.kids(p)[i];
                    &&& c < self.len_spec()
                    &&& self.parent_spec(c) == Some(p)
                    &&& self.rank_of(c) < self.rank_of(p)
                    &&& self.root_spec(c) == self.root_spec(p)
                } by {
                if p == parent && i == o.kids(p).len() {
                    assert(self.kids(p)[i] == child);
                } else {
                    assert(self.kids(p)[i] == o.kids(p)[i]);
                    let c = o.kids(p)[i];
                    assert(o.parent_spec(c) == Some(p));
                }
            }
            assert forall|p: usize, i: int, j: int|
                #![trigger self.kids(p)[i], self.kids(p)[j]]
                p < self.len_spec() && 0 <= i < self.kids(p).len() && 0 <= j < self.kids(p).len()
                    && self.kids(p)[i] == self.kids(p)[j] implies i == j by {
                let m = o.kids(p).len() as int;
                if p == parent {
                    if i < m && j == m {
                        assert(o.kids(p)[i] == self.kids(p)[i]);
                        assert(o.parent_spec(o.kids(p)[i]) == Some(p));
                    } else if j < m && i == m {
                        assert(o.kids(p)[j] == self.kids(p)[j]);
                        assert(o.parent_spec(o.kids(p)[j]) == Some(p));
                    } else if i < m && j < m {
                        assert(o.kids(p)[i] == self.kids(p)[i]);
                        assert(o.kids(p)[j] == self.kids(p)[j]);
                    }
                } else {
                    assert(o.kids(p) == self.kids(p));
                }
            }
            assert forall|y: usize| #![trigger self.parent_spec(y)]
                y < self.len_spec() && self.parent_spec(y) is Some implies {
                    let p = self.parent_spec(y)->0;
                    &&& p < self.len_spec()
                    &&& self.rank_of(y) < self.rank_of(p)
                    &&& self.root_spec(y) == self.root_spec(p)
                    &&& self.kids(p).contains(y)
                } by {
                let p = self.parent_spec(y)->0;
                if y != child {
                    assert(o.parent_spec(y) == self.parent_spec(y));
                    let i = choose|i: int| 0 <= i < o.kids(p).len() && o.kids(p)[i] == y;
                    assert(self.kids(p)[i] == y);
                } else {
                    assert(self.kids(p)[o.kids(p).len() as int] == y);
                }
            }
            assert forall|y: usize| #![trigger self.parent_spec(y)]
                y < self.len_spec() implies (self.parent_spec(y) is None <==> self.root_spec(y) == y) by {
                assert(o.parent_spec(y) is None <==> o.root_spec(y) == y);
                if o.root_spec(y) == child && y != child {
                    assert(o.parent_spec(o.root_spec(parent)) is None);
                }
            }
            assert forall|y: usize| #![trigger self.root_spec(y)]
                y < self.len_spec() implies self.root_spec(y) < self.len_spec()
                    && self.parent_spec(self.root_spec(y)) is None by {
                assert(o.parent_spec(o.root_spec(y)) is None);
                assert(o.parent_spec(o.root_spec(parent)) is None);
            }
            assert(self.children_view() =~= o.children_view().update(parent as int, o.kids(parent).push(child)));
            assert(self.parents_view() =~= o.parents_view().update(child as int, Some(parent)));

        }
    }

    /// Nodes of the tree under `x` in depth-first pre-order: `x` first, then
    /// the subtree of each child in insertion order.
    pub open spec fn visit(&self, x: usize) -> Seq<usize>
        decreases self.rank_of(x), self.kids(x).len() + 1,
    {
        seq![x] + self.visit_kids(x, self.kids(x).len() as int)
    }

    /// The subtrees of the first `k` children of `x`, one after the other.
    pub open spec fn visit_kids(&self, x: usize, k: int) -> Seq<usize>
        decreases self.rank_of(x), k,
    {
        if k <= 0 || k > self.kids(x).len() {
            Seq::empty()
        } else {
            let c = self.kids(x)[k - 1];
            self.visit_kids(x, k - 1) + if self.rank_of(c) < self.rank_of(x) {
                self.visit(c)
            } else {
                Seq::empty()
            }
        }
    }

    fn collect_visit(&self, x: usize, out: &mut Vec<usize>)
        requires
            self.wf(),
            x < self.len_spec(),
        ensures
            final(out)@ == old(out)@ + self.visit(x),
        decreases self.rank_of(x),
    {
        out.push(x);
        let kids = &self.children[x];
        let mut i: usize = 0;
        while i < kids.len()
            invariant
                self.wf(),
                x < self.len_spec(),
                kids@ == self.kids(x),
                i <= kids.len(),
                out@ == old(out)@ + seq![x] + self.visit_kids(x, i as int),
            decreases kids.len() - i,
        {
            let c = kids[i];
            assert(self.kids(x)[i as int] == c);
            self.collect_visit(c, out);
            assert(self.visit_kids(x, i + 1) == self.visit_kids(x, i as int) + self.visit(c));
            i = i + 1;
        }
        assert(old(out)@ + seq![x] + self.visit_kids(x, i as int) =~= old(out)@ + self.visit(x));
    }

    proof fn lemma_visit_shape(&self, x: usize)
        requires
            self.wf(),
            x < self.len_spec(),
        ensures
            self.visit(x).len() >= 1,
            self.visit(x)[0] == x,
            forall|m: int| 0 <= m < self.visit(x).len() ==> #[trigger] self.visit(x)[m] < self.len_spec(),
            forall|m: int| 0 < m < self.visit(x).len() ==> exists|j: int|
                0 <= j < m && self.parent_spec(#[trigger] self.visit(x)[m]) == Some(self.visit(x)[j]),
        decreases self.rank_of(x), self.kids(x).len() + 1,
    {
        let k = self.kids(x).len() as int;
        self.lemma_visit_kids_shape(x, k);
        let v = self.visit(x);
        let vk = self.visit_kids(x, k);
        assert(v == seq![x] + vk);
        assert forall|m: int| 0 < m < v.len() implies exists|j: int|
            0 <= j < m && self.parent_spec(#[trigger] v[m]) == Some(v[j]) by {
            assert(v[m] == vk[m - 1]);
            if self.parent_spec(vk[m - 1]) == Some(x) {
                assert(v[0] == x);
            } else {
                let j = choose|j: int| 0 <= j < m - 1 && self.parent_spec(vk[m - 1]) == Some(vk[j]);
                assert(v[j + 1] == vk[j]);
            }
        }
        assert forall|m: int| 0 <= m < v.len() implies #[trigger] v[m] < self.len_spec() by {
            if m > 0 {
                assert(v[m] == vk[m - 1]);
            }
        }
    }

    proof fn lemma_visit_kids_shape(&self, x: usize, k: int)
        requires
            self.wf(),
            x < self.len_spec(),
            0 <= k <= self.kids(x).len(),
        ensures
            forall|m: int| 0 <= m < self.visit_kids(x, k).len() ==> #[trigger] self.visit_kids(x, k)[m] < self.len_spec(),
            forall|m: int| 0 <= m < self.visit_kids(x, k).len() ==>
                self.parent_spec(#[trigger] self.visit_kids(x, k)[m]) == Some(x) || exists|j: int|
                0 <= j < m && self.parent_spec(self.visit_kids(x, k)[m]) == Some(self.visit_kids(x, k)[j]),
        decreases self.rank_of(x), k,
    {
        if k > 0 {
            let c = self.kids(x)[k - 1];
            assert(self.rank_of(c) < self.rank_of(x));
            self.lemma_visit_kids_shape(x, k - 1);
            self.lemma_visit_shape(c);
            let a = self.visit_kids(x, k - 1);
            let vc = self.visit(c);
            let w = self.visit_kids(x, k);
            assert(w == a + vc);
            assert forall|m: int| 0 <= m < w.len() implies #[trigger] w[m] < self.len_spec() by {
                if m < a.len() {
                    assert(w[m] == a[m]);
                } else {
                    assert(w[m] == vc[m - a.len()]);
                }
            }
            assert forall|m: int| 0 <= m < w.len() implies
                self.parent_spec(#[trigger] w[m]) == Some(x) || exists|j: int|
                0 <= j < m && self.parent_spec(w[m]) == Some(w[j]) by {
                if m < a.len() {
                    assert(w[m] == a[m]);
                    if self.parent_spec(a[m]) != Some(x) {
                        let j = choose|j: int| 0 <= j < m && self.parent_spec(a[m]) == Some(a[j]);
                        assert(w[j] == a[j]);
                    }
                } else {
                    let mm = m - a.len();
                    assert(w[m] == vc[mm]);
                    if mm == 0 {
                        assert(vc[0] == c);
                    } else {
                        let j = choose|j: int| 0 <= j < mm && self.parent_spec(vc[mm]) == Some(vc[j]);
                        assert(w[j + a.len()] == vc[j]);
                    }
                }
            }
        }
    }

    /// The draw calls issued while walking `s` in order: one for each node
    /// that has geometry, none for a pure group node.
    pub open spec fn submissions(&self, s: Seq<usize>) -> Seq<DrawSubmission>
        decreases s.len(),
    {
        if s.len() == 0 {
            Seq::empty()
        } else {
            let earlier = self.submissions(s.drop_last());
            let x = s.last();
            match self.drawable_spec(x) {
                Some(d) => earlier.push(DrawSubmission { node: x, vao_id: d.vao_id, index_count: d.index_count }),
                None => earlier,
            }
        }
    }

    /// The order in which world matrices are recomputed for the tree under
    /// `start`: depth-first pre-order, so each node comes after its parent
    /// and reads the parent's matrix only once it has been updated. `start`
    /// itself combines with the matrix the caller supplies.
    pub fn propagation_order(&self, start: usize) -> (r: Vec<usize>)
        requires
            self.wf(),
            start < self.len_spec(),
        ensures
            r@ == self.visit(start),
            r@.len() >= 1,
            r@[0] == start,
            forall|k: int| 0 <= k < r@.len() ==> #[trigger] r@[k] < self.len_spec(),
            forall|k: int| 0 < k < r@.len() ==> exists|j: int|
                0 <= j < k && self.parent_spec(#[trigger] r@[k]) == Some(r@[j]),
    {
        let mut out: Vec<usize> = Vec::new();
        self.collect_visit(start, &mut out);
        proof {
            assert(out@ =~= self.visit(start));
            self.lemma_visit_shape(start);
        }
        out
    }

    /// The draw calls of one frame for the tree under `start`, in pre-order.
    pub fn draw_list(&self, start: usize) -> (r: Vec<DrawSubmission>)
        requires
            self.wf(),
            start < self.len_spec(),
        ensures
            r@ == self.submissions(self.visit(start)),
    {
        let order = self.propagation_order(start);
        let mut out: Vec<DrawSubmission> = Vec::new();
        let mut i: usize = 0;
        while i < order.len()
            invariant
                self.wf(),
                i <= order@.len(),
                forall|k: int| 0 <= k < order@.len() ==> #[trigger] order@[k] < self.len_spec(),
                out@ == self.submissions(order@.subrange(0, i as int)),
            decreases order.len() - i,
        {
            let x = order[i];
            proof {
                assert(order@.subrange(0, i + 1).drop_last() =~= order@.subrange(0, i as int));
                assert(order@.subrange(0, i + 1).last() == x);
            }
            match self.drawables[x] {
                Some(d) => {
                    out.push(DrawSubmission { node: x, vao_id: d.vao_id, index_count: d.index_count });
                },
                None => {},
            }
            i = i + 1;
        }
        assert(order@.subrange(0, i as int) =~= order@);
        out
    }

    /// The `k`-th node up the parent chain from `y` (`y` itself for `k == 0`).
    pub open spec fn ancestor(&self, y: usize, k: nat) -> Option<usize>
        decreases k,
    {
        if k == 0 {
            Some(y)
        } else {
            match self.ancestor(y, (k - 1) as nat) {
                Some(z) => self.parent_spec(z),
                None => None,
            }
        }
    }

    /// `x` is `y` or lies on the parent chain above `y`.
    pub open spec fn descends(&self, y: usize, x: usize) -> bool {
        exists|a: nat| #[trigger] self.ancestor(y, a) == Some(x)
    }

    /// `y` lies in the subtree of one of the first `k` children of `x`.
    pub open spec fn under_kids(&self, y: usize, x: usize, k: int) -> bool {
        exists|i: int| 0 <= i < k && #[trigger] self.descends(y, self.kids(x)[i])
    }

    proof fn lemma_ancestor_rank(&self, y: usize, a: nat, b: nat)
        requires
            self.wf(),
            y < self.len_spec(),
            a <= b,
            self.ancestor(y, b) is Some,
        ensures
            self.ancestor(y, a) is Some,
            self.ancestor(y, b)->0 < self.len_spec(),
            a < b ==> self.rank_of(self.ancestor(y, a)->0) < self.rank_of(self.ancestor(y, b)->0),
            a == b ==> self.ancestor(y, a) == self.ancestor(y, b),
        decreases b,
    {
        if b > 0 {
            let prev = self.ancestor(y, (b - 1) as nat);
            assert(prev is Some);
            if a < b {
                self.lemma_ancestor_rank(y, a, (b - 1) as nat);
            }
            self.lemma_ancestor_rank(y, (b - 1) as nat, (b - 1) as nat);
            let z = prev->0;
            assert(self.parent_spec(z) is Some);
        }
    }

    proof fn lemma_visit_below(&self, x: usize)
        requires
            self.wf(),
            x < self.len_spec(),
        ensures
            forall|m: int| 0 <= m < self.visit(x).len() ==> self.descends(#[trigger] self.visit(x)[m], x),
            forall|m: int| 0 <= m < self.visit(x).len() ==>
                self.rank_of(#[trigger] self.visit(x)[m]) <= self.rank_of(x),
            self.visit(x).no_duplicates(),
        decreases self.rank_of(x), self.kids(x).len() + 1,
    {
        let k = self.kids(x).len() as int;
        self.lemma_visit_kids_below(x, k);
        let v = self.visit(x);
        let vk = self.visit_kids(x, k);
        assert(v == seq![x] + vk);
        assert(self.ancestor(x, 0) == Some(x));
        assert forall|m: int| 0 <= m < v.len() implies self.descends(#[trigger] v[m], x) by {
            if m == 0 {
                assert(self.ancestor(v[0], 0) == Some(x));
            } else {
                assert(v[m] == vk[m - 1]);
                assert(self.under_kids(vk[m - 1], x, k));
                let i = choose|i: int| 0 <= i < k && #[trigger] self.descends(vk[m - 1], self.kids(x)[i]);
                let c = self.kids(x)[i];
                let a = choose|a: nat| #[trigger] self.ancestor(vk[m - 1], a) == Some(c);
                assert(self.parent_spec(c) == Some(x));
                assert(self.ancestor(v[m], a + 1) == Some(x));
            }
        }
        assert forall|m: int| 0 <= m < v.len() implies self.rank_of(#[trigger] v[m]) <= self.rank_of(x) by {
            if m > 0 {
                assert(v[m] == vk[m - 1]);
            }
        }
        assert forall|i: int, j: int| 0 <= i < v.len() && 0 <= j < v.len() && i != j implies v[i] != v[j] by {
            if i > 0 && j > 0 {
                assert(v[i] == vk[i - 1]);
                assert(v[j] == vk[j - 1]);
            } else if i == 0 {
                assert(v[j] == vk[j - 1]);
            } else {
                assert(v[i] == vk[i - 1]);
            }
        }
    }

    proof fn lemma_visit_kids_below(&self, x: usize, k: int)
        requires
            self.wf(),
            x < self.len_spec(),
            0 <= k <= self.kids(x).len(),
        ensures
            forall|m: int| 0 <= m < self.visit_kids(x, k).len() ==>
                self.under_kids(#[trigger] self.visit_kids(x, k)[m], x, k),
            forall|m: int| 0 <= m < self.visit_kids(x, k).len() ==>
                self.rank_of(#[trigger] self.visit_kids(x, k)[m]) < self.rank_of(x),
            self.visit_kids(x, k).no_duplicates(),
        decreases self.rank_of(x), k,
    {
        if k > 0 {
            let c = self.kids(x)[k - 1];
            assert(self.rank_of(c) < self.rank_of(x));
            self.lemma_visit_kids_below(x, k - 1);
            self.lemma_visit_below(c);
            self.lemma_visit_shape(c);
            let a = self.visit_kids(x, k - 1);
            let vc = self.visit(c);
            let w = self.visit_kids(x, k);
            assert(w == a + vc);
            assert forall|m: int| 0 <= m < w.len() implies self.under_kids(#[trigger] w[m], x, k) by {
                if m < a.len() {
                    assert(w[m] == a[m]);
                    assert(self.under_kids(a[m], x, k - 1));
                    let i = choose|i: int| 0 <= i < k - 1 && #[trigger] self.descends(a[m], self.kids(x)[i]);
                    assert(self.descends(w[m], self.kids(x)[i]));
                } else {
                    assert(w[m] == vc[m - a.len()]);
                    assert(self.descends(w[m], self.kids(x)[k - 1]));
                }
            }

            assert forall|m: int| 0 <= m < w.len() implies self.rank_of(#[trigger] w[m]) < self.rank_of(x) by {
                if m < a.len() {
                    assert(w[m] == a[m]);
                } else {
                    assert(w[m] == vc[m - a.len()]);
                }
            }
            assert forall|i: int, j: int| 0 <= i < w.len() && 0 <= j < w.len() && i != j implies w[i] != w[j] by {
                if i < a.len() && j < a.len() {
                    assert(w[i] == a[i] && w[j] == a[j]);
                } else if i >= a.len() && j >= a.len() {
                    assert(w[i] == vc[i - a.len()] && w[j] == vc[j - a.len()]);
                } else {
                    let (p, q) = if i < a.len() { (i, j - a.len()) } else { (j, i - a.len()) };
                    assert(w[i] == a[p] || w[i] == vc[q]);
                    if a[p] == vc[q] {
                        let y = a[p];
                        assert(y < self.len_spec());
                        assert(self.under_kids(a[p], x, k - 1));
                        let ii = choose|ii: int| 0 <= ii < k - 1 && #[trigger] self.descends(a[p], self.kids(x)[ii]);
                        let ci = self.kids(x)[ii];
                        let e = choose|e: nat| #[trigger] self.ancestor(y, e) == Some(ci);
                        assert(self.descends(vc[q], c));
                        let f = choose|f: nat| #[trigger] self.ancestor(y, f) == Some(c);
                        assert(self.parent_spec(ci) == Some(x));
                        assert(self.parent_spec(c) == Some(x));
                        assert(self.ancestor(y, e + 1) == Some(x));
                        assert(self.ancestor(y, f + 1) == Some(x));
                        if e < f {
                            self.lemma_ancestor_rank(y, e + 1, f);
                            self.lemma_ancestor_rank(y, e + 1, e + 1);
                            assert(false);
                        } else if f < e {
                            self.lemma_ancestor_rank(y, f + 1, e);
                            self.lemma_ancestor_rank(y, f + 1, f + 1);
                            assert(false);
                        } else {
                            assert(ci == c);
                            assert(false);
                        }
                    }
                }
            }
        } else {
            assert(self.visit_kids(x, k).len() == 0);
        }
    }

    proof fn lemma_visit_kids_contains(&self, x: usize, i: int, k: int, y: usize)
        requires
            self.wf(),
            x < self.len_spec(),
            0 <= i < k <= self.kids(x).len(),
            self.visit(self.kids(x)[i]).contains(y),
        ensures
            self.visit_kids(x, k).contains(y),
        decreases k,
    {
        let c = self.kids(x)[k - 1];
        assert(self.rank_of(c) < self.rank_of(x));
        let a = self.visit_kids(x, k - 1);
        let w = self.visit_kids(x, k);
        assert(w == a + self.visit(c));
        if i == k - 1 {
            let j = choose|j: int| 0 <= j < self.visit(c).len() && self.visit(c)[j] == y;
            assert(w[a.len() + j] == y);
        } else {
            self.lemma_visit_kids_contains(x, i, k - 1, y);
            let j = choose|j: int| 0 <= j < a.len() && a[j] == y;
            assert(w[j] == y);
        }
    }

    proof fn lemma_descendant_visited(&self, y: usize, x: usize, a: nat)
        requires
            self.wf(),
            y < self.len_spec(),
            x < self.len_spec(),
            self.ancestor(y, a) == Some(x),
        ensures
            self.visit(x).contains(y),
        decreases a,
    {
        self.lemma_visit_shape(x);
        if a == 0 {
            assert(self.visit(x)[0] == y);
        } else {
            self.lemma_ancestor_rank(y, (a - 1) as nat, a);
            self.lemma_ancestor_rank(y, (a - 1) as nat, (a - 1) as nat);
            let c = self.ancestor(y, (a - 1) as nat)->0;
            assert(self.parent_spec(c) == Some(x));
            let i = choose|i: int| 0 <= i < self.kids(x).len() && self.kids(x)[i] == c;
            self.lemma_descendant_visited(y, c, (a - 1) as nat);
            let k = self.kids(x).len() as int;
            self.lemma_visit_kids_contains(x, i, k, y);
            let vk = self.visit_kids(x, k);
            assert(self.visit(x) == seq![x] + vk);
            let j = choose|j: int| 0 <= j < vk.len() && vk[j] == y;
            assert(self.visit(x)[j + 1] == y);
        }
    }

    proof fn lemma_submissions_by(&self, s: Seq<usize>, y: usize)
        ensures
            submissions_by(self.submissions(s), y) == if self.drawable_spec(y) is Some {
                occurrences(s, y)
            } else {
                0nat
            },
        decreases s.len(),
    {
        if s.len() > 0 {
            self.lemma_submissions_by(s.drop_last(), y);
            let earlier = self.submissions(s.drop_last());
            let x = s.last();
            match self.drawable_spec(x) {
                Some(d) => {
                    let sub = DrawSubmission { node: x, vao_id: d.vao_id, index_count: d.index_count };
                    assert(earlier.push(sub).drop_last() =~= earlier);
                },
                None => {},
            }
        }
    }
}

/// Walking the tree under `start` issues exactly one draw call for each node
/// of that tree that has geometry, and none for any other node.
pub proof fn lemma_one_draw_per_drawable(g: &SceneGraph, start: usize, y: usize)
    requires
        g.wf(),
        start < g.len_spec(),
    ensures
        submissions_by(g.submissions(g.visit(start)), y) == if g.visit(start).contains(y)
            && g.drawable_spec(y) is Some {
            1nat
        } else {
            0nat
        },
{
    g.lemma_visit_below(start);
    g.lemma_submissions_by(g.visit(start), y);
    lemma_occurrences_unique(g.visit(start), y);
}

proof fn lemma_same_parents_same_ancestors(g: SceneGraph, h: SceneGraph, y: usize, k: nat)
    requires
        g.parents_view() == h.parents_view(),
    ensures
        g.ancestor(y, k) == h.ancestor(y, k),
    decreases k,
{
    if k > 0 {
        lemma_same_parents_same_ancestors(g, h, y, (k - 1) as nat);
    }
}

/// Inserting two children of one parent in either order gives every node the
/// same parent, the same chain of ancestors (and so the same world matrix)
/// and the same tree, and the walk from any node reaches the same nodes; only
/// the order of that parent's child list differs.
pub proof fn lemma_sibling_order_irrelevant(
    g: SceneGraph,
    ga: SceneGraph,
    gab: SceneGraph,
    gb: SceneGraph,
    gba: SceneGraph,
    p: usize,
    a: usize,
    b: usize,
)
    requires
        g.wf(),
        p < g.len_spec(),
        a < g.len_spec(),
        b < g.len_spec(),
        a != b,
        g.parent_spec(a) is None,
        g.parent_spec(b) is None,
        g.root_spec(p) != a,
        g.root_spec(p) != b,
        adds_child(g, ga, p, a),
        adds_child(ga, gab, p, b),
        adds_child(g, gb, p, b),
        adds_child(gb, gba, p, a),
        gab.wf(),
        gba.wf(),
    ensures
        gab.parents_view() == gba.parents_view(),
        gab.roots_view() == gba.roots_view(),
        gab.drawables_spec() == gba.drawables_spec(),
        forall|y: usize, k: nat| #[trigger] gab.ancestor(y, k) == gba.ancestor(y, k),
        gab.kids(p) == g.kids(p) + seq![a, b],
        gba.kids(p) == g.kids(p) + seq![b, a],
        forall|x: usize| x < g.len_spec() && x != p ==> #[trigger] gab.kids(x) == gba.kids(x),
        forall|s: usize, y: usize| s < g.len_spec() ==>
            (#[trigger] gab.visit(s).contains(y) <==> #[trigger] gba.visit(s).contains(y)),
{
    let n = g.len_spec();
    assert(g.roots_view()[a as int] == a);
    assert(g.roots_view()[b as int] == b);
    assert(g.root_spec(a) == a);
    assert(g.root_spec(b) == b);
    assert(ga.root_spec(p) == g.root_spec(p));
    assert(gb.root_spec(p) == g.root_spec(p));
    assert forall|x: int| 0 <= x < gab.roots_view().len() implies gab.roots_view()[x] == gba.roots_view()[x] by {
        assert(ga.roots_view()[x] == if g.roots_view()[x] == a { g.root_spec(p) } else { g.roots_view()[x] });
        assert(gb.roots_view()[x] == if g.roots_view()[x] == b { g.root_spec(p) } else { g.roots_view()[x] });
    }
    assert(gab.parents_view() =~= gba.parents_view());
    assert(gab.roots_view() =~= gba.roots_view());
    assert forall|y: usize, k: nat| #[trigger] gab.ancestor(y, k) == gba.ancestor(y, k) by {
        lemma_same_parents_same_ancestors(gab, gba, y, k);
    }
    assert(ga.kids(p) == g.kids(p).push(a));
    assert(gab.kids(p) =~= g.kids(p) + seq![a, b]);
    assert(gb.kids(p) == g.kids(p).push(b));
    assert(gba.kids(p) =~= g.kids(p) + seq![b, a]);
    assert forall|x: usize| x < g.len_spec() && x != p implies #[trigger] gab.kids(x) == gba.kids(x) by {
    }
    assert forall|s: usize, y: usize| s < g.len_spec() implies
        (#[trigger] gab.visit(s).contains(y) <==> #[trigger] gba.visit(s).contains(y)) by {
        lemma_visit_is_subtree(&gab, s, y);
        lemma_visit_is_subtree(&gba, s, y);
        if gab.descends(y, s) {
            let e = choose|e: nat| #[trigger] gab.ancestor(y, e) == Some(s);
            assert(gba.ancestor(y, e) == Some(s));
        }
        if gba.descends(y, s) {
            let e = choose|e: nat| #[trigger] gba.ancestor(y, e) == Some(s);
            assert(gab.ancestor(y, e) == Some(s));
        }
    }
}

/// The walk from `x` reaches exactly the nodes that have `x` on their parent
/// chain (`x` included).
pub proof fn lemma_visit_is_subtree(g: &SceneGraph, x: usize, y: usize)
    requires
        g.wf(),
        x < g.len_spec(),
    ensures
        g.visit(x).contains(y) <==> (y < g.len_spec() && g.descends(y, x)),
{
    g.lemma_visit_below(x);
    g.lemma_visit_shape(x);
    if g.visit(x).contains(y) {
        let j = choose|j: int| 0 <= j < g.visit(x).len() && g.visit(x)[j] == y;
        assert(g.descends(g.visit(x)[j], x));
    }
    if y < g.len_spec() && g.descends(y, x) {
        let a = choose|a: nat| #[trigger] g.ancestor(y, a) == Some(x);
        g.lemma_descendant_visited(y, x, a);
    }
}

} // verus!
