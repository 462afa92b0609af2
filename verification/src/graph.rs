//! The thread forest: arena-style node storage (id-to-index map with a
//! parallel payload array), incremental insertion with placeholder synthesis
//! for unseen parents, and cycle-tolerant depth-first traversal.
//!
//! The graph's abstract state is the sequence of inserted posts
//! (`GraphView::history`); every structural fact — which ids are nodes,
//! which pairs are edges, which nodes are roots, which payload a node
//! carries — is a function of that history alone, which is what makes the
//! forest insensitive to insertion order.

use vstd::prelude::*;

use crate::post::{Post, PostView};

verus! {

/// Whether `id` was inserted as a record's own id.
pub open spec fn spec_is_standalone(h: Seq<PostView>, id: Seq<char>) -> bool {
    exists|k: int| #![trigger h[k]] 0 <= k < h.len() && h[k].id == id
}

/// Whether `id` was referenced as some record's parent.
pub open spec fn spec_is_parent_ref(h: Seq<PostView>, id: Seq<char>) -> bool {
    exists|k: int| #![trigger h[k]] 0 <= k < h.len() && h[k].parent_post_id == id
}

/// Whether `id` is a node: inserted as a record's own id, or referenced as a
/// parent.
pub open spec fn spec_is_node(h: Seq<PostView>, id: Seq<char>) -> bool {
    spec_is_standalone(h, id) || spec_is_parent_ref(h, id)
}

/// Whether `id` was ever inserted with the thread mark set.
pub open spec fn spec_is_thread(h: Seq<PostView>, id: Seq<char>) -> bool {
    exists|k: int| #![trigger h[k]] 0 <= k < h.len() && h[k].id == id && h[k].is_thread
}

/// Whether the forest holds an edge from `parent` to `child`: some record
/// with id `child` named `parent` and the two differ (self-parented records
/// add no edge).
pub open spec fn spec_is_edge(h: Seq<PostView>, parent: Seq<char>, child: Seq<char>) -> bool {
    exists|k: int|
        #![trigger h[k]]
        0 <= k < h.len() && h[k].parent_post_id == parent && h[k].id == child && parent != child
}

/// Whether `id` is a traversal root: marked as a thread start by some
/// insertion, or referenced as a parent while never inserted standalone (a
/// synthesized placeholder).
pub open spec fn spec_is_root(h: Seq<PostView>, id: Seq<char>) -> bool {
    spec_is_thread(h, id) || (spec_is_parent_ref(h, id) && !spec_is_standalone(h, id))
}

/// The last standalone insertion of `id`, if any.
pub open spec fn spec_last_standalone(h: Seq<PostView>, id: Seq<char>) -> PostView
    decreases h.len(),
{
    if h.len() == 0 {
        PostView::placeholder(id)
    } else if h.last().id == id {
        h.last()
    } else {
        spec_last_standalone(h.drop_last(), id)
    }
}

/// The payload a node carries: the last record inserted under its id, or the
/// synthesized placeholder if the id was only ever referenced as a parent.
pub open spec fn spec_payload(h: Seq<PostView>, id: Seq<char>) -> PostView {
    if spec_is_standalone(h, id) {
        spec_last_standalone(h, id)
    } else {
        PostView::placeholder(id)
    }
}

/// Total number of stored edges, duplicates counted.
pub open spec fn spec_edge_total(children: Seq<Seq<usize>>) -> nat
    decreases children.len(),
{
    if children.len() == 0 {
        0
    } else {
        spec_edge_total(children.drop_last()) + children.last().len()
    }
}

/// Abstraction of a [`ThreadGraph`]: the arena (ids, payloads, adjacency,
/// root-tracking flags) and the insertion history that models it.
pub ghost struct GraphView {
    pub ids: Seq<Seq<char>>,
    pub payloads: Seq<PostView>,
    pub children: Seq<Seq<usize>>,
    pub thread_flag: Seq<bool>,
    pub standalone: Seq<bool>,
    pub parent_ref: Seq<bool>,
    pub edge_total: usize,
    pub history: Seq<PostView>,
}

impl GraphView {
    /// The arena's shape: parallel arrays of one length, distinct ids,
    /// in-bounds adjacency, and an edge counter that matches the adjacency
    /// and never outruns the history.
    pub open spec fn structural(self) -> bool {
        &&& self.payloads.len() == self.ids.len()
        &&& self.children.len() == self.ids.len()
        &&& self.thread_flag.len() == self.ids.len()
        &&& self.standalone.len() == self.ids.len()
        &&& self.parent_ref.len() == self.ids.len()
        &&& forall|i: int, j: int|
            #![trigger self.ids[i], self.ids[j]]
            0 <= i < j < self.ids.len() ==> self.ids[i] != self.ids[j]
        &&& forall|i: int, k: int|
            #![trigger self.children[i][k]]
            0 <= i < self.children.len() && 0 <= k < self.children[i].len()
                ==> self.children[i][k] < self.ids.len()
        &&& self.edge_total as nat == spec_edge_total(self.children)
        &&& spec_edge_total(self.children) <= self.history.len()
    }

    /// Every concrete fact agrees with the insertion history: the node set,
    /// each flag, each payload, and the edge relation.
    pub open spec fn wf(self) -> bool {
        &&& self.structural()
        &&& forall|i: int|
            #![trigger self.ids[i]]
            0 <= i < self.ids.len() ==> spec_is_node(self.history, self.ids[i])
        &&& forall|id: Seq<char>|
            spec_is_node(self.history, id) ==> exists|i: int|
                #![trigger self.ids[i]]
                0 <= i < self.ids.len() && self.ids[i] == id
        &&& forall|i: int|
            #![trigger self.standalone[i]]
            0 <= i < self.ids.len() ==> self.standalone[i] == spec_is_standalone(
                self.history,
                self.ids[i],
            )
        &&& forall|i: int|
            #![trigger self.thread_flag[i]]
            0 <= i < self.ids.len() ==> self.thread_flag[i] == spec_is_thread(
                self.history,
                self.ids[i],
            )
        &&& forall|i: int|
            #![trigger self.parent_ref[i]]
            0 <= i < self.ids.len() ==> self.parent_ref[i] == spec_is_parent_ref(
                self.history,
                self.ids[i],
            )
        &&& forall|i: int|
            #![trigger self.payloads[i]]
            0 <= i < self.ids.len() ==> self.payloads[i] == spec_payload(
                self.history,
                self.ids[i],
            )
        &&& forall|i: int, j: int|
            #![trigger self.ids[i], self.ids[j]]
            0 <= i < self.ids.len() && 0 <= j < self.ids.len() ==> (self.children[i].contains(
                j as usize,
            ) == spec_is_edge(self.history, self.ids[i], self.ids[j]))
    }

    /// Whether index `i` is tracked as a root, by the flags alone.
    pub open spec fn is_root_at(self, i: int) -> bool {
        self.thread_flag[i] || (self.parent_ref[i] && !self.standalone[i])
    }
}

/// Extracts the insertion that makes `id` standalone.
proof fn choose_standalone(h: Seq<PostView>, id: Seq<char>) -> (k: int)
    requires
        spec_is_standalone(h, id),
    ensures
        0 <= k < h.len(),
        h[k].id == id,
{
    choose|k: int| #![trigger h[k]] 0 <= k < h.len() && h[k].id == id
}

/// Extracts the insertion that references `id` as a parent.
proof fn choose_parent_ref(h: Seq<PostView>, id: Seq<char>) -> (k: int)
    requires
        spec_is_parent_ref(h, id),
    ensures
        0 <= k < h.len(),
        h[k].parent_post_id == id,
{
    choose|k: int| #![trigger h[k]] 0 <= k < h.len() && h[k].parent_post_id == id
}

/// Extracts the insertion that marks `id` as a thread.
proof fn choose_thread(h: Seq<PostView>, id: Seq<char>) -> (k: int)
    requires
        spec_is_thread(h, id),
    ensures
        0 <= k < h.len(),
        h[k].id == id,
        h[k].is_thread,
{
    choose|k: int| #![trigger h[k]] 0 <= k < h.len() && h[k].id == id && h[k].is_thread
}

/// Extracts the insertion that carries the edge from `parent` to `child`.
proof fn choose_edge(h: Seq<PostView>, parent: Seq<char>, child: Seq<char>) -> (k: int)
    requires
        spec_is_edge(h, parent, child),
    ensures
        0 <= k < h.len(),
        h[k].parent_post_id == parent,
        h[k].id == child,
        parent != child,
{
    choose|k: int|
        #![trigger h[k]]
        0 <= k < h.len() && h[k].parent_post_id == parent && h[k].id == child && parent != child
}

/// LAW: one insertion changes each point of the model only at the record's
/// own id and its parent id — nothing else changes.
pub proof fn lemma_push_model(h: Seq<PostView>, p: PostView, id: Seq<char>)
    ensures
        spec_is_standalone(h.push(p), id) == (spec_is_standalone(h, id) || id == p.id),
        spec_is_parent_ref(h.push(p), id) == (spec_is_parent_ref(h, id) || id
            == p.parent_post_id),
        spec_is_thread(h.push(p), id) == (spec_is_thread(h, id) || (id == p.id && p.is_thread)),
        spec_is_node(h.push(p), id) == (spec_is_node(h, id) || id == p.id || id
            == p.parent_post_id),
{
    let h2 = h.push(p);
    assert(h2[h.len() as int] == p);
    assert(forall|k: int| #![trigger h2[k]] 0 <= k < h.len() ==> h2[k] == h[k]);
    if spec_is_standalone(h2, id) {
        let k = choose_standalone(h2, id);
        if k < h.len() {
            assert(h[k].id == id);
        }
    }
    if spec_is_standalone(h, id) {
        let k = choose_standalone(h, id);
        assert(h2[k].id == id);
    }
    if id == p.id {
        assert(h2[h.len() as int].id == id);
    }
    if spec_is_parent_ref(h2, id) {
        let k = choose_parent_ref(h2, id);
        if k < h.len() {
            assert(h[k].parent_post_id == id);
        }
    }
    if spec_is_parent_ref(h, id) {
        let k = choose_parent_ref(h, id);
        assert(h2[k].parent_post_id == id);
    }
    if id == p.parent_post_id {
        assert(h2[h.len() as int].parent_post_id == id);
    }
    if spec_is_thread(h2, id) {
        let k = choose_thread(h2, id);
        if k < h.len() {
            assert(h[k].id == id && h[k].is_thread);
        }
    }
    if spec_is_thread(h, id) {
        let k = choose_thread(h, id);
        assert(h2[k].id == id && h2[k].is_thread);
    }
    if id == p.id && p.is_thread {
        assert(h2[h.len() as int].id == id && h2[h.len() as int].is_thread);
    }
}

/// LAW: one insertion adds at most the one edge from the record's parent id
/// to its own id (none when self-parented) — no other edge changes.
pub proof fn lemma_push_edge(h: Seq<PostView>, p: PostView, a: Seq<char>, b: Seq<char>)
    ensures
        spec_is_edge(h.push(p), a, b) == (spec_is_edge(h, a, b) || (a == p.parent_post_id && b
            == p.id && a != b)),
{
    let h2 = h.push(p);
    assert(h2[h.len() as int] == p);
    assert(forall|k: int| #![trigger h2[k]] 0 <= k < h.len() ==> h2[k] == h[k]);
    if spec_is_edge(h2, a, b) {
        let k = choose_edge(h2, a, b);
        if k < h.len() {
            assert(h[k].parent_post_id == a && h[k].id == b);
        }
    }
    if spec_is_edge(h, a, b) {
        let k = choose_edge(h, a, b);
        assert(h2[k].parent_post_id == a && h2[k].id == b);
    }
    if a == p.parent_post_id && b == p.id && a != b {
        assert(h2[h.len() as int].parent_post_id == a && h2[h.len() as int].id == b);
    }
}

/// Both endpoints of an edge are nodes, and a thread mark implies a
/// standalone insertion.
proof fn lemma_model_implications(h: Seq<PostView>, a: Seq<char>, b: Seq<char>)
    ensures
        spec_is_edge(h, a, b) ==> spec_is_node(h, a) && spec_is_node(h, b),
        spec_is_thread(h, b) ==> spec_is_standalone(h, b),
{
    if spec_is_edge(h, a, b) {
        let k = choose_edge(h, a, b);
        assert(h[k].parent_post_id == a);
        assert(h[k].id == b);
    }
    if spec_is_thread(h, b) {
        let k = choose_thread(h, b);
        assert(h[k].id == b);
    }
}

/// How one insertion changes the last standalone payload of each id.
proof fn lemma_last_standalone_push(h: Seq<PostView>, p: PostView, id: Seq<char>)
    ensures
        p.id == id ==> spec_last_standalone(h.push(p), id) == p,
        p.id != id ==> spec_last_standalone(h.push(p), id) == spec_last_standalone(h, id),
{
    let h2 = h.push(p);
    assert(h2.last() == p);
    assert(h2.drop_last() == h);
}

/// LAW: one insertion overwrites exactly its own id's payload with the
/// inserted record — the later payload wins — and every other id keeps its
/// payload.
pub proof fn lemma_push_payload(h: Seq<PostView>, p: PostView, id: Seq<char>)
    ensures
        spec_payload(h.push(p), id) == (if id == p.id {
            p
        } else {
            spec_payload(h, id)
        }),
{
    lemma_push_model(h, p, id);
    lemma_last_standalone_push(h, p, id);
}

proof fn lemma_edge_total_push(children: Seq<Seq<usize>>, row: Seq<usize>)
    ensures
        spec_edge_total(children.push(row)) == spec_edge_total(children) + row.len(),
{
    assert(children.push(row).drop_last() == children);
    assert(children.push(row).last() == row);
}

proof fn lemma_edge_total_update(children: Seq<Seq<usize>>, i: int, row: Seq<usize>)
    requires
        0 <= i < children.len(),
    ensures
        spec_edge_total(children.update(i, row)) == spec_edge_total(children) + row.len()
            - children[i].len(),
    decreases children.len(),
{
    let c2 = children.update(i, row);
    if i == children.len() - 1 {
        assert(c2.drop_last() == children.drop_last());
        assert(c2.last() == row);
    } else {
        assert(c2.drop_last() == children.drop_last().update(i, row));
        assert(c2.last() == children.last());
        lemma_edge_total_update(children.drop_last(), i, row);
    }
}

/// How many entries of the visited map are still clear.
pub open spec fn count_unvisited(visited: Seq<bool>) -> nat
    decreases visited.len(),
{
    if visited.len() == 0 {
        0
    } else {
        (if visited.last() {
            0nat
        } else {
            1nat
        }) + count_unvisited(visited.drop_last())
    }
}

proof fn lemma_count_unvisited_update(visited: Seq<bool>, v: int)
    requires
        0 <= v < visited.len(),
        !visited[v],
    ensures
        count_unvisited(visited.update(v, true)) < count_unvisited(visited),
    decreases visited.len(),
{
    let u = visited.update(v, true);
    if v == visited.len() - 1 {
        assert(u.drop_last() == visited.drop_last());
        assert(u.last() == true);
    } else {
        assert(u.drop_last() == visited.drop_last().update(v, true));
        assert(u.last() == visited.last());
        lemma_count_unvisited_update(visited.drop_last(), v);
    }
}

/// The stack-driven depth-first search: pops the top of the stack; a node
/// not yet visited is recorded in pre-order and its children are stacked, a
/// visited or out-of-range node is dropped. The visited map makes the search
/// tolerate cycles and duplicate edges.
pub open spec fn dfs_rec(
    children: Seq<Seq<usize>>,
    visited: Seq<bool>,
    stack: Seq<usize>,
    acc: Seq<usize>,
) -> Seq<usize>
    decreases count_unvisited(visited), stack.len(),
    via dfs_rec_decreases
{
    if stack.len() == 0 {
        acc
    } else {
        let v = stack.last();
        let rest = stack.drop_last();
        if v < visited.len() && !visited[v as int] && children.len() == visited.len() {
            dfs_rec(
                children,
                visited.update(v as int, true),
                rest + children[v as int],
                acc.push(v),
            )
        } else {
            dfs_rec(children, visited, rest, acc)
        }
    }
}

#[via_fn]
proof fn dfs_rec_decreases(
    children: Seq<Seq<usize>>,
    visited: Seq<bool>,
    stack: Seq<usize>,
    acc: Seq<usize>,
) {
    if stack.len() > 0 {
        let v = stack.last();
        if v < visited.len() && !visited[v as int] && children.len() == visited.len() {
            lemma_count_unvisited_update(visited, v as int);
        }
    }
}

/// A visited map with every entry clear.
pub open spec fn spec_init_visited(n: nat) -> Seq<bool> {
    Seq::new(n, |i: int| false)
}

/// The pre-order index sequence of one search started at `start`.
pub open spec fn dfs_from(g: GraphView, start: usize) -> Seq<usize> {
    dfs_rec(g.children, spec_init_visited(g.ids.len()), seq![start], Seq::empty())
}

/// The texts that one search started at `start` collects, in visit order.
pub open spec fn dfs_texts(g: GraphView, start: usize) -> Seq<Seq<char>> {
    dfs_from(g, start).map_values(|v: usize| g.payloads[v as int].pagetext)
}

/// The traversal result over the first `n` node indices: one pair per
/// tracked root, in index order.
pub open spec fn spec_traverse_upto(g: GraphView, n: int) -> Seq<(Seq<char>, Seq<Seq<char>>)>
    decreases n,
{
    if n <= 0 {
        Seq::empty()
    } else if g.is_root_at(n - 1) {
        spec_traverse_upto(g, n - 1).push((g.ids[n - 1], dfs_texts(g, (n - 1) as usize)))
    } else {
        spec_traverse_upto(g, n - 1)
    }
}

/// The whole traversal result: one `(root id, texts)` pair per tracked root.
pub open spec fn spec_traverse(g: GraphView) -> Seq<(Seq<char>, Seq<Seq<char>>)> {
    spec_traverse_upto(g, g.ids.len() as int)
}

/// Whether some stored edge in the first `lim` adjacency rows points at `j`.
pub open spec fn spec_has_incoming_upto(g: GraphView, j: usize, lim: int) -> bool {
    exists|a: int, b: int|
        #![trigger g.children[a][b]]
        0 <= a < lim && 0 <= b < g.children[a].len() && g.children[a][b] == j
}

/// Whether any stored edge points at `j`.
pub open spec fn spec_has_incoming(g: GraphView, j: usize) -> bool {
    spec_has_incoming_upto(g, j, g.children.len() as int)
}

proof fn lemma_has_incoming_step(g: GraphView, j: usize, i: int)
    requires
        0 <= i < g.children.len(),
    ensures
        spec_has_incoming_upto(g, j, i + 1) == (spec_has_incoming_upto(g, j, i)
            || g.children[i].contains(j)),
{
    if spec_has_incoming_upto(g, j, i + 1) {
        let (a, b) = choose|a: int, b: int|
            #![trigger g.children[a][b]]
            0 <= a < i + 1 && 0 <= b < g.children[a].len() && g.children[a][b] == j;
        if a < i {
            assert(spec_has_incoming_upto(g, j, i));
        } else {
            assert(g.children[i][b] == j);
            assert(g.children[i].contains(j));
        }
    }
    if spec_has_incoming_upto(g, j, i) {
        let (a, b) = choose|a: int, b: int|
            #![trigger g.children[a][b]]
            0 <= a < i && 0 <= b < g.children[a].len() && g.children[a][b] == j;
        assert(spec_has_incoming_upto(g, j, i + 1));
    }
    if g.children[i].contains(j) {
        let b = choose|b: int| 0 <= b < g.children[i].len() && g.children[i][b] == j;
        assert(spec_has_incoming_upto(g, j, i + 1));
    }
}

/// The diagnostic root list over the first `n` indices: those with no
/// incoming edge, in increasing order.
pub open spec fn spec_show_roots_upto(g: GraphView, n: int) -> Seq<usize>
    decreases n,
{
    if n <= 0 {
        Seq::empty()
    } else if !spec_has_incoming(g, (n - 1) as usize) {
        spec_show_roots_upto(g, n - 1).push((n - 1) as usize)
    } else {
        spec_show_roots_upto(g, n - 1)
    }
}

/// The diagnostic root list: every node index with no incoming edge.
pub open spec fn spec_show_roots(g: GraphView) -> Seq<usize> {
    spec_show_roots_upto(g, g.ids.len() as int)
}

/// The mutable forest: one node per distinct id ever seen, parallel payload
/// array, adjacency lists, and the flags that track thread starts,
/// standalone insertions and parent references.
pub struct ThreadGraph {
    ids: Vec<String>,
    payload: Vec<Post>,
    children: Vec<Vec<usize>>,
    thread_flag: Vec<bool>,
    standalone: Vec<bool>,
    parent_ref: Vec<bool>,
    edge_total: usize,
    history: Ghost<Seq<PostView>>,
}

impl View for ThreadGraph {
    type V = GraphView;

    closed spec fn view(&self) -> GraphView {
        GraphView {
            ids: self.ids@.map_values(|s: String| s@),
            payloads: self.payload@.map_values(|p: Post| p@),
            children: self.children@.map_values(|v: Vec<usize>| v@),
            thread_flag: self.thread_flag@,
            standalone: self.standalone@,
            parent_ref: self.parent_ref@,
            edge_total: self.edge_total,
            history: self.history@,
        }
    }
}

impl ThreadGraph {
    /// An empty forest: no nodes, no edges, empty history.
    pub fn new() -> (r: ThreadGraph)
        ensures
            r@.wf(),
            r@.history == Seq::<PostView>::empty(),
            r@.ids == Seq::<Seq<char>>::empty(),
    {
        let r = ThreadGraph {
            ids: Vec::new(),
            payload: Vec::new(),
            children: Vec::new(),
            thread_flag: Vec::new(),
            standalone: Vec::new(),
            parent_ref: Vec::new(),
            edge_total: 0,
            history: Ghost(Seq::empty()),
        };
        proof {
            assert(r@.ids =~= Seq::<Seq<char>>::empty());
            assert(r@.payloads =~= Seq::<PostView>::empty());
            assert(r@.children =~= Seq::<Seq<usize>>::empty());
        }
        r
    }

    /// The index holding `id`, if the id has been seen.
    fn find_index(&self, id: &String) -> (r: Option<usize>)
        ensures
            r is Some ==> r->0 < self@.ids.len() && self@.ids[r->0 as int] == id@,
            r is None ==> forall|i: int|
                #![trigger self@.ids[i]]
                0 <= i < self@.ids.len() ==> self@.ids[i] != id@,
    {
        let n = self.ids.len();
        for i in 0..n
            invariant
                n == self@.ids.len(),
                forall|j: int| #![trigger self@.ids[j]] 0 <= j < i ==> self@.ids[j] != id@,
        {
            if self.ids[i] == *id {
                return Some(i);
            }
        }
        None
    }

    /// Whether `id` already has a node, as the id-to-index map sees it.
    pub fn is_in_map(&self, id: &String) -> (r: bool)
        ensures
            r == self@.ids.contains(id@),
    {
        let r = self.find_index(id);
        proof {
            if self@.ids.contains(id@) {
                let i = choose|i: int| 0 <= i < self@.ids.len() && self@.ids[i] == id@;
                assert(r is Some) by {
                    if r is None {
                        assert(self@.ids[i] != id@);
                    }
                }
            }
            if r is Some {
                assert(self@.ids.contains(id@)) by {
                    assert(self@.ids[r->0 as int] == id@);
                }
            }
        }
        r.is_some()
    }

    /// Returns the index of `id`, creating a node with a placeholder payload
    /// and clear flags if the id is new. Leaves the history untouched.
    fn add_node(&mut self, id: &String) -> (idx: usize)
        requires
            old(self)@.structural(),
        ensures
            final(self)@.structural(),
            idx < final(self)@.ids.len(),
            final(self)@.ids[idx as int] == id@,
            old(self)@.ids.contains(id@) ==> final(self)@ == old(self)@,
            !old(self)@.ids.contains(id@) ==> final(self)@ == (GraphView {
                ids: old(self)@.ids.push(id@),
                payloads: old(self)@.payloads.push(PostView::placeholder(id@)),
                children: old(self)@.children.push(Seq::<usize>::empty()),
                thread_flag: old(self)@.thread_flag.push(false),
                standalone: old(self)@.standalone.push(false),
                parent_ref: old(self)@.parent_ref.push(false),
                ..old(self)@
            }) && idx == old(self)@.ids.len(),
    {
        let found = self.find_index(id);
        match found {
            Some(i) => {
                proof {
                    assert(self@.ids.contains(id@)) by {
                        assert(self@.ids[i as int] == id@);
                    }
                }
                i
            },
            None => {
                let idx = self.ids.len();
                let ghost old_view = self@;
                self.ids.push(id.clone());
                self.payload.push(Post::placeholder(id.clone()));
                self.children.push(Vec::new());
                self.thread_flag.push(false);
                self.standalone.push(false);
                self.parent_ref.push(false);
                proof {
                    if old_view.ids.contains(id@) {
                        let i = choose|i: int|
                            0 <= i < old_view.ids.len() && old_view.ids[i] == id@;
                        assert(old_view.ids[i] != id@);
                    }
                    assert(self@.ids =~= old_view.ids.push(id@));
                    assert(self@.payloads =~= old_view.payloads.push(PostView::placeholder(id@)));
                    assert(self@.children =~= old_view.children.push(Seq::<usize>::empty()));
                    lemma_edge_total_push(old_view.children, Seq::<usize>::empty());
                    assert forall|i: int, k: int|
                        #![trigger self@.children[i][k]]
                        0 <= i < self@.children.len() && 0 <= k < self@.children[i].len() implies
                    self@.children[i][k] < self@.ids.len() by {
                        assert(self@.children[i] == old_view.children.push(
                            Seq::<usize>::empty(),
                        )[i]);
                        assert(i < old_view.children.len());
                        assert(self@.children[i] == old_view.children[i]);
                    }
                }
                idx
            },
        }
    }

    /// Inserts one record: ensures a node for the parent id (synthesizing a
    /// placeholder if unseen) and for the record's own id, overwrites that
    /// node's payload, records the flags, and adds the parent-to-child edge
    /// unless the record is self-parented.
    ///
    /// The whole effect on the abstract state is one push onto the insertion
    /// history; which ids are nodes, edges, roots, and which payload each
    /// node carries all follow through well-formedness.
    #[verifier::rlimit(100)]
    pub fn add_post(&mut self, post: Post)
        requires
            old(self)@.wf(),
            spec_edge_total(old(self)@.children) < usize::MAX,
        ensures
            final(self)@.wf(),
            final(self)@.history == old(self)@.history.push(post@),
            final(self)@.ids.len() <= old(self)@.ids.len() + 2,
    {
        let ghost pv = post@;
        let ghost h0 = self.history@;
        let ghost g0 = self@;
        let from_idx = self.add_node(&post.parent_post_id);
        let to_idx = self.add_node(&post.id);
        let ghost mid = self@;
        let is_self = from_idx == to_idx;
        self.parent_ref[from_idx] = true;
        self.standalone[to_idx] = true;
        if post.is_thread {
            self.thread_flag[to_idx] = true;
        }
        self.payload[to_idx] = post;
        if !is_self {
            self.children[from_idx].push(to_idx);
            self.edge_total = self.edge_total + 1;
        }
        self.history = Ghost(h0.push(pv));
        proof {
            let g = self@;
            let h2 = h0.push(pv);
            let n = g.ids.len() as int;
            assert(g.payloads =~= mid.payloads.update(to_idx as int, pv));
            assert(g.thread_flag =~= if pv.is_thread {
                mid.thread_flag.update(to_idx as int, true)
            } else {
                mid.thread_flag
            });
            assert(g.standalone =~= mid.standalone.update(to_idx as int, true));
            assert(g.parent_ref =~= mid.parent_ref.update(from_idx as int, true));
            if !is_self {
                assert(g.children =~= mid.children.update(
                    from_idx as int,
                    mid.children[from_idx as int].push(to_idx),
                ));
            } else {
                assert(g.children =~= mid.children);
            }
            assert(mid.ids == g.ids);
            assert(g.ids[from_idx as int] == pv.parent_post_id);
            assert(g.ids[to_idx as int] == pv.id);
            assert forall|x: Seq<char>| #![trigger spec_is_standalone(h2, x)] true implies {
                &&& spec_is_standalone(h2, x) == (spec_is_standalone(h0, x) || x == pv.id)
                &&& spec_is_parent_ref(h2, x) == (spec_is_parent_ref(h0, x) || x
                    == pv.parent_post_id)
                &&& spec_is_thread(h2, x) == (spec_is_thread(h0, x) || (x == pv.id
                    && pv.is_thread))
                &&& spec_is_node(h2, x) == (spec_is_node(h0, x) || x == pv.id || x
                    == pv.parent_post_id)
            } by {
                lemma_push_model(h0, pv, x);
            }

            // the two add_node calls preserve the old arena as a prefix and
            // leave the model facts of untouched ids alone
            assert(forall|i: int|
                #![trigger g0.ids[i]]
                0 <= i < g0.ids.len() ==> mid.ids[i] == g0.ids[i]);
            assert forall|i: int| #![trigger mid.ids[i]] 0 <= i < mid.ids.len() implies {
                &&& mid.standalone[i] == spec_is_standalone(h0, mid.ids[i])
                &&& mid.thread_flag[i] == spec_is_thread(h0, mid.ids[i])
                &&& mid.parent_ref[i] == spec_is_parent_ref(h0, mid.ids[i])
                &&& mid.payloads[i] == spec_payload(h0, mid.ids[i])
            } by {
                if i < g0.ids.len() {
                    assert(g0.standalone[i] == spec_is_standalone(h0, g0.ids[i]));
                    assert(g0.thread_flag[i] == spec_is_thread(h0, g0.ids[i]));
                    assert(g0.parent_ref[i] == spec_is_parent_ref(h0, g0.ids[i]));
                    assert(g0.payloads[i] == spec_payload(h0, g0.ids[i]));
                } else {
                    // a node added by add_node: fresh, so no old-model facts
                    if spec_is_standalone(h0, mid.ids[i]) {
                        let k = choose_standalone(h0, mid.ids[i]);
                        assert(spec_is_node(h0, mid.ids[i]));
                        let w = choose|w: int|
                            #![trigger g0.ids[w]]
                            0 <= w < g0.ids.len() && g0.ids[w] == mid.ids[i];
                        assert(mid.ids[w] == mid.ids[i]);
                        assert(false);
                    }
                    if spec_is_thread(h0, mid.ids[i]) {
                        let k = choose_thread(h0, mid.ids[i]);
                        assert(spec_is_standalone(h0, mid.ids[i]));
                    }
                    if spec_is_parent_ref(h0, mid.ids[i]) {
                        let k = choose_parent_ref(h0, mid.ids[i]);
                        assert(spec_is_node(h0, mid.ids[i]));
                        let w = choose|w: int|
                            #![trigger g0.ids[w]]
                            0 <= w < g0.ids.len() && g0.ids[w] == mid.ids[i];
                        assert(mid.ids[w] == mid.ids[i]);
                        assert(false);
                    }
                }
            }

            // the model's fresh facts sit at the two indices
            assert(!spec_is_standalone(h0, mid.ids[to_idx as int]) ==> mid.standalone[to_idx as int]
                == false);

            // node set correspondence
            assert forall|id: Seq<char>| spec_is_node(h2, id) implies exists|i: int|
                #![trigger g.ids[i]]
                0 <= i < g.ids.len() && g.ids[i] == id by {
                if spec_is_node(h0, id) {
                    let w = choose|w: int|
                        #![trigger g0.ids[w]]
                        0 <= w < g0.ids.len() && g0.ids[w] == id;
                    assert(g.ids[w] == id);
                } else if id == pv.id {
                    assert(g.ids[to_idx as int] == id);
                } else {
                    assert(id == pv.parent_post_id);
                    assert(g.ids[from_idx as int] == id);
                }
            }
            assert forall|i: int| #![trigger g.ids[i]] 0 <= i < n implies spec_is_node(
                h2,
                g.ids[i],
            ) by {
                if i < g0.ids.len() {
                    assert(spec_is_node(h0, g0.ids[i]));
                } else if i == to_idx {
                    assert(g.ids[i] == pv.id);
                } else {
                    assert(g.ids[i] == pv.parent_post_id);
                }
            }

            // flags
            assert forall|i: int| #![trigger g.standalone[i]] 0 <= i < n implies g.standalone[i]
                == spec_is_standalone(h2, g.ids[i]) by {
                if i == to_idx {
                } else {
                    assert(g.ids[i] != pv.id);
                    assert(g.standalone[i] == mid.standalone[i]);
                    assert(mid.standalone[i] == spec_is_standalone(h0, mid.ids[i]));
                }
            }
            assert forall|i: int| #![trigger g.parent_ref[i]] 0 <= i < n implies g.parent_ref[i]
                == spec_is_parent_ref(h2, g.ids[i]) by {
                if i == from_idx {
                } else {
                    assert(g.ids[i] != pv.parent_post_id);
                    assert(g.parent_ref[i] == mid.parent_ref[i]);
                    assert(mid.parent_ref[i] == spec_is_parent_ref(h0, mid.ids[i]));
                }
            }
            assert forall|i: int| #![trigger g.thread_flag[i]] 0 <= i < n implies g.thread_flag[i]
                == spec_is_thread(h2, g.ids[i]) by {
                if i == to_idx {
                    assert(mid.thread_flag[i] == spec_is_thread(h0, mid.ids[i]));
                } else {
                    assert(g.ids[i] != pv.id);
                    assert(g.thread_flag[i] == mid.thread_flag[i]);
                    assert(mid.thread_flag[i] == spec_is_thread(h0, mid.ids[i]));
                }
            }

            // payloads
            assert forall|i: int| #![trigger g.payloads[i]] 0 <= i < n implies g.payloads[i]
                == spec_payload(h2, g.ids[i]) by {
                lemma_last_standalone_push(h0, pv, g.ids[i]);
                if i == to_idx {
                    assert(spec_is_standalone(h2, pv.id));
                    assert(g.payloads[i] == pv);
                } else {
                    assert(g.ids[i] != pv.id);
                    assert(g.payloads[i] == mid.payloads[i]);
                    assert(mid.payloads[i] == spec_payload(h0, mid.ids[i]));
                }
            }

            // node indices fit in usize
            assert(self.ids@.len() <= usize::MAX) by {
                assert(vstd::std_specs::vec::spec_vec_len(&self.ids) == self.ids@.len());
            }
            assert(n <= usize::MAX);

            // edges
            assert forall|i: int, j: int|
                #![trigger g.ids[i], g.ids[j]]
                0 <= i < n && 0 <= j < n implies (g.children[i].contains(j as usize)
                == spec_is_edge(h2, g.ids[i], g.ids[j])) by {
                lemma_push_edge(h0, pv, g.ids[i], g.ids[j]);
                lemma_model_implications(h0, g.ids[i], g.ids[j]);
                let mid_edge = if i < g0.ids.len() && j < g0.ids.len() {
                    spec_is_edge(h0, g.ids[i], g.ids[j])
                } else {
                    false
                };
                // the old edge relation at (i, j)
                if i < g0.ids.len() && j < g0.ids.len() {
                    assert(g0.children[i].contains(j as usize) == spec_is_edge(
                        h0,
                        g0.ids[i],
                        g0.ids[j],
                    ));
                    assert(mid.children[i] == g0.children[i]);
                } else {
                    // a fresh endpoint: no old edge, and its adjacency row is
                    // empty before this insertion
                    if spec_is_edge(h0, g.ids[i], g.ids[j]) {
                        let w = choose|w: int|
                            #![trigger g0.ids[w]]
                            0 <= w < g0.ids.len() && g0.ids[w] == (if i < g0.ids.len() {
                                g.ids[j]
                            } else {
                                g.ids[i]
                            });
                        assert(mid.ids[w] == mid.ids[if i < g0.ids.len() {
                            j
                        } else {
                            i
                        }]);
                        assert(false);
                    }
                    if i >= g0.ids.len() {
                        assert(mid.children[i] =~= Seq::<usize>::empty());
                    } else {
                        assert(mid.children[i] == g0.children[i]);
                    }
                }
                // old adjacency never reaches a fresh j
                if j >= g0.ids.len() && i < g0.ids.len() && g0.children[i].contains(j as usize) {
                    let k = choose|k: int|
                        0 <= k < g0.children[i].len() && g0.children[i][k] == (j as usize);
                    assert(g0.children[i][k] < g0.ids.len());
                    assert(false);
                }
                if !is_self && i == from_idx {
                    assert(g.children[i] == mid.children[i].push(to_idx));
                    if j == to_idx {
                        assert(g.children[i][g.children[i].len() - 1] == to_idx);
                        assert(g.children[i].contains(j as usize));
                        assert(pv.parent_post_id != pv.id);
                    } else {
                        assert(g.ids[j] != pv.id);
                        assert((j as usize) != to_idx);
                        if g.children[i].contains(j as usize) {
                            let k = choose|k: int|
                                0 <= k < g.children[i].len() && g.children[i][k] == (j as usize);
                            assert(k < mid.children[i].len());
                            assert(mid.children[i][k] == (j as usize));
                            assert(mid.children[i].contains(j as usize));
                        }
                        if mid.children[i].contains(j as usize) {
                            let k = choose|k: int|
                                0 <= k < mid.children[i].len() && mid.children[i][k] == (
                                j as usize);
                            assert(g.children[i][k] == (j as usize));
                            assert(g.children[i].contains(j as usize));
                        }
                    }
                } else {
                    assert(g.children[i] == mid.children[i]);
                    if is_self {
                        assert(pv.parent_post_id == pv.id);
                    } else if g.ids[i] == pv.parent_post_id && g.ids[j] == pv.id {
                        assert(i == from_idx);
                    }
                }
            }

            // edge counter
            if !is_self {
                lemma_edge_total_update(
                    mid.children,
                    from_idx as int,
                    mid.children[from_idx as int].push(to_idx),
                );
            }

            // adjacency stays in bounds
            assert forall|i: int, k: int|
                #![trigger g.children[i][k]]
                0 <= i < g.children.len() && 0 <= k < g.children[i].len() implies g.children[i][k]
                < g.ids.len() by {
                if !is_self && i == from_idx && k == g.children[i].len() - 1 {
                } else {
                    assert(g.children[i][k] == mid.children[i][k]);
                }
            }
        }
    }

    /// One depth-first search from `start`: the visited indices in
    /// pre-order, mapped to their payloads' texts, together with the start
    /// node's id.
    fn single_dfs(&self, start: usize) -> (r: (String, Vec<String>))
        requires
            self@.structural(),
            start < self@.ids.len(),
        ensures
            r.0@ == self@.ids[start as int],
            r.1@.map_values(|s: String| s@) == dfs_texts(self@, start),
    {
        let n = self.ids.len();
        let mut visited: Vec<bool> = Vec::new();
        for z in 0..n
            invariant
                visited@.len() == z,
                forall|k: int| #![trigger visited@[k]] 0 <= k < z ==> visited@[k] == false,
        {
            visited.push(false);
        }
        proof {
            assert(visited@ =~= spec_init_visited(self@.ids.len()));
        }
        let mut stack: Vec<usize> = Vec::new();
        stack.push(start);
        let mut order: Vec<usize> = Vec::new();
        proof {
            assert(stack@ =~= seq![start]);
            assert(order@ =~= Seq::<usize>::empty());
        }
        while stack.len() > 0
            invariant
                self@.structural(),
                n == self@.ids.len(),
                visited@.len() == n,
                forall|k: int| #![trigger stack@[k]] 0 <= k < stack@.len() ==> stack@[k] < n,
                forall|k: int| #![trigger order@[k]] 0 <= k < order@.len() ==> order@[k] < n,
                dfs_rec(self@.children, visited@, stack@, order@) == dfs_from(self@, start),
            decreases count_unvisited(visited@), stack@.len(),
        {
            let ghost vis0 = visited@;
            let ghost stack0 = stack@;
            let ghost order0 = order@;
            let v = stack.pop().unwrap();
            assert(stack0.drop_last() =~= stack@);
            if !visited[v] {
                proof {
                    lemma_count_unvisited_update(vis0, v as int);
                }
                visited[v] = true;
                order.push(v);
                let ghost rest = stack@;
                let row_len = self.children[v].len();
                for k in 0..row_len
                    invariant
                        self@.structural(),
                        n == self@.ids.len(),
                        v < n,
                        row_len == self@.children[v as int].len(),
                        stack@ == rest + self@.children[v as int].take(k as int),
                        forall|q: int|
                            #![trigger rest[q]]
                            0 <= q < rest.len() ==> rest[q] < n,
                        forall|q: int|
                            #![trigger stack@[q]]
                            0 <= q < stack@.len() ==> stack@[q] < n,
                {
                    let c = self.children[v][k];
                    stack.push(c);
                    proof {
                        let row = self@.children[v as int];
                        assert(row.take(k + 1) =~= row.take(k as int).push(c));
                        assert(stack@ =~= rest + self@.children[v as int].take(k + 1));
                    }
                }
                proof {
                    let row = self@.children[v as int];
                    assert(row.take(row_len as int) =~= row);
                    assert(stack@ =~= rest + self@.children[v as int]);
                    assert(visited@ =~= vis0.update(v as int, true));
                    assert(order@ =~= order0.push(v));
                    // one unfolding of the search at the popped node
                    assert(dfs_rec(self@.children, vis0, stack0, order0) == dfs_rec(
                        self@.children,
                        visited@,
                        stack@,
                        order@,
                    ));
                }
            } else {
                proof {
                    assert(dfs_rec(self@.children, vis0, stack0, order0) == dfs_rec(
                        self@.children,
                        visited@,
                        stack@,
                        order@,
                    ));
                }
            }
        }
        proof {
            assert(stack@.len() == 0);
            assert(dfs_rec(self@.children, visited@, stack@, order@) == order@);
        }
        let mut texts: Vec<String> = Vec::new();
        let m = order.len();
        for k in 0..m
            invariant
                self@.structural(),
                n == self@.ids.len(),
                m == order@.len(),
                forall|q: int| #![trigger order@[q]] 0 <= q < order@.len() ==> order@[q] < n,
                texts@.len() == k,
                forall|q: int|
                    #![trigger texts@[q]]
                    0 <= q < k ==> texts@[q]@ == self@.payloads[order@[q] as int].pagetext,
        {
            let idx = order[k];
            texts.push(self.payload[idx].pagetext.clone());
        }
        proof {
            let lhs = texts@.map_values(|s: String| s@);
            let rhs = dfs_texts(self@, start);
            assert(rhs == order@.map_values(|v: usize| self@.payloads[v as int].pagetext));
            assert forall|q: int| 0 <= q < m implies lhs[q] == rhs[q] by {
                assert(lhs[q] == texts@[q]@);
                assert(rhs[q] == self@.payloads[order@[q] as int].pagetext);
            }
            assert(lhs =~= rhs);
        }
        let root_id = self.ids[start].clone();
        (root_id, texts)
    }

    /// Runs one independent depth-first search from every tracked root, in
    /// node-index order, returning one `(root id, pre-order texts)` pair per
    /// root, then clears all internal state for reuse.
    pub fn traverse(&mut self) -> (r: Vec<(String, Vec<String>)>)
        requires
            old(self)@.wf(),
        ensures
            r@.map_values(
                |pr: (String, Vec<String>)| (pr.0@, pr.1@.map_values(|s: String| s@)),
            ) == spec_traverse(old(self)@),
            final(self)@.wf(),
            final(self)@.history == Seq::<PostView>::empty(),
            final(self)@.ids == Seq::<Seq<char>>::empty(),
    {
        let n = self.ids.len();
        let mut out: Vec<(String, Vec<String>)> = Vec::new();
        proof {
            assert(out@.map_values(
                |pr: (String, Vec<String>)| (pr.0@, pr.1@.map_values(|s: String| s@)),
            ) =~= spec_traverse_upto(self@, 0));
        }
        for i in 0..n
            invariant
                self@ == old(self)@,
                self@.wf(),
                n == self@.ids.len(),
                out@.map_values(
                    |pr: (String, Vec<String>)| (pr.0@, pr.1@.map_values(|s: String| s@)),
                ) == spec_traverse_upto(self@, i as int),
        {
            let is_root = self.thread_flag[i] || (self.parent_ref[i] && !self.standalone[i]);
            assert(is_root == self@.is_root_at(i as int));
            if is_root {
                let pair = self.single_dfs(i);
                out.push(pair);
            }
            proof {
                assert(out@.map_values(
                    |pr: (String, Vec<String>)| (pr.0@, pr.1@.map_values(|s: String| s@)),
                ) =~= spec_traverse_upto(self@, i + 1));
            }
        }
        self.ids = Vec::new();
        self.payload = Vec::new();
        self.children = Vec::new();
        self.thread_flag = Vec::new();
        self.standalone = Vec::new();
        self.parent_ref = Vec::new();
        self.edge_total = 0;
        self.history = Ghost(Seq::empty());
        proof {
            assert(self@.ids =~= Seq::<Seq<char>>::empty());
            assert(self@.payloads =~= Seq::<PostView>::empty());
            assert(self@.children =~= Seq::<Seq<usize>>::empty());
        }
        out
    }

    /// Diagnostic: the node indices with no incoming edge, in increasing
    /// order. This may disagree with the tracked roots (a node can carry an
    /// incoming edge and still be marked a thread start); the tracked roots
    /// are what traversal uses.
    pub fn show_roots(&self) -> (r: Vec<usize>)
        requires
            self@.structural(),
        ensures
            r@ == spec_show_roots(self@),
    {
        let n = self.ids.len();
        proof {
            assert(self.ids@.len() <= usize::MAX) by {
                assert(vstd::std_specs::vec::spec_vec_len(&self.ids) == self.ids@.len());
            }
        }
        let mut incoming: Vec<bool> = Vec::new();
        for z in 0..n
            invariant
                incoming@.len() == z,
                forall|k: int| #![trigger incoming@[k]] 0 <= k < z ==> incoming@[k] == false,
        {
            incoming.push(false);
        }
        proof {
            assert forall|j: usize| j < n implies incoming@[j as int] == spec_has_incoming_upto(
                self@,
                j,
                0,
            ) by {
                if spec_has_incoming_upto(self@, j, 0) {
                    let (a, b) = choose|a: int, b: int|
                        #![trigger self@.children[a][b]]
                        0 <= a < 0 && 0 <= b < self@.children[a].len() && self@.children[a][b]
                            == j;
                }
            }
        }
        for i in 0..n
            invariant
                self@.structural(),
                n == self@.ids.len(),
                n <= usize::MAX,
                incoming@.len() == n,
                forall|j: usize|
                    j < n ==> incoming@[j as int] == spec_has_incoming_upto(self@, j, i as int),
        {
            let row_len = self.children[i].len();
            for k in 0..row_len
                invariant
                    self@.structural(),
                    n == self@.ids.len(),
                    n <= usize::MAX,
                    i < n,
                    incoming@.len() == n,
                    row_len == self@.children[i as int].len(),
                    forall|j: usize|
                        j < n ==> incoming@[j as int] == (spec_has_incoming_upto(
                            self@,
                            j,
                            i as int,
                        ) || self@.children[i as int].take(k as int).contains(j)),
            {
                let c = self.children[i][k];
                incoming[c] = true;
                proof {
                    let row = self@.children[i as int];
                    let rowk = row.take(k as int);
                    let rowk1 = row.take(k + 1);
                    assert(rowk1 =~= rowk.push(c));
                    assert forall|j: usize| j < n implies incoming@[j as int] == (
                    spec_has_incoming_upto(self@, j, i as int) || rowk1.contains(j)) by {
                        if rowk1.contains(j) {
                            let q = choose|q: int| #![auto] 0 <= q < rowk1.len() && rowk1[q] == j;
                            if q < k {
                                assert(rowk[q] == j);
                                assert(rowk.contains(j));
                            } else {
                                assert(j == c);
                            }
                        }
                        if j == c {
                            assert(rowk1[k as int] == c);
                            assert(rowk1.contains(j));
                        }
                        if rowk.contains(j) {
                            let q = choose|q: int| #![auto] 0 <= q < rowk.len() && rowk[q] == j;
                            assert(rowk1[q] == j);
                            assert(rowk1.contains(j));
                        }
                    }
                }
            }
            proof {
                let row = self@.children[i as int];
                assert(row.take(row_len as int) =~= row);
                assert forall|j: usize| j < n implies incoming@[j as int]
                    == spec_has_incoming_upto(self@, j, i + 1) by {
                    lemma_has_incoming_step(self@, j, i as int);
                }
            }
        }
        let mut out: Vec<usize> = Vec::new();
        proof {
            assert(out@ =~= spec_show_roots_upto(self@, 0));
        }
        for j in 0..n
            invariant
                self@.structural(),
                n == self@.ids.len(),
                incoming@.len() == n,
                forall|x: usize|
                    x < n ==> incoming@[x as int] == spec_has_incoming_upto(self@, x, n as int),
                out@ == spec_show_roots_upto(self@, j as int),
        {
            if !incoming[j] {
                out.push(j);
            }
            proof {
                assert(out@ =~= spec_show_roots_upto(self@, j + 1));
            }
        }
        out
    }

    /// Every node's id, in index order — the data behind the node-listing
    /// diagnostic.
    pub fn node_ids(&self) -> (r: Vec<String>)
        ensures
            r@.map_values(|s: String| s@) == self@.ids,
    {
        let n = self.ids.len();
        let mut out: Vec<String> = Vec::new();
        for i in 0..n
            invariant
                n == self@.ids.len(),
                out@.len() == i,
                forall|k: int| #![trigger out@[k]] 0 <= k < i ==> out@[k]@ == self@.ids[k],
        {
            out.push(self.ids[i].clone());
        }
        proof {
            assert(out@.map_values(|s: String| s@) =~= self@.ids);
        }
        out
    }

    /// The number of nodes: one per distinct id ever seen.
    pub fn node_count(&self) -> (r: usize)
        ensures
            r == self@.ids.len(),
    {
        self.ids.len()
    }

    /// The number of stored edges, duplicates counted.
    pub fn edge_count(&self) -> (r: usize)
        requires
            self@.wf(),
        ensures
            r as nat == spec_edge_total(self@.children),
    {
        self.edge_total
    }
}

/// Whether `p` is a chain of stored edges, by id.
pub open spec fn spec_path(h: Seq<PostView>, p: Seq<Seq<char>>) -> bool {
    &&& p.len() >= 1
    &&& forall|k: int|
        #![trigger p[k]]
        0 <= k < p.len() - 1 ==> spec_is_edge(h, p[k], p[k + 1])
}

/// Whether `id` can be reached from `root` along stored edges.
pub open spec fn spec_reachable(h: Seq<PostView>, root: Seq<char>, id: Seq<char>) -> bool {
    exists|p: Seq<Seq<char>>| #![auto] spec_path(h, p) && p.first() == root && p.last() == id
}

/// Every id reachable from `root` along stored edges.
pub open spec fn spec_reachable_set(h: Seq<PostView>, root: Seq<char>) -> Set<Seq<char>> {
    Set::new(|id: Seq<char>| spec_reachable(h, root, id))
}

proof fn lemma_multiset_eq_same_members(h1: Seq<PostView>, h2: Seq<PostView>)
    requires
        h1.to_multiset() == h2.to_multiset(),
    ensures
        forall|p: PostView| h1.contains(p) == h2.contains(p),
{
    broadcast use vstd::seq_lib::group_to_multiset_ensures;

    assert forall|p: PostView| h1.contains(p) == h2.contains(p) by {
        assert(h1.contains(p) <==> h1.to_multiset().count(p) > 0);
        assert(h2.contains(p) <==> h2.to_multiset().count(p) > 0);
    }
}

proof fn lemma_same_members_same_model(h1: Seq<PostView>, h2: Seq<PostView>)
    requires
        forall|p: PostView| h1.contains(p) == h2.contains(p),
    ensures
        forall|id: Seq<char>| #![auto] spec_is_standalone(h1, id) == spec_is_standalone(h2, id),
        forall|id: Seq<char>| #![auto] spec_is_parent_ref(h1, id) == spec_is_parent_ref(h2, id),
        forall|id: Seq<char>| #![auto] spec_is_thread(h1, id) == spec_is_thread(h2, id),
        forall|a: Seq<char>, b: Seq<char>| #![auto]
            spec_is_edge(h1, a, b) == spec_is_edge(h2, a, b),
{
    assert forall|id: Seq<char>| #![auto] spec_is_standalone(h1, id) == spec_is_standalone(
        h2,
        id,
    ) by {
        if spec_is_standalone(h1, id) {
            let k = choose_standalone(h1, id);
            assert(h1.contains(h1[k]));
            let m = choose|m: int| #![auto] 0 <= m < h2.len() && h2[m] == h1[k];
            assert(h2[m].id == id);
        }
        if spec_is_standalone(h2, id) {
            let k = choose_standalone(h2, id);
            assert(h2.contains(h2[k]));
            let m = choose|m: int| #![auto] 0 <= m < h1.len() && h1[m] == h2[k];
            assert(h1[m].id == id);
        }
    }
    assert forall|id: Seq<char>| #![auto] spec_is_parent_ref(h1, id) == spec_is_parent_ref(
        h2,
        id,
    ) by {
        if spec_is_parent_ref(h1, id) {
            let k = choose_parent_ref(h1, id);
            assert(h1.contains(h1[k]));
            let m = choose|m: int| #![auto] 0 <= m < h2.len() && h2[m] == h1[k];
            assert(h2[m].parent_post_id == id);
        }
        if spec_is_parent_ref(h2, id) {
            let k = choose_parent_ref(h2, id);
            assert(h2.contains(h2[k]));
            let m = choose|m: int| #![auto] 0 <= m < h1.len() && h1[m] == h2[k];
            assert(h1[m].parent_post_id == id);
        }
    }
    assert forall|id: Seq<char>| #![auto] spec_is_thread(h1, id) == spec_is_thread(h2, id) by {
        if spec_is_thread(h1, id) {
            let k = choose_thread(h1, id);
            assert(h1.contains(h1[k]));
            let m = choose|m: int| #![auto] 0 <= m < h2.len() && h2[m] == h1[k];
            assert(h2[m].id == id && h2[m].is_thread);
        }
        if spec_is_thread(h2, id) {
            let k = choose_thread(h2, id);
            assert(h2.contains(h2[k]));
            let m = choose|m: int| #![auto] 0 <= m < h1.len() && h1[m] == h2[k];
            assert(h1[m].id == id && h1[m].is_thread);
        }
    }
    assert forall|a: Seq<char>, b: Seq<char>| #![auto] spec_is_edge(h1, a, b) == spec_is_edge(
        h2,
        a,
        b,
    ) by {
        if spec_is_edge(h1, a, b) {
            let k = choose_edge(h1, a, b);
            assert(h1.contains(h1[k]));
            let m = choose|m: int| #![auto] 0 <= m < h2.len() && h2[m] == h1[k];
            assert(h2[m].parent_post_id == a && h2[m].id == b);
        }
        if spec_is_edge(h2, a, b) {
            let k = choose_edge(h2, a, b);
            assert(h2.contains(h2[k]));
            let m = choose|m: int| #![auto] 0 <= m < h1.len() && h1[m] == h2[k];
            assert(h1[m].parent_post_id == a && h1[m].id == b);
        }
    }
}

/// LAW: for any two insertion orders of one fixed record collection, the
/// model agrees at every point — the same ids are nodes, the same pairs are
/// edges, the same ids are roots, every id carries the same set of thread
/// marks, and every root reaches the same id set.
pub proof fn lemma_insertion_order_irrelevant(h1: Seq<PostView>, h2: Seq<PostView>)
    requires
        h1.to_multiset() == h2.to_multiset(),
    ensures
        forall|id: Seq<char>| #![auto] spec_is_node(h1, id) == spec_is_node(h2, id),
        forall|a: Seq<char>, b: Seq<char>| #![auto]
            spec_is_edge(h1, a, b) == spec_is_edge(h2, a, b),
        forall|id: Seq<char>| #![auto] spec_is_root(h1, id) == spec_is_root(h2, id),
        forall|root: Seq<char>| #![auto]
            spec_reachable_set(h1, root) == spec_reachable_set(h2, root),
{
    lemma_multiset_eq_same_members(h1, h2);
    lemma_same_members_same_model(h1, h2);
    assert forall|root: Seq<char>| #![auto] spec_reachable_set(h1, root) == spec_reachable_set(
        h2,
        root,
    ) by {
        assert forall|id: Seq<char>| #![auto] spec_reachable(h1, root, id) == spec_reachable(
            h2,
            root,
            id,
        ) by {
            if spec_reachable(h1, root, id) {
                let p = choose|p: Seq<Seq<char>>| #![auto]
                    spec_path(h1, p) && p.first() == root && p.last() == id;
                assert(spec_path(h2, p));
            }
            if spec_reachable(h2, root, id) {
                let p = choose|p: Seq<Seq<char>>| #![auto]
                    spec_path(h2, p) && p.first() == root && p.last() == id;
                assert(spec_path(h1, p));
            }
        }
        assert(spec_reachable_set(h1, root) =~= spec_reachable_set(h2, root));
    }
}

/// LAW: two well-formed forests built from permutations of one record
/// collection hold the same node ids, equally many of them, and the same
/// edges, roots and reachable sets.
pub proof fn lemma_graphs_agree_after_permutation(g1: GraphView, g2: GraphView)
    requires
        g1.wf(),
        g2.wf(),
        g1.history.to_multiset() == g2.history.to_multiset(),
    ensures
        g1.ids.to_set() == g2.ids.to_set(),
        g1.ids.len() == g2.ids.len(),
        forall|a: Seq<char>, b: Seq<char>| #![auto]
            spec_is_edge(g1.history, a, b) == spec_is_edge(g2.history, a, b),
        forall|id: Seq<char>| #![auto]
            spec_is_root(g1.history, id) == spec_is_root(g2.history, id),
        forall|root: Seq<char>| #![auto]
            spec_reachable_set(g1.history, root) == spec_reachable_set(g2.history, root),
{
    lemma_insertion_order_irrelevant(g1.history, g2.history);
    assert forall|id: Seq<char>| #![auto] g1.ids.contains(id) == g2.ids.contains(id) by {
        if g1.ids.contains(id) {
            let i = choose|i: int| #![auto] 0 <= i < g1.ids.len() && g1.ids[i] == id;
            assert(spec_is_node(g1.history, g1.ids[i]));
            let j = choose|j: int|
                #![trigger g2.ids[j]]
                0 <= j < g2.ids.len() && g2.ids[j] == id;
            assert(g2.ids.contains(id));
        }
        if g2.ids.contains(id) {
            let i = choose|i: int| #![auto] 0 <= i < g2.ids.len() && g2.ids[i] == id;
            assert(spec_is_node(g2.history, g2.ids[i]));
            let j = choose|j: int|
                #![trigger g1.ids[j]]
                0 <= j < g1.ids.len() && g1.ids[j] == id;
            assert(g1.ids.contains(id));
        }
    }
    assert(g1.ids.to_set() =~= g2.ids.to_set());
    assert(g1.ids.no_duplicates());
    assert(g2.ids.no_duplicates());
    g1.ids.unique_seq_to_set();
    g2.ids.unique_seq_to_set();
}

/// LAW: re-inserting a record under an already-seen id never creates a
/// second node index for that id and the later payload wins; the node set
/// grows by at most the record's parent id, and not at all when the parent
/// id was seen too.
pub proof fn lemma_reinsert_last_wins(g1: GraphView, g2: GraphView, p: PostView)
    requires
        g1.wf(),
        g2.wf(),
        g2.history == g1.history.push(p),
        spec_is_node(g1.history, p.id),
    ensures
        forall|id: Seq<char>| #![auto]
            g2.ids.contains(id) == (g1.ids.contains(id) || id == p.parent_post_id),
        g2.ids.to_set() == g1.ids.to_set().insert(p.parent_post_id),
        g1.ids.len() <= g2.ids.len() <= g1.ids.len() + 1,
        spec_is_node(g1.history, p.parent_post_id) ==> g2.ids.to_set() == g1.ids.to_set()
            && g2.ids.len() == g1.ids.len(),
        spec_payload(g2.history, p.id) == p,
        forall|i: int, j: int|
            #![trigger g2.ids[i], g2.ids[j]]
            0 <= i < g2.ids.len() && 0 <= j < g2.ids.len() && g2.ids[i] == p.id && g2.ids[j]
                == p.id ==> i == j,
{
    broadcast use vstd::seq_lib::seq_to_set_is_finite;

    assert forall|id: Seq<char>| #![auto] spec_is_node(g2.history, id) == (spec_is_node(
        g1.history,
        id,
    ) || id == p.parent_post_id) by {
        lemma_push_model(g1.history, p, id);
    }
    assert forall|id: Seq<char>| #![auto] g2.ids.contains(id) == (g1.ids.contains(id) || id
        == p.parent_post_id) by {
        if g1.ids.contains(id) {
            let i = choose|i: int| #![auto] 0 <= i < g1.ids.len() && g1.ids[i] == id;
            assert(spec_is_node(g1.history, g1.ids[i]));
            let j = choose|j: int|
                #![trigger g2.ids[j]]
                0 <= j < g2.ids.len() && g2.ids[j] == id;
            assert(g2.ids.contains(id));
        }
        if id == p.parent_post_id {
            assert(spec_is_node(g2.history, id));
            let j = choose|j: int|
                #![trigger g2.ids[j]]
                0 <= j < g2.ids.len() && g2.ids[j] == id;
            assert(g2.ids.contains(id));
        }
        if g2.ids.contains(id) && !g1.ids.contains(id) {
            let i = choose|i: int| #![auto] 0 <= i < g2.ids.len() && g2.ids[i] == id;
            assert(spec_is_node(g2.history, g2.ids[i]));
            if spec_is_node(g1.history, id) {
                let j = choose|j: int|
                    #![trigger g1.ids[j]]
                    0 <= j < g1.ids.len() && g1.ids[j] == id;
                assert(g1.ids.contains(id));
            }
        }
    }
    assert(g2.ids.to_set() =~= g1.ids.to_set().insert(p.parent_post_id));
    assert(g1.ids.no_duplicates());
    assert(g2.ids.no_duplicates());
    g1.ids.unique_seq_to_set();
    g2.ids.unique_seq_to_set();
    vstd::set::axiom_set_insert_len(g1.ids.to_set(), p.parent_post_id);
    if spec_is_node(g1.history, p.parent_post_id) {
        let j = choose|j: int|
            #![trigger g1.ids[j]]
            0 <= j < g1.ids.len() && g1.ids[j] == p.parent_post_id;
        assert(g1.ids.contains(p.parent_post_id));
        assert(g1.ids.to_set().contains(p.parent_post_id));
        assert(g2.ids.to_set() =~= g1.ids.to_set());
    }
    lemma_push_model(g1.history, p, p.id);
    lemma_last_standalone_push(g1.history, p, p.id);
}

proof fn lemma_dfs_acc_prefix(
    children: Seq<Seq<usize>>,
    visited: Seq<bool>,
    stack: Seq<usize>,
    acc: Seq<usize>,
)
    ensures
        dfs_rec(children, visited, stack, acc).len() >= acc.len(),
        forall|q: int|
            #![auto]
            0 <= q < acc.len() ==> dfs_rec(children, visited, stack, acc)[q] == acc[q],
    decreases count_unvisited(visited), stack.len(),
{
    if stack.len() == 0 {
    } else {
        let v = stack.last();
        let rest = stack.drop_last();
        if v < visited.len() && !visited[v as int] && children.len() == visited.len() {
            lemma_count_unvisited_update(visited, v as int);
            lemma_dfs_acc_prefix(
                children,
                visited.update(v as int, true),
                rest + children[v as int],
                acc.push(v),
            );
            let result = dfs_rec(children, visited, stack, acc);
            assert(result == dfs_rec(
                children,
                visited.update(v as int, true),
                rest + children[v as int],
                acc.push(v),
            ));
            assert forall|q: int| 0 <= q < acc.len() implies result[q] == acc[q] by {
                assert(result[q] == acc.push(v)[q]);
            }
        } else {
            lemma_dfs_acc_prefix(children, visited, rest, acc);
        }
    }
}

/// A search starting at an in-range node visits that node first.
proof fn lemma_dfs_starts_at_root(g: GraphView, start: usize)
    requires
        g.structural(),
        start < g.ids.len(),
    ensures
        dfs_from(g, start).len() >= 1,
        dfs_from(g, start)[0] == start,
{
    let visited = spec_init_visited(g.ids.len());
    let stack = seq![start];
    assert(stack.last() == start);
    assert(stack.drop_last() =~= Seq::<usize>::empty());
    assert(!visited[start as int]);
    lemma_dfs_acc_prefix(
        g.children,
        visited.update(start as int, true),
        stack.drop_last() + g.children[start as int],
        Seq::<usize>::empty().push(start),
    );
    assert(Seq::<usize>::empty().push(start)[0] == start);
}

proof fn lemma_traverse_upto_contains_root(g: GraphView, i: int, n: int)
    requires
        0 <= i < n <= g.ids.len(),
        g.ids.len() <= usize::MAX,
        g.is_root_at(i),
    ensures
        exists|k: int|
            #![auto]
            0 <= k < spec_traverse_upto(g, n).len() && spec_traverse_upto(g, n)[k] == (
            g.ids[i],
            dfs_texts(g, i as usize),
            ),
    decreases n,
{
    if i == n - 1 {
        let s = spec_traverse_upto(g, n);
        assert(s[s.len() - 1] == (g.ids[i], dfs_texts(g, i as usize)));
    } else {
        lemma_traverse_upto_contains_root(g, i, n - 1);
        let s = spec_traverse_upto(g, n - 1);
        let k = choose|k: int|
            #![trigger s[k]]
            0 <= k < s.len() && s[k] == (g.ids[i], dfs_texts(g, i as usize));
        assert(spec_traverse_upto(g, n)[k] == s[k]);
    }
}

/// Whether `p` is a chain of adjacency edges, by node index.
pub open spec fn idx_path(children: Seq<Seq<usize>>, p: Seq<usize>) -> bool {
    &&& p.len() >= 1
    &&& forall|k: int| #![trigger p[k]] 0 <= k < p.len() ==> p[k] < children.len()
    &&& forall|k: int|
        #![trigger p[k]]
        0 <= k < p.len() - 1 ==> children[p[k] as int].contains(p[k + 1])
}

/// Whether node index `x` can be reached from `root` along adjacency edges.
pub open spec fn idx_reachable(children: Seq<Seq<usize>>, root: usize, x: usize) -> bool {
    exists|p: Seq<usize>| #![auto] idx_path(children, p) && p.first() == root && p.last() == x
}

proof fn lemma_reach_self(children: Seq<Seq<usize>>, root: usize)
    requires
        root < children.len(),
    ensures
        idx_reachable(children, root, root),
{
    let p = seq![root];
    assert(p[0] == root);
    assert(idx_path(children, p) && p.first() == root && p.last() == root);
}

proof fn lemma_reach_step(children: Seq<Seq<usize>>, root: usize, v: usize, c: usize)
    requires
        idx_reachable(children, root, v),
        c < children.len(),
        v < children.len(),
        children[v as int].contains(c),
    ensures
        idx_reachable(children, root, c),
{
    let p = choose|p: Seq<usize>|
        #![auto]
        idx_path(children, p) && p.first() == root && p.last() == v;
    let p2 = p.push(c);
    assert(forall|k: int| #![trigger p2[k]] 0 <= k < p2.len() - 1 ==> p2[k] == p[k]);
    assert(p2[p2.len() - 1] == c);
    assert(idx_path(children, p2)) by {
        assert(forall|k: int|
            #![trigger p2[k]]
            0 <= k < p2.len() - 2 ==> children[p2[k] as int].contains(p2[k + 1]));
        assert(p2[p.len() - 1] == v);
        assert(children[p2[p.len() - 1] as int].contains(p2[p.len() as int]));
    }
    assert(p2.first() == root && p2.last() == c);
}

/// When every visited node's children are visited and the start is visited,
/// every node a path reaches from the start is visited.
proof fn lemma_closed_set_covers_path(children: Seq<Seq<usize>>, visited: Seq<bool>, p: Seq<
    usize,
>)
    requires
        children.len() == visited.len(),
        idx_path(children, p),
        visited[p.first() as int],
        forall|u: int, k: int|
            #![trigger children[u][k]]
            0 <= u < children.len() && visited[u] && 0 <= k < children[u].len() ==> visited[
                children[u][k] as int
            ],
    ensures
        visited[p.last() as int],
    decreases p.len(),
{
    if p.len() > 1 {
        assert(children[p[0] as int].contains(p[1]));
        let k = choose|k: int|
            0 <= k < children[p[0] as int].len() && children[p[0] as int][k] == p[1];
        assert(visited[children[p[0] as int][k] as int]);
        let p2 = p.drop_first();
        assert(forall|w: int| #![trigger p2[w]] 0 <= w < p2.len() ==> p2[w] == p[w + 1]);
        assert(idx_path(children, p2));
        lemma_closed_set_covers_path(children, visited, p2);
    }
}

proof fn lemma_contains_drop_last(s: Seq<usize>, c: usize)
    requires
        s.len() > 0,
        s.contains(c),
        s.last() != c,
    ensures
        s.drop_last().contains(c),
{
    let k = choose|k: int| 0 <= k < s.len() && s[k] == c;
    assert(k < s.len() - 1);
    assert(s.drop_last()[k] == c);
}

/// The visited set, the stack and the visit order of one running search
/// stay tied to reachability from the start: everything recorded is
/// reachable, and everything reachable is eventually recorded.
#[verifier::rlimit(100)]
proof fn lemma_dfs_rec_reachable(
    children: Seq<Seq<usize>>,
    visited: Seq<bool>,
    stack: Seq<usize>,
    acc: Seq<usize>,
    start: usize,
)
    requires
        children.len() <= usize::MAX,
        children.len() == visited.len(),
        start < visited.len(),
        forall|i: int, k: int|
            #![trigger children[i][k]]
            0 <= i < children.len() && 0 <= k < children[i].len() ==> children[i][k]
                < children.len(),
        forall|k: int| #![trigger stack[k]] 0 <= k < stack.len() ==> stack[k] < children.len(),
        forall|v: int| 0 <= v < visited.len() ==> (visited[v] == acc.contains(v as usize)),
        forall|v: int|
            0 <= v < visited.len() && visited[v] ==> idx_reachable(children, start, v as usize),
        forall|k: int|
            #![trigger stack[k]]
            0 <= k < stack.len() ==> idx_reachable(children, start, stack[k]),
        forall|u: int, k: int|
            #![trigger children[u][k]]
            0 <= u < children.len() && visited[u] && 0 <= k < children[u].len() && !visited[
                children[u][k] as int
            ] ==> stack.contains(children[u][k]),
        !visited[start as int] ==> stack.contains(start),
    ensures
        forall|x: usize|
            #![auto]
            dfs_rec(children, visited, stack, acc).contains(x) ==> (acc.contains(x)
                || idx_reachable(children, start, x)),
        forall|x: usize|
            #![auto]
            idx_reachable(children, start, x) ==> dfs_rec(children, visited, stack, acc).contains(
                x,
            ),
    decreases count_unvisited(visited), stack.len(),
{
    let n = children.len() as int;
    if stack.len() == 0 {
        // the search is done: the visited set is closed under children and
        // holds the start, so it covers everything reachable
        assert(visited[start as int]);
        assert forall|x: usize| #![auto] idx_reachable(children, start, x) implies acc.contains(
            x,
        ) by {
            let p = choose|p: Seq<usize>|
                #![auto]
                idx_path(children, p) && p.first() == start && p.last() == x;
            assert forall|u: int, k: int|
                #![trigger children[u][k]]
                0 <= u < n && visited[u] && 0 <= k < children[u].len() implies visited[children[u][k] as int] by {
                if !visited[children[u][k] as int] {
                    assert(stack.contains(children[u][k]));
                }
            }
            lemma_closed_set_covers_path(children, visited, p);
        }
    } else {
        let v = stack.last();
        let rest = stack.drop_last();
        assert(stack[stack.len() - 1] == v);
        assert(forall|k: int| #![trigger rest[k]] 0 <= k < rest.len() ==> rest[k] == stack[k]);
        if !visited[v as int] {
            let visited2 = visited.update(v as int, true);
            let stack2 = rest + children[v as int];
            let acc2 = acc.push(v);
            lemma_count_unvisited_update(visited, v as int);
            assert(idx_reachable(children, start, v));
            // every new stack entry is reachable through v
            assert(forall|k: int|
                #![trigger stack2[k]]
                0 <= k < stack2.len() ==> stack2[k] < children.len());
            assert forall|k: int| #![trigger stack2[k]] 0 <= k < stack2.len() implies
            idx_reachable(children, start, stack2[k]) by {
                if k < rest.len() {
                    assert(stack2[k] == stack[k]);
                } else {
                    assert(stack2[k] == children[v as int][k - rest.len()]);
                    assert(children[v as int].contains(stack2[k]));
                    lemma_reach_step(children, start, v, stack2[k]);
                }
            }
            // order and visited set stay in step
            assert forall|w: int| 0 <= w < n implies (visited2[w] == acc2.contains(
                w as usize,
            )) by {
                if w == v {
                    assert(acc2[acc2.len() - 1] == v);
                    assert(acc2.contains(v));
                } else {
                    if acc.contains(w as usize) {
                        let k = choose|k: int| 0 <= k < acc.len() && acc[k] == (w as usize);
                        assert(acc2[k] == (w as usize));
                        assert(acc2.contains(w as usize));
                    }
                    if acc2.contains(w as usize) {
                        let k = choose|k: int| 0 <= k < acc2.len() && acc2[k] == (w as usize);
                        assert(acc2[acc.len() as int] == v);
                        if k == acc.len() {
                            assert(false);
                        }
                        assert(acc[k] == (w as usize));
                        assert(acc.contains(w as usize));
                    }
                }
            }
            // unvisited children of visited nodes stay on the stack
            assert forall|u: int, k: int|
                #![trigger children[u][k]]
                0 <= u < n && visited2[u] && 0 <= k < children[u].len() && !visited2[children[u][k] as int] implies
            stack2.contains(children[u][k]) by {
                let c = children[u][k];
                if u == v {
                    assert(stack2[rest.len() + k] == c);
                    assert(stack2.contains(c));
                } else {
                    assert(visited[u]);
                    assert(!visited[c as int]);
                    assert(stack.contains(c));
                    assert(c != v);
                    lemma_contains_drop_last(stack, c);
                    let w = choose|w: int| 0 <= w < rest.len() && rest[w] == c;
                    assert(stack2[w] == c);
                    assert(stack2.contains(c));
                }
            }
            if !visited2[start as int] {
                assert(start != v);
                assert(stack.contains(start));
                lemma_contains_drop_last(stack, start);
                let w = choose|w: int| 0 <= w < rest.len() && rest[w] == start;
                assert(stack2[w] == start);
                assert(stack2.contains(start));
            }
            lemma_dfs_rec_reachable(children, visited2, stack2, acc2, start);
            // soundness carries back over the extra order entry
            assert forall|x: usize|
                #![auto]
                dfs_rec(children, visited, stack, acc).contains(x) implies (acc.contains(x)
                || idx_reachable(children, start, x)) by {
                if acc2.contains(x) && !acc.contains(x) {
                    let k = choose|k: int| 0 <= k < acc2.len() && acc2[k] == x;
                    assert(x == v);
                }
            }
        } else {
            // a stale stack entry: dropping it keeps every fact
            assert forall|u: int, k: int|
                #![trigger children[u][k]]
                0 <= u < n && visited[u] && 0 <= k < children[u].len() && !visited[children[u][k] as int] implies
            rest.contains(children[u][k]) by {
                let c = children[u][k];
                assert(stack.contains(c));
                assert(c != v);
                lemma_contains_drop_last(stack, c);
            }
            if !visited[start as int] {
                assert(start != v);
                lemma_contains_drop_last(stack, start);
            }
            lemma_dfs_rec_reachable(children, visited, rest, acc, start);
        }
    }
}

/// LAW: one search visits exactly the nodes reachable from its start along
/// stored edges.
pub proof fn lemma_dfs_visits_reachable(g: GraphView, start: usize)
    requires
        g.structural(),
        g.ids.len() <= usize::MAX,
        start < g.ids.len(),
    ensures
        forall|x: usize|
            #![auto]
            dfs_from(g, start).contains(x) <==> idx_reachable(g.children, start, x),
{
    let visited = spec_init_visited(g.ids.len());
    let stack = seq![start];
    let acc = Seq::<usize>::empty();
    assert(stack[0] == start);
    assert(stack.contains(start));
    lemma_reach_self(g.children, start);
    assert(forall|k: int|
        #![trigger stack[k]]
        0 <= k < stack.len() ==> idx_reachable(g.children, start, stack[k]));
    lemma_dfs_rec_reachable(g.children, visited, stack, acc, start);
    assert(dfs_from(g, start) == dfs_rec(g.children, visited, stack, acc));
    assert forall|x: usize| #![auto] dfs_from(g, start).contains(x) implies idx_reachable(
        g.children,
        start,
        x,
    ) by {
        assert(!acc.contains(x));
    }
}

/// LAW: under well-formedness, index reachability matches reachability of
/// the ids along the model's edges, so one traversal pair surfaces exactly
/// the ids reachable from its root.
#[verifier::rlimit(100)]
pub proof fn lemma_idx_reachable_matches_ids(g: GraphView, i: usize, x: usize)
    requires
        g.wf(),
        g.ids.len() <= usize::MAX,
        i < g.ids.len(),
        x < g.ids.len(),
    ensures
        idx_reachable(g.children, i, x) <==> spec_reachable(g.history, g.ids[i as int], g.ids[
            x as int
        ]),
{
    let n = g.ids.len() as int;
    if idx_reachable(g.children, i, x) {
        let p = choose|p: Seq<usize>|
            #![auto]
            idx_path(g.children, p) && p.first() == i && p.last() == x;
        let q = p.map_values(|v: usize| g.ids[v as int]);
        assert(forall|k: int| #![trigger q[k]] 0 <= k < q.len() ==> q[k] == g.ids[p[k] as int]);
        assert forall|k: int| #![trigger q[k]] 0 <= k < q.len() - 1 implies spec_is_edge(
            g.history,
            q[k],
            q[k + 1],
        ) by {
            assert(g.children[p[k] as int].contains(p[k + 1]));
        }
        assert(spec_path(g.history, q));
        assert(q.first() == g.ids[i as int] && q.last() == g.ids[x as int]);
        assert(spec_reachable(g.history, g.ids[i as int], g.ids[x as int]));
    }
    if spec_reachable(g.history, g.ids[i as int], g.ids[x as int]) {
        let q = choose|q: Seq<Seq<char>>|
            #![auto]
            spec_path(g.history, q) && q.first() == g.ids[i as int] && q.last() == g.ids[
                x as int
            ];
        // every id on the path is a node, so it has an index
        assert forall|k: int| #![trigger q[k]] 0 <= k < q.len() - 1 implies spec_is_node(
            g.history,
            q[k],
        ) && spec_is_node(g.history, q[k + 1]) by {
            assert(spec_is_edge(g.history, q[k], q[k + 1]));
            lemma_model_implications(g.history, q[k], q[k + 1]);
        }
        let p = Seq::<usize>::new(
            q.len(),
            |k: int|
                (choose|w: int| #![trigger g.ids[w]] 0 <= w < n && g.ids[w] == q[k]) as usize,
        );
        assert forall|k: int| #![trigger p[k]] 0 <= k < p.len() implies p[k] < g.children.len()
            && g.ids[p[k] as int] == q[k] by {
            if k < q.len() - 1 {
                assert(spec_is_node(g.history, q[k]));
            } else {
                assert(q[k] == g.ids[x as int]);
                assert(spec_is_node(g.history, g.ids[x as int]));
            }
            let w = choose|w: int| #![trigger g.ids[w]] 0 <= w < n && g.ids[w] == q[k];
            assert(p[k] == w as usize);
        }
        assert forall|k: int| #![trigger p[k]] 0 <= k < p.len() - 1 implies g.children[
            p[k] as int
        ].contains(p[k + 1]) by {
            assert(spec_is_edge(g.history, g.ids[p[k] as int], g.ids[p[k + 1] as int]));
        }
        assert(idx_path(g.children, p));
        assert(g.ids[p.first() as int] == g.ids[i as int]);
        assert(g.ids[p.last() as int] == g.ids[x as int]);
        assert(p.first() == i && p.last() == x);
        assert(idx_reachable(g.children, i, x));
    }
}

/// LAW: every tracked root's traversal pair stands in the output, and the
/// nodes its search visits are exactly those whose ids the root's id reaches
/// along stored edges.
pub proof fn lemma_traverse_pair_covers_reachable(g: GraphView, i: usize)
    requires
        g.wf(),
        g.ids.len() <= usize::MAX,
        i < g.ids.len(),
        g.is_root_at(i as int),
    ensures
        exists|k: int|
            #![auto]
            0 <= k < spec_traverse(g).len() && spec_traverse(g)[k] == (
            g.ids[i as int],
            dfs_texts(g, i),
            ),
        forall|x: usize|
            x < g.ids.len() ==> (dfs_from(g, i).contains(x) <==> spec_reachable(
                g.history,
                g.ids[i as int],
                g.ids[x as int],
            )),
{
    lemma_traverse_upto_contains_root(g, i as int, g.ids.len() as int);
    let s = spec_traverse_upto(g, g.ids.len() as int);
    assert(spec_traverse(g) == s);
    let k = choose|k: int|
        #![auto]
        0 <= k < s.len() && s[k] == (g.ids[i as int], dfs_texts(g, (i as int) as usize));
    assert(spec_traverse(g)[k] == (g.ids[i as int], dfs_texts(g, i)));
    lemma_dfs_visits_reachable(g, i);
    assert forall|x: usize| x < g.ids.len() implies (dfs_from(g, i).contains(x)
        <==> spec_reachable(g.history, g.ids[i as int], g.ids[x as int])) by {
        lemma_idx_reachable_matches_ids(g, i, x);
    }
}

/// LAW: for two well-formed forests built from permutations of one record
/// collection, every shared root's search visits the same set of ids: the
/// per-root reachable node sets do not depend on insertion order.
pub proof fn lemma_traversal_sets_order_independent(
    g1: GraphView,
    g2: GraphView,
    i1: usize,
    i2: usize,
)
    requires
        g1.wf(),
        g2.wf(),
        g1.ids.len() <= usize::MAX,
        g2.ids.len() <= usize::MAX,
        g1.history.to_multiset() == g2.history.to_multiset(),
        i1 < g1.ids.len(),
        i2 < g2.ids.len(),
        g1.ids[i1 as int] == g2.ids[i2 as int],
    ensures
        forall|x1: usize, x2: usize|
            x1 < g1.ids.len() && x2 < g2.ids.len() && g1.ids[x1 as int] == g2.ids[x2 as int]
                ==> (dfs_from(g1, i1).contains(x1) <==> dfs_from(g2, i2).contains(x2)),
{
    lemma_insertion_order_irrelevant(g1.history, g2.history);
    lemma_dfs_visits_reachable(g1, i1);
    lemma_dfs_visits_reachable(g2, i2);
    assert forall|x1: usize, x2: usize|
        x1 < g1.ids.len() && x2 < g2.ids.len() && g1.ids[x1 as int] == g2.ids[
        x2 as int
    ] implies (dfs_from(g1, i1).contains(x1) <==> dfs_from(g2, i2).contains(x2)) by {
        lemma_idx_reachable_matches_ids(g1, i1, x1);
        lemma_idx_reachable_matches_ids(g2, i2, x2);
        assert(spec_reachable(g1.history, g1.ids[i1 as int], g1.ids[x1 as int])
            == spec_reachable(g2.history, g2.ids[i2 as int], g2.ids[x2 as int])) by {
            assert(spec_reachable_set(g1.history, g1.ids[i1 as int]) == spec_reachable_set(
                g2.history,
                g2.ids[i2 as int],
            ));
            assert(spec_reachable_set(g1.history, g1.ids[i1 as int]).contains(g1.ids[x1 as int])
                == spec_reachable(g1.history, g1.ids[i1 as int], g1.ids[x1 as int]));
            assert(spec_reachable_set(g2.history, g2.ids[i2 as int]).contains(g2.ids[x2 as int])
                == spec_reachable(g2.history, g2.ids[i2 as int], g2.ids[x2 as int]));
        }
    }
}

/// LAW: inserting a record whose parent id was never seen and differs from
/// its own id synthesizes the placeholder parent — a root with empty page
/// text — adds the one parent-to-child edge, and stores the record itself
/// under its own id.
pub proof fn lemma_insert_orphan(h: Seq<PostView>, p: PostView)
    requires
        !spec_is_node(h, p.parent_post_id),
        p.parent_post_id != p.id,
    ensures
        spec_is_root(h.push(p), p.parent_post_id),
        !spec_is_standalone(h.push(p), p.parent_post_id),
        spec_payload(h.push(p), p.parent_post_id) == PostView::placeholder(p.parent_post_id),
        spec_is_edge(h.push(p), p.parent_post_id, p.id),
        spec_payload(h.push(p), p.id) == p,
{
    lemma_push_model(h, p, p.parent_post_id);
    lemma_push_payload(h, p, p.parent_post_id);
    lemma_push_payload(h, p, p.id);
    lemma_push_edge(h, p, p.parent_post_id, p.id);
}

/// Whether every record in the history carries its own distinct id.
pub open spec fn distinct_ids(h: Seq<PostView>) -> bool {
    forall|k1: int, k2: int|
        #![trigger h[k1], h[k2]]
        0 <= k1 < k2 < h.len() ==> h[k1].id != h[k2].id
}

/// With pairwise-distinct ids, the one record carrying an id is its last
/// standalone payload.
proof fn lemma_last_standalone_unique(h: Seq<PostView>, id: Seq<char>, k: int)
    requires
        distinct_ids(h),
        0 <= k < h.len(),
        h[k].id == id,
    ensures
        spec_last_standalone(h, id) == h[k],
    decreases h.len(),
{
    if k == h.len() - 1 {
        assert(h.last() == h[k]);
    } else {
        assert(h.last().id != id);
        let hd = h.drop_last();
        assert(forall|w: int| #![trigger hd[w]] 0 <= w < hd.len() ==> hd[w] == h[w]);
        lemma_last_standalone_unique(hd, id, k);
    }
}

/// LAW: when every record carries a distinct id — the input format's stated
/// shape — the payload each id ends with does not depend on insertion order
/// either.
pub proof fn lemma_payloads_order_independent(h1: Seq<PostView>, h2: Seq<PostView>, id: Seq<
    char,
>)
    requires
        h1.to_multiset() == h2.to_multiset(),
        distinct_ids(h1),
    ensures
        spec_payload(h1, id) == spec_payload(h2, id),
{
    broadcast use vstd::seq_lib::group_to_multiset_ensures;

    lemma_multiset_eq_same_members(h1, h2);
    lemma_same_members_same_model(h1, h2);
    // distinct ids carry over: records sharing an id would be one record
    // held twice, which distinctness in the first order rules out
    assert(h1.no_duplicates()) by {
        assert forall|k1: int, k2: int| 0 <= k1 < h1.len() && 0 <= k2 < h1.len() && k1
            != k2 implies h1[k1] != h1[k2] by {
            if k1 < k2 {
                assert(h1[k1].id != h1[k2].id);
            } else {
                assert(h1[k2].id != h1[k1].id);
            }
        }
    }
    h1.lemma_multiset_has_no_duplicates();
    h2.lemma_multiset_has_no_duplicates_conv();
    assert forall|k1: int, k2: int|
        #![trigger h2[k1], h2[k2]]
        0 <= k1 < k2 < h2.len() implies h2[k1].id != h2[k2].id by {
        if h2[k1].id == h2[k2].id {
            if h2[k1] == h2[k2] {
                // one record at two places: its count would be two
                let witness = h2[k1];
                assert(h2.remove(k2).to_multiset() =~= h2.to_multiset().remove(h2[k2]));
                assert(h2.remove(k2)[k1] == witness);
                assert(h2.remove(k2).contains(witness));
                assert(h2.remove(k2).to_multiset().count(witness) > 0);
                assert(h2.to_multiset().count(witness) >= 2);
            } else {
                // two records sharing an id: both sit in the first order
                assert(h2.contains(h2[k1]));
                assert(h2.contains(h2[k2]));
                assert(h1.contains(h2[k1]));
                assert(h1.contains(h2[k2]));
                let j1 = choose|j: int| #![auto] 0 <= j < h1.len() && h1[j] == h2[k1];
                let j2 = choose|j: int| #![auto] 0 <= j < h1.len() && h1[j] == h2[k2];
                assert(j1 != j2);
                if j1 < j2 {
                    assert(h1[j1].id != h1[j2].id);
                } else {
                    assert(h1[j2].id != h1[j1].id);
                }
            }
        }
    }
    if spec_is_standalone(h1, id) {
        let k1 = choose_standalone(h1, id);
        let k2 = choose_standalone(h2, id);
        lemma_last_standalone_unique(h1, id, k1);
        lemma_last_standalone_unique(h2, id, k2);
        assert(h1.contains(h1[k1]));
        assert(h2.contains(h1[k1]));
        let m = choose|m: int| #![auto] 0 <= m < h2.len() && h2[m] == h1[k1];
        lemma_last_standalone_unique(h2, id, m);
    }
}

/// LAW: an id referenced as a parent but never inserted as a record of its
/// own has exactly one node, carries the synthesized placeholder payload
/// with empty text, is a root, and traversal surfaces it: the output holds a
/// pair for it whose first text is its own empty page text.
pub proof fn lemma_placeholder_root(g: GraphView, id: Seq<char>)
    requires
        g.wf(),
        g.ids.len() <= usize::MAX,
        spec_is_parent_ref(g.history, id),
        !spec_is_standalone(g.history, id),
    ensures
        spec_is_root(g.history, id),
        spec_payload(g.history, id) == PostView::placeholder(id),
        spec_payload(g.history, id).pagetext == Seq::<char>::empty(),
        exists|i: int| #![trigger g.ids[i]] 0 <= i < g.ids.len() && g.ids[i] == id,
        forall|i: int, j: int|
            #![trigger g.ids[i], g.ids[j]]
            0 <= i < g.ids.len() && 0 <= j < g.ids.len() && g.ids[i] == id && g.ids[j] == id
                ==> i == j,
        exists|k: int|
            #![auto]
            0 <= k < spec_traverse(g).len() && spec_traverse(g)[k].0 == id && spec_traverse(
                g,
            )[k].1.len() >= 1 && spec_traverse(g)[k].1[0] == Seq::<char>::empty(),
{
    assert(spec_is_node(g.history, id));
    let i = choose|i: int| #![trigger g.ids[i]] 0 <= i < g.ids.len() && g.ids[i] == id;
    assert(g.parent_ref[i] && !g.standalone[i]);
    assert(g.is_root_at(i));
    lemma_traverse_upto_contains_root(g, i, g.ids.len() as int);
    lemma_dfs_starts_at_root(g, i as usize);
    let k = choose|k: int|
        #![auto]
        0 <= k < spec_traverse(g).len() && spec_traverse(g)[k] == (
        g.ids[i],
        dfs_texts(g, i as usize),
        );
    assert(g.payloads[i] == spec_payload(g.history, g.ids[i]));
    assert(dfs_from(g, i as usize)[0] == i as usize);
    assert(dfs_texts(g, i as usize)[0] == g.payloads[dfs_from(g, i as usize)[0] as int].pagetext);
    assert(g.payloads[i].pagetext == Seq::<char>::empty());
    assert(spec_traverse(g)[k].1[0] == Seq::<char>::empty());
}

} // verus!
