//! The dependency graph: files, the edges "file imports file", and the queries
//! on them: neighbours, reachability, cycles, isolated files and impact.
use vstd::prelude::*;
use std::collections::HashSet;
use crate::types::{FileId, FileNode};

verus! {

broadcast use vstd::std_specs::hash::group_hash_axioms;

/// Files and their import edges. An edge `(a, b)` says that `a` depends on `b`;
/// its ends need not be files of the graph. Files keep the order in which they
/// were first added, edges the order in which they were added.
#[derive(Debug, Clone)]
pub struct DependencyGraph {
    pub nodes: Vec<FileNode>,
    pub edges: Vec<(FileId, FileId)>,
}

impl DependencyGraph {
    /// No two files share an id and no edge is listed twice.
    pub open spec fn wf(&self) -> bool {
        &&& forall|i: int, j: int|
            0 <= i < self.nodes@.len() && 0 <= j < self.nodes@.len() && i != j
                ==> #[trigger] self.nodes@[i].id != #[trigger] self.nodes@[j].id
        &&& self.edges@.no_duplicates()
    }

    pub open spec fn has_node(&self, id: FileId) -> bool {
        exists|i: int| 0 <= i < self.nodes@.len() && #[trigger] self.nodes@[i].id == id
    }

    /// Position of the file with `id`, or -1.
    pub open spec fn node_index(&self, id: FileId) -> int {
        if self.has_node(id) {
            choose|i: int| 0 <= i < self.nodes@.len() && #[trigger] self.nodes@[i].id == id
        } else {
            -1
        }
    }

    pub open spec fn has_edge(&self, a: FileId, b: FileId) -> bool {
        self.edges@.contains((a, b))
    }

    pub fn new() -> (g: DependencyGraph)
        ensures
            g.wf(),
            g.nodes@.len() == 0,
            g.edges@.len() == 0,
    {
        DependencyGraph { nodes: Vec::new(), edges: Vec::new() }
    }

    fn find_node(&self, id: FileId) -> (r: Option<usize>)
        requires
            self.wf(),
        ensures
            match r {
                Some(i) => i == self.node_index(id) && 0 <= i < self.nodes@.len(),
                None => !self.has_node(id) && self.node_index(id) == -1,
            },
    {
        let mut i: usize = 0;
        while i < self.nodes.len()
            invariant
                self.wf(),
                0 <= i <= self.nodes@.len(),
                forall|j: int| 0 <= j < i ==> self.nodes@[j].id != id,
            decreases self.nodes@.len() - i,
        {
            if self.nodes[i].id == id {
                assert(self.has_node(id));
                proof {
                    let c = choose|c: int| 0 <= c < self.nodes@.len() && #[trigger] self.nodes@[c].id == id;
                    if c != i {
                        assert(self.nodes@[c].id != self.nodes@[i as int].id);
                    }
                }
                return Some(i);
            }
            i = i + 1;
        }
        None
    }

    /// The file with `id`, if the graph has one.
    pub fn node(&self, id: FileId) -> (r: Option<&FileNode>)
        requires
            self.wf(),
        ensures
            match r {
                Some(n) => self.has_node(id) && *n == self.nodes@[self.node_index(id)],
                None => !self.has_node(id),
            },
    {
        match self.find_node(id) {
            Some(i) => Some(&self.nodes[i]),
            None => None,
        }
    }

    /// Adds a file, or replaces the file with the same id in place; returns its id.
    pub fn add_node(&mut self, node: FileNode) -> (id: FileId)
        requires
            old(self).wf(),
        ensures
            final(self).wf(),
            id == node.id,
            final(self).edges@ == old(self).edges@,
            old(self).has_node(node.id) ==> final(self).nodes@ == old(self).nodes@.update(
                old(self).node_index(node.id),
                node,
            ),
            !old(self).has_node(node.id) ==> final(self).nodes@ == old(self).nodes@.push(node),
    {
        let id = node.id;
        match self.find_node(id) {
            Some(i) => {
                self.nodes.set(i, node);
            },
            None => {
                self.nodes.push(node);
            },
        }
        id
    }

    /// Records that `from` depends on `to`; nothing changes when it already does.
    pub fn add_dependency(&mut self, from: FileId, to: FileId)
        requires
            old(self).wf(),
        ensures
            final(self).wf(),
            final(self).nodes@ == old(self).nodes@,
            old(self).has_edge(from, to) ==> final(self).edges@ == old(self).edges@,
            !old(self).has_edge(from, to) ==> final(self).edges@ == old(self).edges@.push(
                (from, to),
            ),
    {
        let mut i: usize = 0;
        while i < self.edges.len()
            invariant
                self.wf(),
                self.nodes@ == old(self).nodes@,
                self.edges@ == old(self).edges@,
                0 <= i <= self.edges@.len(),
                forall|j: int| 0 <= j < i ==> self.edges@[j] != (from, to),
            decreases self.edges@.len() - i,
        {
            let (a, b) = self.edges[i];
            if a == from && b == to {
                assert(self.edges@[i as int] == (from, to));
                return;
            }
            i = i + 1;
        }
        let ghost old_edges = self.edges@;
        self.edges.push((from, to));
        assert forall|x: int, y: int|
            0 <= x < self.edges@.len() && 0 <= y < self.edges@.len() && x != y implies self.edges@[x]
            != self.edges@[y] by {
            if x < old_edges.len() && y < old_edges.len() {
                assert(old_edges[x] != old_edges[y]);
            }
        }
    }

    /// Number of files.
    pub fn file_count(&self) -> (r: usize)
        ensures
            r == self.nodes@.len(),
    {
        self.nodes.len()
    }

    /// Number of edges.
    pub fn edge_count(&self) -> (r: usize)
        ensures
            r == self.edges@.len(),
    {
        self.edges.len()
    }
}

} // verus!

verus! {

/// The ends of the edges leaving `a`, in edge order.
pub open spec fn targets_of(es: Seq<(FileId, FileId)>, a: FileId) -> Seq<FileId>
    decreases es.len(),
{
    if es.len() == 0 {
        seq![]
    } else if es.last().0 == a {
        targets_of(es.drop_last(), a).push(es.last().1)
    } else {
        targets_of(es.drop_last(), a)
    }
}

/// The starts of the edges entering `b`, in edge order.
pub open spec fn sources_of(es: Seq<(FileId, FileId)>, b: FileId) -> Seq<FileId>
    decreases es.len(),
{
    if es.len() == 0 {
        seq![]
    } else if es.last().1 == b {
        sources_of(es.drop_last(), b).push(es.last().0)
    } else {
        sources_of(es.drop_last(), b)
    }
}

pub open spec fn deref_nodes(v: Seq<&FileNode>) -> Seq<FileNode> {
    v.map_values(|n: &FileNode| *n)
}

impl DependencyGraph {
    /// The files among `ids`, in order; ids of no file are skipped.
    pub open spec fn known(&self, ids: Seq<FileId>) -> Seq<FileNode>
        decreases ids.len(),
    {
        if ids.len() == 0 {
            seq![]
        } else if self.has_node(ids.last()) {
            self.known(ids.drop_last()).push(self.nodes@[self.node_index(ids.last())])
        } else {
            self.known(ids.drop_last())
        }
    }

    /// A file with no edge in or out: no dependencies and no dependents.
    pub open spec fn is_isolated(&self, n: FileNode) -> bool {
        &&& forall|b: FileId| !self.has_edge(n.id, b)
        &&& forall|a: FileId| !self.has_edge(a, n.id)
    }

    pub open spec fn isolated_ids(&self, ns: Seq<FileNode>) -> Seq<FileId>
        decreases ns.len(),
    {
        if ns.len() == 0 {
            seq![]
        } else if self.is_isolated(ns.last()) {
            self.isolated_ids(ns.drop_last()).push(ns.last().id)
        } else {
            self.isolated_ids(ns.drop_last())
        }
    }

    /// Collects the files of the ends (or starts) of edges matching `id`.
    fn neighbours(&self, id: FileId, forward: bool) -> (r: Vec<&FileNode>)
        requires
            self.wf(),
        ensures
            forward ==> deref_nodes(r@) == self.known(targets_of(self.edges@, id)),
            !forward ==> deref_nodes(r@) == self.known(sources_of(self.edges@, id)),
    {
        let mut out: Vec<&FileNode> = Vec::new();
        let mut k: usize = 0;
        while k < self.edges.len()
            invariant
                self.wf(),
                0 <= k <= self.edges@.len(),
                forward ==> deref_nodes(out@) == self.known(
                    targets_of(self.edges@.subrange(0, k as int), id),
                ),
                !forward ==> deref_nodes(out@) == self.known(
                    sources_of(self.edges@.subrange(0, k as int), id),
                ),
            decreases self.edges@.len() - k,
        {
            let ghost pre = self.edges@.subrange(0, k as int);
            let ghost old_out = deref_nodes(out@);
            let (a, b) = self.edges[k];
            proof {
                assert(self.edges@.subrange(0, k + 1).drop_last() =~= pre);
                assert(self.edges@.subrange(0, k + 1).last() == (a, b));
            }
            let other = if forward { b } else { a };
            let matches = if forward { a == id } else { b == id };
            let ghost sel = if forward { targets_of(pre, id) } else { sources_of(pre, id) };
            let ghost now = if forward {
                targets_of(self.edges@.subrange(0, k + 1), id)
            } else {
                sources_of(self.edges@.subrange(0, k + 1), id)
            };
            proof {
                if matches {
                    assert(now == sel.push(other));
                    assert(now.drop_last() =~= sel);
                } else {
                    assert(now == sel);
                }
            }
            if matches {
                match self.node(other) {
                    Some(n) => {
                        out.push(n);
                        assert(deref_nodes(out@) =~= old_out.push(*n));
                    },
                    None => {},
                }
            }
            k = k + 1;
        }
        assert(self.edges@.subrange(0, k as int) =~= self.edges@);
        out
    }

    /// The files that `id` depends on, in edge order.
    pub fn dependencies(&self, id: FileId) -> (r: Vec<&FileNode>)
        requires
            self.wf(),
        ensures
            deref_nodes(r@) == self.known(targets_of(self.edges@, id)),
    {
        self.neighbours(id, true)
    }

    /// The files that depend on `id`, in edge order.
    pub fn dependents(&self, id: FileId) -> (r: Vec<&FileNode>)
        requires
            self.wf(),
        ensures
            deref_nodes(r@) == self.known(sources_of(self.edges@, id)),
    {
        self.neighbours(id, false)
    }

    /// Does some edge start (or end) at `id`?
    fn touches(&self, id: FileId, forward: bool) -> (r: bool)
        ensures
            forward ==> r == exists|b: FileId| self.has_edge(id, b),
            !forward ==> r == exists|a: FileId| self.has_edge(a, id),
    {
        let mut k: usize = 0;
        while k < self.edges.len()
            invariant
                0 <= k <= self.edges@.len(),
                forward ==> forall|j: int| 0 <= j < k ==> self.edges@[j].0 != id,
                !forward ==> forall|j: int| 0 <= j < k ==> self.edges@[j].1 != id,
            decreases self.edges@.len() - k,
        {
            let (a, b) = self.edges[k];
            if forward && a == id {
                assert(self.has_edge(id, b)) by {
                    assert(self.edges@[k as int] == (id, b));
                }
                return true;
            }
            if !forward && b == id {
                assert(self.has_edge(a, id)) by {
                    assert(self.edges@[k as int] == (a, id));
                }
                return true;
            }
            k = k + 1;
        }
        if forward {
            assert forall|b: FileId| !self.has_edge(id, b) by {
                if self.has_edge(id, b) {
                    let j = choose|j: int| 0 <= j < self.edges@.len() && self.edges@[j] == (id, b);
                    assert(self.edges@[j].0 == id);
                }
            }
        } else {
            assert forall|a: FileId| !self.has_edge(a, id) by {
                if self.has_edge(a, id) {
                    let j = choose|j: int| 0 <= j < self.edges@.len() && self.edges@[j] == (a, id);
                    assert(self.edges@[j].1 == id);
                }
            }
        }
        false
    }

    /// The files with no dependencies and no dependents, in file order.
    pub fn isolated_nodes(&self) -> (r: Vec<FileId>)
        requires
            self.wf(),
        ensures
            r@ == self.isolated_ids(self.nodes@),
    {
        let mut out: Vec<FileId> = Vec::new();
        let mut k: usize = 0;
        while k < self.nodes.len()
            invariant
                0 <= k <= self.nodes@.len(),
                out@ == self.isolated_ids(self.nodes@.subrange(0, k as int)),
            decreases self.nodes@.len() - k,
        {
            let ghost pre = self.nodes@.subrange(0, k as int);
            proof {
                assert(self.nodes@.subrange(0, k + 1).drop_last() =~= pre);
            }
            let n = &self.nodes[k];
            if !self.touches(n.id, true) && !self.touches(n.id, false) {
                out.push(n.id);
            }
            k = k + 1;
        }
        assert(self.nodes@.subrange(0, k as int) =~= self.nodes@);
        out
    }
}

} // verus!

verus! {

impl DependencyGraph {
    /// The edge from `p[i]` to `p[i + 1]` exists.
    pub open spec fn walk_step(&self, p: Seq<FileId>, i: int) -> bool {
        self.has_edge(p[i], p[i + 1])
    }

    /// `p` follows edges: every element has an edge to the next.
    pub open spec fn is_walk(&self, p: Seq<FileId>) -> bool {
        p.len() >= 1 && forall|i: int| 0 <= i < p.len() - 1 ==> #[trigger] self.walk_step(p, i)
    }

    /// Following zero or more edges from `a` leads to `b`.
    pub open spec fn reaches(&self, a: FileId, b: FileId) -> bool {
        exists|p: Seq<FileId>| self.is_walk(p) && p[0] == a && p.last() == b
    }

    /// Everything `id` depends on directly or indirectly, `id` itself left out.
    pub open spec fn dependency_closure(&self, id: FileId) -> Set<FileId> {
        Set::new(|v: FileId| v != id && self.reaches(id, v))
    }

    /// Everything that depends on `id` directly or indirectly, `id` itself left out.
    pub open spec fn dependent_closure(&self, id: FileId) -> Set<FileId> {
        Set::new(|v: FileId| v != id && self.reaches(v, id))
    }

    pub open spec fn step(&self, forward: bool, a: FileId, b: FileId) -> bool {
        if forward {
            self.has_edge(a, b)
        } else {
            self.has_edge(b, a)
        }
    }

    pub open spec fn reach_dir(&self, forward: bool, a: FileId, b: FileId) -> bool {
        if forward {
            self.reaches(a, b)
        } else {
            self.reaches(b, a)
        }
    }

    /// Every id that ends an edge, and `start`.
    pub open spec fn universe(&self, start: FileId) -> Set<FileId> {
        (self.edges@.map_values(|e: (FileId, FileId)| e.0) + self.edges@.map_values(
            |e: (FileId, FileId)| e.1,
        )).to_set().insert(start)
    }

    pub proof fn lemma_universe(&self, start: FileId)
        ensures
            self.universe(start).finite(),
            self.universe(start).contains(start),
            forall|a: FileId, b: FileId|
                #[trigger] self.has_edge(a, b) ==> self.universe(start).contains(a)
                    && self.universe(start).contains(b),
    {
        let s = self.edges@.map_values(|e: (FileId, FileId)| e.0) + self.edges@.map_values(
            |e: (FileId, FileId)| e.1,
        );
        vstd::seq_lib::seq_to_set_is_finite(s);
        assert forall|a: FileId, b: FileId| #[trigger] self.has_edge(a, b) implies self.universe(
            start,
        ).contains(a) && self.universe(start).contains(b) by {
            let j = choose|j: int| 0 <= j < self.edges@.len() && self.edges@[j] == (a, b);
            assert(s[j] == a);
            assert(s[self.edges@.len() + j] == b);
            assert(s.contains(a));
            assert(s.contains(b));
        }
    }

    proof fn lemma_walk_one(&self, a: FileId)
        ensures
            self.reaches(a, a),
    {
        let p = seq![a];
        assert(self.is_walk(p) && p[0] == a && p.last() == a);
    }

    /// A walk can be extended by one step in either direction.
    proof fn lemma_reach_extend(&self, forward: bool, s: FileId, u: FileId, v: FileId)
        requires
            self.reach_dir(forward, s, u),
            self.step(forward, u, v),
        ensures
            self.reach_dir(forward, s, v),
    {
        if forward {
            let p = choose|p: Seq<FileId>| self.is_walk(p) && p[0] == s && p.last() == u;
            let q = p.push(v);
            assert forall|i: int| 0 <= i < q.len() - 1 implies #[trigger] self.walk_step(q, i) by {
                if i < p.len() - 1 {
                    assert(self.walk_step(p, i));
                }
            }
            assert(self.is_walk(q) && q[0] == s && q.last() == v);
        } else {
            let p = choose|p: Seq<FileId>| self.is_walk(p) && p[0] == u && p.last() == s;
            let q = seq![v] + p;
            assert forall|i: int| 0 <= i < q.len() - 1 implies #[trigger] self.walk_step(q, i) by {
                if i > 0 {
                    assert(self.walk_step(p, i - 1));
                }
            }
            assert(self.is_walk(q) && q[0] == v && q.last() == s);
        }
    }

    proof fn lemma_closed_walk_fwd(&self, set: Set<FileId>, p: Seq<FileId>, i: int)
        requires
            self.is_walk(p),
            0 <= i < p.len(),
            set.contains(p[0]),
            forall|u: FileId, v: FileId| set.contains(u) && #[trigger] self.step(true, u, v) ==> set.contains(v),
        ensures
            set.contains(p[i]),
        decreases i,
    {
        if i > 0 {
            self.lemma_closed_walk_fwd(set, p, i - 1);
            assert(self.walk_step(p, i - 1));
            assert(self.step(true, p[i - 1], p[i]));
        }
    }

    proof fn lemma_closed_walk_back(&self, set: Set<FileId>, p: Seq<FileId>, i: int)
        requires
            self.is_walk(p),
            0 <= i < p.len(),
            set.contains(p.last()),
            forall|u: FileId, v: FileId| set.contains(u) && #[trigger] self.step(false, u, v) ==> set.contains(v),
        ensures
            set.contains(p[i]),
        decreases p.len() - i,
    {
        if i < p.len() - 1 {
            self.lemma_closed_walk_back(set, p, i + 1);
            assert(self.walk_step(p, i));
            assert(self.step(false, p[i + 1], p[i]));
        }
    }

    /// A set that holds `a` and is closed under steps holds all that `a` reaches.
    proof fn lemma_closed_holds_reach(&self, forward: bool, set: Set<FileId>, a: FileId, b: FileId)
        requires
            set.contains(a),
            forall|u: FileId, v: FileId| set.contains(u) && #[trigger] self.step(forward, u, v) ==> set.contains(v),
            self.reach_dir(forward, a, b),
        ensures
            set.contains(b),
    {
        if forward {
            let p = choose|p: Seq<FileId>| self.is_walk(p) && p[0] == a && p.last() == b;
            self.lemma_closed_walk_fwd(set, p, p.len() - 1);
        } else {
            let p = choose|p: Seq<FileId>| self.is_walk(p) && p[0] == b && p.last() == a;
            self.lemma_closed_walk_back(set, p, 0);
        }
    }

    /// All ids reached from `start` (forwards along edges, or backwards), `start` left out.
    fn closure(&self, start: FileId, forward: bool) -> (r: HashSet<FileId>)
        requires
            self.wf(),
        ensures
            r@ == Set::new(|v: FileId| v != start && self.reach_dir(forward, start, v)),
    {
        let ghost u = self.universe(start);
        proof {
            self.lemma_universe(start);
            self.lemma_walk_one(start);
        }
        let mut visited: HashSet<FileId> = HashSet::new();
        let mut stack: Vec<FileId> = Vec::new();
        stack.push(start);
        assert(stack@[0] == start);
        while stack.len() > 0
            invariant
                self.wf(),
                u == self.universe(start),
                u.finite(),
                forall|a: FileId, b: FileId| #[trigger] self.has_edge(a, b) ==> u.contains(a) && u.contains(b),
                visited@.subset_of(u),
                forall|i: int| 0 <= i < stack@.len() ==> u.contains(#[trigger] stack@[i]),
                forall|v: FileId| visited@.contains(v) ==> self.reach_dir(forward, start, v),
                forall|i: int| 0 <= i < stack@.len() ==> self.reach_dir(forward, start, #[trigger] stack@[i]),
                visited@.contains(start) || stack@.contains(start),
                forall|x: FileId, y: FileId|
                    visited@.contains(x) && #[trigger] self.step(forward, x, y) ==> visited@.contains(y) || stack@.contains(y),
            decreases u.len() - visited@.len(), stack@.len(),
        {
            let ghost old_stack = stack@;
            let ghost old_visited = visited@;
            let cur = stack.pop().unwrap();
            assert(old_stack == stack@.push(cur));
            assert(old_stack[old_stack.len() - 1] == cur);
            if visited.contains(&cur) {
                assert forall|x: FileId, y: FileId|
                    visited@.contains(x) && #[trigger] self.step(forward, x, y) implies visited@.contains(y) || stack@.contains(y) by {
                    if !visited@.contains(y) {
                        assert(old_stack.contains(y));
                        let j = choose|j: int| 0 <= j < old_stack.len() && old_stack[j] == y;
                        if j < stack@.len() {
                            assert(stack@[j] == y);
                        }
                    }
                }
                assert forall|i: int| 0 <= i < stack@.len() implies self.reach_dir(forward, start, #[trigger] stack@[i]) by {
                    assert(stack@[i] == old_stack[i]);
                }
                continue;
            }
            visited.insert(cur);
            proof {
                vstd::set_lib::lemma_len_subset(old_visited, u);
                assert(u.contains(cur));
                vstd::set_lib::lemma_len_subset(visited@, u);
            }
            let ghost base_stack = stack@;
            let mut k: usize = 0;
            while k < self.edges.len()
                invariant
                    self.wf(),
                    0 <= k <= self.edges@.len(),
                    u == self.universe(start),
                    forall|a: FileId, b: FileId| #[trigger] self.has_edge(a, b) ==> u.contains(a) && u.contains(b),
                    self.reach_dir(forward, start, cur),
                    stack@.len() >= base_stack.len(),
                    forall|i: int| 0 <= i < base_stack.len() ==> stack@[i] == base_stack[i],
                    forall|i: int| 0 <= i < stack@.len() ==> u.contains(#[trigger] stack@[i]),
                    forall|i: int| 0 <= i < stack@.len() ==> self.reach_dir(forward, start, #[trigger] stack@[i]),
                    forall|j: int|
                        0 <= j < k ==> (forward && #[trigger] self.edges@[j].0 == cur ==> stack@.contains(
                            self.edges@[j].1,
                        )) && (!forward && self.edges@[j].1 == cur ==> stack@.contains(
                            self.edges@[j].0,
                        )),
                decreases self.edges@.len() - k,
            {
                let (a, b) = self.edges[k];
                let ghost before = stack@;
                assert(self.has_edge(a, b)) by {
                    assert(self.edges@[k as int] == (a, b));
                }
                if forward && a == cur {
                    stack.push(b);
                    proof {
                        self.lemma_reach_extend(forward, start, cur, b);
                    }
                } else if !forward && b == cur {
                    stack.push(a);
                    proof {
                        self.lemma_reach_extend(forward, start, cur, a);
                    }
                }
                proof {
                    assert forall|j: int|
                        0 <= j < k + 1 implies (forward && #[trigger] self.edges@[j].0 == cur
                        ==> stack@.contains(self.edges@[j].1)) && (!forward && self.edges@[j].1 == cur
                        ==> stack@.contains(self.edges@[j].0)) by {
                        if j < k {
                            if forward && self.edges@[j].0 == cur {
                                let w = choose|w: int| 0 <= w < before.len() && before[w] == self.edges@[j].1;
                                assert(stack@[w] == before[w]);
                            }
                            if !forward && self.edges@[j].1 == cur {
                                let w = choose|w: int| 0 <= w < before.len() && before[w] == self.edges@[j].0;
                                assert(stack@[w] == before[w]);
                            }
                        } else {
                            if forward && a == cur {
                                assert(stack@[stack@.len() - 1] == b);
                            }
                            if !forward && b == cur {
                                assert(stack@[stack@.len() - 1] == a);
                            }
                        }
                    }
                }
                k = k + 1;
            }
            proof {
                assert forall|x: FileId, y: FileId|
                    visited@.contains(x) && #[trigger] self.step(forward, x, y) implies visited@.contains(y) || stack@.contains(y) by {
                    if x == cur {
                        if forward {
                            assert(self.edges@.contains((x, y)));
                            let j = choose|j: int| 0 <= j < self.edges@.len() && self.edges@[j] == (x, y);
                            assert(self.edges@[j].0 == cur);
                            assert(stack@.contains(self.edges@[j].1));
                        } else {
                            assert(self.edges@.contains((y, x)));
                            let j = choose|j: int| 0 <= j < self.edges@.len() && self.edges@[j] == (y, x);
                            assert(self.edges@[j].1 == cur);
                            assert(stack@.contains(self.edges@[j].0));
                        }
                    } else {
                        assert(old_visited.contains(x));
                        assert(old_visited.contains(y) || old_stack.contains(y));
                        if !visited@.contains(y) {
                            assert(y != cur);
                            assert(old_stack.contains(y));
                            let j = choose|j: int| 0 <= j < old_stack.len() && old_stack[j] == y;
                            assert(j < base_stack.len());
                            assert(base_stack[j] == y);
                            assert(stack@[j] == y);
                        }
                    }
                }
                if !visited@.contains(start) {
                    let j = choose|j: int| 0 <= j < old_stack.len() && old_stack[j] == start;
                    assert(stack@[j] == start);
                }
            }
        }
        proof {
            assert forall|u2: FileId, v: FileId| visited@.contains(u2) && #[trigger] self.step(forward, u2, v) implies visited@.contains(v) by {
                if !visited@.contains(v) {
                    assert(stack@.contains(v));
                }
            }
            assert forall|v: FileId| v != start && self.reach_dir(forward, start, v) implies visited@.contains(v) by {
                self.lemma_closed_holds_reach(forward, visited@, start, v);
            }
        }
        visited.remove(&start);
        assert(visited@ =~= Set::new(|v: FileId| v != start && self.reach_dir(forward, start, v)));
        visited
    }

    /// Everything `id` depends on, directly or through other files; `id` itself is left out.
    pub fn transitive_dependencies(&self, id: FileId) -> (r: HashSet<FileId>)
        requires
            self.wf(),
        ensures
            r@ == self.dependency_closure(id),
    {
        let r = self.closure(id, true);
        assert(r@ =~= self.dependency_closure(id));
        r
    }

    /// Everything that depends on `id`, directly or through other files; `id` itself is left out.
    pub fn transitive_dependents(&self, id: FileId) -> (r: HashSet<FileId>)
        requires
            self.wf(),
        ensures
            r@ == self.dependent_closure(id),
    {
        let r = self.closure(id, false);
        assert(r@ =~= self.dependent_closure(id));
        r
    }
}

} // verus!

verus! {

/// The element after position `i` going round `c`: the next one, or the first after the last.
pub open spec fn next_in(c: Seq<FileId>, i: int) -> FileId {
    if i + 1 < c.len() {
        c[i + 1]
    } else {
        c[0]
    }
}

/// Some cycle of `cs` starts at `v` and ends at `u`: the edge `(u, v)` closes it.
pub open spec fn closed_by(cs: Seq<Seq<FileId>>, u: FileId, v: FileId) -> bool {
    exists|k: int| 0 <= k < cs.len() && (#[trigger] cs[k]).len() > 0 && cs[k][0] == v && cs[k].last() == u
}

/// No two cycles of `cs` start at the same vertex and end at the same vertex:
/// each closing edge `(last, first)` closes one cycle only.
pub open spec fn closing_edges_distinct(cs: Seq<Seq<FileId>>) -> bool {
    forall|k1: int, k2: int|
        0 <= k1 < cs.len() && 0 <= k2 < cs.len() && k1 != k2 ==> (#[trigger] cs[k1])[0] != (
        #[trigger] cs[k2])[0] || cs[k1].last() != cs[k2].last()
}

/// A cycle closed by an edge in `cs` is closed by it in any extension of `cs`.
pub proof fn lemma_closed_by_grows(cs: Seq<Seq<FileId>>, more: Seq<Seq<FileId>>, u: FileId, v: FileId)
    requires
        cs.len() <= more.len(),
        more.subrange(0, cs.len() as int) == cs,
        closed_by(cs, u, v),
    ensures
        closed_by(more, u, v),
{
    let k = choose|k: int| 0 <= k < cs.len() && (#[trigger] cs[k]).len() > 0 && cs[k][0] == v && cs[k].last() == u;
    assert(more[k] == more.subrange(0, cs.len() as int)[k]);
}

impl DependencyGraph {
    /// `c` is a closed walk: a walk with an edge from its last element back to its first.
    pub open spec fn is_cycle(&self, c: Seq<FileId>) -> bool {
        self.is_walk(c) && self.has_edge(c.last(), c[0])
    }

    /// Some file reaches `v`.
    pub open spec fn from_files(&self, v: FileId) -> bool {
        exists|i: int| 0 <= i < self.nodes@.len() && self.reaches(#[trigger] self.nodes@[i].id, v)
    }

    /// Some cycle passes through a vertex that a file reaches.
    pub open spec fn has_reachable_cycle(&self) -> bool {
        exists|c: Seq<FileId>| #[trigger] self.is_cycle(c) && self.from_files(c[0])
    }

    /// A reported cycle: closed, without repeats, reached from a file.
    pub open spec fn good_cycle(&self, c: Seq<FileId>) -> bool {
        self.is_cycle(c) && c.no_duplicates() && self.from_files(c[0])
    }

    /// Every edge out of a finished vertex leads to a vertex finished before it,
    /// or closes one of the cycles `cs`.
    pub open spec fn finish_ordered_or_closed(&self, fin: Seq<FileId>, cs: Seq<Seq<FileId>>) -> bool {
        forall|i: int, v: FileId|
            0 <= i < fin.len() && #[trigger] self.has_edge(fin[i], v) ==> (exists|j: int|
                0 <= j < i && fin[j] == v) || closed_by(cs, fin[i], v)
    }

    /// Every file id and every id that ends an edge.
    pub open spec fn all_ids(&self) -> Set<FileId> {
        (self.nodes@.map_values(|n: FileNode| n.id) + self.edges@.map_values(
            |e: (FileId, FileId)| e.0,
        ) + self.edges@.map_values(|e: (FileId, FileId)| e.1)).to_set()
    }

    pub proof fn lemma_all_ids(&self)
        ensures
            self.all_ids().finite(),
            forall|i: int| 0 <= i < self.nodes@.len() ==> self.all_ids().contains(#[trigger] self.nodes@[i].id),
            forall|a: FileId, b: FileId|
                #[trigger] self.has_edge(a, b) ==> self.all_ids().contains(a) && self.all_ids().contains(b),
    {
        let ns = self.nodes@.map_values(|n: FileNode| n.id);
        let s0 = self.edges@.map_values(|e: (FileId, FileId)| e.0);
        let s1 = self.edges@.map_values(|e: (FileId, FileId)| e.1);
        let s = ns + s0 + s1;
        vstd::seq_lib::seq_to_set_is_finite(s);
        assert forall|i: int| 0 <= i < self.nodes@.len() implies self.all_ids().contains(#[trigger] self.nodes@[i].id) by {
            assert(s[i] == self.nodes@[i].id);
            assert(s.contains(self.nodes@[i].id));
        }
        assert forall|a: FileId, b: FileId| #[trigger] self.has_edge(a, b) implies self.all_ids().contains(a)
            && self.all_ids().contains(b) by {
            let j = choose|j: int| 0 <= j < self.edges@.len() && self.edges@[j] == (a, b);
            assert(s[ns.len() + j] == a);
            assert(s[ns.len() + s0.len() + j] == b);
            assert(s.contains(a));
            assert(s.contains(b));
        }
    }

    /// The depth-first search state: `path` is the current walk (the vertices in
    /// progress), `fin` the finished vertices in finishing order; `visited` holds both.
    pub open spec fn dfs_inv(
        &self,
        visited: Set<FileId>,
        in_stack: Set<FileId>,
        path: Seq<FileId>,
        fin: Seq<FileId>,
        cycles: Seq<Seq<FileId>>,
    ) -> bool {
        &&& path.no_duplicates()
        &&& fin.no_duplicates()
        &&& forall|i: int| 0 <= i < path.len() ==> !fin.contains(#[trigger] path[i])
        &&& visited == path.to_set() + fin.to_set()
        &&& in_stack == path.to_set()
        &&& path.len() > 0 ==> self.is_walk(path)
        &&& visited.subset_of(self.all_ids())
        &&& forall|v: FileId| visited.contains(v) ==> self.from_files(v)
        &&& forall|k: int| 0 <= k < cycles.len() ==> self.good_cycle(#[trigger] cycles[k])
        &&& forall|k: int| 0 <= k < cycles.len() ==> visited.contains((#[trigger] cycles[k])[0])
        &&& forall|k: int| 0 <= k < cycles.len() ==> visited.contains((#[trigger] cycles[k]).last())
        &&& closing_edges_distinct(cycles)
        &&& self.finish_ordered_or_closed(fin, cycles)
    }
}

} // verus!

verus! {

pub open spec fn cycles_view(v: Seq<Vec<FileId>>) -> Seq<Seq<FileId>> {
    v.map_values(|c: Vec<FileId>| c@)
}

fn index_in(v: &Vec<FileId>, x: FileId) -> (i: usize)
    requires
        v@.contains(x),
    ensures
        i < v@.len(),
        v@[i as int] == x,
{
    let mut i: usize = 0;
    while i < v.len()
        invariant
            v@.contains(x),
            0 <= i <= v@.len(),
            forall|j: int| 0 <= j < i ==> v@[j] != x,
        decreases v@.len() - i,
    {
        if v[i] == x {
            return i;
        }
        i = i + 1;
    }
    proof {
        let j = choose|j: int| 0 <= j < v@.len() && v@[j] == x;
        assert(v@[j] != x);
    }
    0
}

impl DependencyGraph {
    proof fn lemma_from_files_extend(&self, u: FileId, v: FileId)
        requires
            self.from_files(u),
            self.has_edge(u, v),
        ensures
            self.from_files(v),
    {
        let i = choose|i: int| 0 <= i < self.nodes@.len() && self.reaches(#[trigger] self.nodes@[i].id, u);
        self.lemma_reach_extend(true, self.nodes@[i].id, u, v);
        assert(self.reaches(self.nodes@[i].id, v));
    }

    /// State after `node` joins the walk.
    proof fn lemma_enter(
        &self,
        visited: Set<FileId>,
        in_stack: Set<FileId>,
        path: Seq<FileId>,
        fin: Seq<FileId>,
        cycles: Seq<Seq<FileId>>,
        node: FileId,
    )
        requires
            self.dfs_inv(visited, in_stack, path, fin, cycles),
            !visited.contains(node),
            self.all_ids().contains(node),
            self.from_files(node),
            path.len() > 0 ==> self.has_edge(path.last(), node),
        ensures
            self.dfs_inv(visited.insert(node), in_stack.insert(node), path.push(node), fin, cycles),
    {
        let p2 = path.push(node);
        path.lemma_push_to_set_commute(node);
        assert(!path.contains(node)) by {
            if path.contains(node) {
                assert(path.to_set().contains(node));
            }
        }
        assert(!fin.contains(node)) by {
            if fin.contains(node) {
                assert(fin.to_set().contains(node));
            }
        }
        assert(p2.no_duplicates()) by {
            assert forall|i: int, j: int| 0 <= i < p2.len() && 0 <= j < p2.len() && i != j implies p2[i]
                != p2[j] by {
                if i == path.len() as int {
                    assert(path.contains(p2[j]));
                } else if j == path.len() as int {
                    assert(path.contains(p2[i]));
                }
            }
        }
        assert forall|i: int| 0 <= i < p2.len() implies !fin.contains(#[trigger] p2[i]) by {
            if i < path.len() {
                assert(p2[i] == path[i]);
            }
        }
        assert(visited.insert(node) =~= p2.to_set() + fin.to_set());
        assert(self.is_walk(p2)) by {
            assert forall|i: int| 0 <= i < p2.len() - 1 implies #[trigger] self.walk_step(p2, i) by {
                if i < path.len() - 1 {
                    assert(self.walk_step(path, i));
                }
            }
        }
    }

    /// State after `node`, the last element of the walk, finishes.
    proof fn lemma_leave(
        &self,
        visited: Set<FileId>,
        in_stack: Set<FileId>,
        path: Seq<FileId>,
        fin: Seq<FileId>,
        cycles: Seq<Seq<FileId>>,
        node: FileId,
    )
        requires
            self.dfs_inv(visited, in_stack, path.push(node), fin, cycles),
            forall|v: FileId| #[trigger] self.has_edge(node, v) ==> fin.contains(v) || closed_by(cycles, node, v),
        ensures
            self.dfs_inv(visited, in_stack.remove(node), path, fin.push(node), cycles),
    {
        let p2 = path.push(node);
        let f2 = fin.push(node);
        path.lemma_push_to_set_commute(node);
        fin.lemma_push_to_set_commute(node);
        assert(!path.contains(node)) by {
            if path.contains(node) {
                let j = choose|j: int| 0 <= j < path.len() && path[j] == node;
                assert(p2[j] == p2[path.len() as int]);
            }
        }
        assert(!fin.contains(node)) by {
            assert(p2[path.len() as int] == node);
        }
        assert(path.no_duplicates()) by {
            assert forall|i: int, j: int| 0 <= i < path.len() && 0 <= j < path.len() && i != j implies path[i]
                != path[j] by {
                assert(p2[i] == path[i] && p2[j] == path[j]);
            }
        }
        assert(f2.no_duplicates()) by {
            assert forall|i: int, j: int| 0 <= i < f2.len() && 0 <= j < f2.len() && i != j implies f2[i]
                != f2[j] by {
                if i == fin.len() as int {
                    assert(fin.contains(f2[j]));
                } else if j == fin.len() as int {
                    assert(fin.contains(f2[i]));
                }
            }
        }
        assert forall|i: int| 0 <= i < path.len() implies !f2.contains(#[trigger] path[i]) by {
            assert(p2[i] == path[i]);
            assert(!fin.contains(p2[i]));
            if f2.contains(path[i]) {
                let j = choose|j: int| 0 <= j < f2.len() && f2[j] == path[i];
                if j < fin.len() {
                    assert(fin[j] == path[i]);
                    assert(fin.contains(path[i]));
                }
            }
        }
        assert(visited =~= path.to_set() + f2.to_set());
        assert(in_stack.remove(node) =~= path.to_set());
        if path.len() > 0 {
            assert(self.is_walk(path)) by {
                assert forall|i: int| 0 <= i < path.len() - 1 implies #[trigger] self.walk_step(path, i) by {
                    assert(self.walk_step(p2, i));
                }
            }
        }
        assert forall|i: int, v: FileId|
            0 <= i < f2.len() && #[trigger] self.has_edge(f2[i], v) implies (exists|j: int|
            0 <= j < i && f2[j] == v) || closed_by(cycles, f2[i], v) by {
            if i < fin.len() {
                assert(f2[i] == fin[i]);
                assert(self.has_edge(fin[i], v));
                if !closed_by(cycles, fin[i], v) {
                    let j = choose|j: int| 0 <= j < i && fin[j] == v;
                    assert(f2[j] == v);
                }
            } else {
                assert(f2[i] == node);
                if !closed_by(cycles, node, v) {
                    assert(fin.contains(v));
                    let j = choose|j: int| 0 <= j < fin.len() && fin[j] == v;
                    assert(f2[j] == v);
                }
            }
        }
    }
}

} // verus!

verus! {

impl DependencyGraph {
    /// Depth-first search from `node`, recording a cycle at each edge back into the
    /// current walk.
    fn dfs_cycle(
        &self,
        node: FileId,
        visited: &mut HashSet<FileId>,
        in_stack: &mut HashSet<FileId>,
        path: &mut Vec<FileId>,
        cycles: &mut Vec<Vec<FileId>>,
        Ghost(fin0): Ghost<Seq<FileId>>,
    ) -> (fin: Ghost<Seq<FileId>>)
        requires
            self.wf(),
            self.dfs_inv(old(visited)@, old(in_stack)@, old(path)@, fin0, cycles_view(old(cycles)@)),
            !old(visited)@.contains(node),
            self.all_ids().contains(node),
            self.from_files(node),
            old(path)@.len() > 0 ==> self.has_edge(old(path)@.last(), node),
        ensures
            self.dfs_inv(
                final(visited)@,
                final(in_stack)@,
                final(path)@,
                fin@,
                cycles_view(final(cycles)@),
            ),
            final(path)@ == old(path)@,
            old(visited)@.subset_of(final(visited)@),
            fin@.len() >= fin0.len(),
            fin@.subrange(0, fin0.len() as int) == fin0,
            fin@.contains(node),
            final(cycles)@.len() >= old(cycles)@.len(),
            cycles_view(final(cycles)@).subrange(0, old(cycles)@.len() as int) == cycles_view(
                old(cycles)@,
            ),
            forall|q: int|
                old(cycles)@.len() <= q < final(cycles)@.len() ==> !old(visited)@.contains(
                    (#[trigger] cycles_view(final(cycles)@)[q]).last(),
                ),
        decreases self.all_ids().len() - old(visited)@.len(),
    {
        let ghost u = self.all_ids();
        let ghost path0 = path@;
        let ghost visited0 = visited@;
        let ghost cycles0 = cycles_view(cycles@);
        proof {
            self.lemma_all_ids();
            self.lemma_enter(visited@, in_stack@, path@, fin0, cycles_view(cycles@), node);
        }
        visited.insert(node);
        in_stack.insert(node);
        path.push(node);
        let ghost mut fin = fin0;
        proof {
            vstd::set_lib::lemma_len_subset(visited@, u);
        }
        let mut k: usize = 0;
        while k < self.edges.len()
            invariant
                self.wf(),
                u == self.all_ids(),
                u.finite(),
                forall|a: FileId, b: FileId| #[trigger] self.has_edge(a, b) ==> u.contains(a) && u.contains(b),
                0 <= k <= self.edges@.len(),
                self.dfs_inv(visited@, in_stack@, path@, fin, cycles_view(cycles@)),
                path@ == path0.push(node),
                visited0 == old(visited)@,
                visited0.subset_of(visited@),
                visited@.contains(node),
                !visited0.contains(node),
                fin.len() >= fin0.len(),
                fin.subrange(0, fin0.len() as int) == fin0,
                cycles@.len() >= cycles0.len(),
                cycles_view(cycles@).subrange(0, cycles0.len() as int) == cycles0,
                self.from_files(node),
                forall|j: int|
                    0 <= j < k && #[trigger] self.edges@[j].0 == node ==> fin.contains(self.edges@[j].1)
                        || closed_by(cycles_view(cycles@), node, self.edges@[j].1),
                forall|q: int| 0 <= q < cycles0.len() ==> visited0.contains((#[trigger] cycles0[q]).last()),
                forall|q: int|
                    cycles0.len() <= q < cycles@.len() ==> !visited0.contains(
                        (#[trigger] cycles_view(cycles@)[q]).last(),
                    ),
                forall|q: int|
                    cycles0.len() <= q < cycles@.len() && (#[trigger] cycles_view(cycles@)[q]).last() == node
                        ==> exists|j: int| 0 <= j < k && #[trigger] self.edges@[j] == (node, cycles_view(cycles@)[q][0]),
            decreases self.edges@.len() - k,
        {
            let (a, dep) = self.edges[k];
            assert(self.has_edge(a, dep)) by {
                assert(self.edges@[k as int] == (a, dep));
            }
            let ghost fin_before = fin;
            let ghost cyc_before = cycles_view(cycles@);
            let ghost visited_before = visited@;
            if a == node {
                if !visited.contains(&dep) {
                    proof {
                        self.lemma_from_files_extend(node, dep);
                        vstd::set_lib::lemma_len_subset(visited@, u);
                        vstd::set_lib::lemma_len_subset(visited0, visited@);
                        assert(visited0.insert(node).len() == visited0.len() + 1);
                        vstd::set_lib::lemma_len_subset(visited0.insert(node), visited@);
                        vstd::set_lib::lemma_len_subset(visited@, u);
                    }
                    let Ghost(f2) = self.dfs_cycle(dep, visited, in_stack, path, cycles, Ghost(fin));
                    proof {
                        fin = f2;
                        assert(fin.subrange(0, fin0.len() as int) =~= fin_before.subrange(
                            0,
                            fin0.len() as int,
                        ));
                        assert(cycles_view(cycles@).subrange(0, cycles0.len() as int)
                            =~= cyc_before.subrange(0, cycles0.len() as int));
                    }
                } else if in_stack.contains(&dep) {
                    let pos = index_in(path, dep);
                    let c = vstd::slice::slice_to_vec(
                        vstd::slice::slice_subrange(path.as_slice(), pos, path.len()),
                    );
                    let ghost p = path@;
                    proof {
                        let cs = c@;
                        assert(cs =~= p.subrange(pos as int, p.len() as int));
                        assert(cs.last() == node);
                        assert(cs[0] == dep);
                        assert(self.is_walk(cs)) by {
                            assert forall|i: int| 0 <= i < cs.len() - 1 implies #[trigger] self.walk_step(cs, i) by {
                                assert(self.walk_step(p, pos + i));
                            }
                        }
                        assert(cs.no_duplicates()) by {
                            assert forall|i: int, j: int|
                                0 <= i < cs.len() && 0 <= j < cs.len() && i != j implies cs[i] != cs[j] by {
                                assert(cs[i] == p[pos + i] && cs[j] == p[pos + j]);
                            }
                        }
                        assert(self.good_cycle(cs));
                    }
                    let ghost old_cycles = cycles_view(cycles@);
                    cycles.push(c);
                    proof {
                        let nc = cycles_view(cycles@);
                        assert(nc =~= old_cycles.push(c@));
                        assert(nc.subrange(0, cycles0.len() as int) =~= old_cycles.subrange(
                            0,
                            cycles0.len() as int,
                        ));
                        assert(nc.subrange(0, old_cycles.len() as int) =~= old_cycles);
                        assert(in_stack@.contains(dep));
                        assert forall|q: int| 0 <= q < nc.len() implies visited@.contains((#[trigger] nc[q])[0]) by {
                            if q < old_cycles.len() {
                                assert(nc[q] == old_cycles[q]);
                            } else {
                                assert(nc[q] == c@);
                            }
                        }
                        assert forall|q: int| 0 <= q < nc.len() implies self.good_cycle(#[trigger] nc[q]) by {
                            if q < old_cycles.len() {
                                assert(nc[q] == old_cycles[q]);
                            } else {
                                assert(nc[q] == c@);
                            }
                        }
                        assert forall|i: int, v: FileId|
                            0 <= i < fin.len() && #[trigger] self.has_edge(fin[i], v) implies (exists|j: int|
                            0 <= j < i && fin[j] == v) || closed_by(nc, fin[i], v) by {
                            if closed_by(old_cycles, fin[i], v) {
                                lemma_closed_by_grows(old_cycles, nc, fin[i], v);
                            }
                        }
                        assert(nc[old_cycles.len() as int] == c@);
                        assert(closed_by(nc, node, dep));
                        assert forall|q: int| 0 <= q < nc.len() implies visited@.contains((#[trigger] nc[q]).last()) by {
                            if q < old_cycles.len() {
                                assert(nc[q] == old_cycles[q]);
                            } else {
                                assert(nc[q] == c@);
                            }
                        }
                        assert forall|q: int| 0 <= q < old_cycles.len() implies !((#[trigger] old_cycles[q])[0] == dep
                            && old_cycles[q].last() == node) by {
                            if old_cycles[q][0] == dep && old_cycles[q].last() == node {
                                if q < cycles0.len() {
                                    assert(old_cycles[q] == cycles0[q]);
                                    assert(visited0.contains(cycles0[q].last()));
                                } else {
                                    let j = choose|j: int| 0 <= j < k && #[trigger] self.edges@[j] == (node, old_cycles[q][0]);
                                    assert(self.edges@[j] == self.edges@[k as int]);
                                }
                            }
                        }
                        assert(closing_edges_distinct(nc)) by {
                            assert forall|k1: int, k2: int|
                                0 <= k1 < nc.len() && 0 <= k2 < nc.len() && k1 != k2 implies (#[trigger] nc[k1])[0]
                                != (#[trigger] nc[k2])[0] || nc[k1].last() != nc[k2].last() by {
                                if k1 < old_cycles.len() && k2 < old_cycles.len() {
                                    assert(nc[k1] == old_cycles[k1] && nc[k2] == old_cycles[k2]);
                                } else if k1 < old_cycles.len() {
                                    assert(nc[k1] == old_cycles[k1] && nc[k2] == c@);
                                } else {
                                    assert(nc[k2] == old_cycles[k2] && nc[k1] == c@);
                                }
                            }
                        }
                    }
                }
            }
            proof {
                let cv = cycles_view(cycles@);
                assert(cv.subrange(0, cyc_before.len() as int) =~= cyc_before);
                assert forall|q: int|
                    cycles0.len() <= q < cv.len() implies !visited0.contains((#[trigger] cv[q]).last())
                    && (cv[q].last() == node ==> exists|j: int|
                    0 <= j < k + 1 && #[trigger] self.edges@[j] == (node, cv[q][0])) by {
                    if q < cyc_before.len() {
                        assert(cv[q] == cyc_before[q]);
                        if cv[q].last() == node {
                            let j = choose|j: int| 0 <= j < k && #[trigger] self.edges@[j] == (node, cyc_before[q][0]);
                        }
                    } else if a == node && !visited_before.contains(dep) {
                        assert(!visited_before.contains(cv[q].last()));
                        assert(visited_before.contains(node));
                    } else {
                        assert(cv[q][0] == dep && cv[q].last() == node);
                        assert(self.edges@[k as int] == (node, dep));
                    }
                }
                assert(fin.subrange(0, fin_before.len() as int) =~= fin_before);
                assert forall|j: int|
                    0 <= j < k + 1 && #[trigger] self.edges@[j].0 == node implies fin.contains(
                        self.edges@[j].1,
                    ) || closed_by(cv, node, self.edges@[j].1) by {
                    if j < k {
                        if fin_before.contains(self.edges@[j].1) {
                            let w = choose|w: int| 0 <= w < fin_before.len() && fin_before[w] == self.edges@[j].1;
                            assert(fin[w] == fin.subrange(0, fin_before.len() as int)[w]);
                        } else {
                            lemma_closed_by_grows(cyc_before, cv, node, self.edges@[j].1);
                        }
                    } else {
                        assert(self.edges@[j] == (a, dep));
                        if visited@.contains(dep) && !path@.contains(dep) {
                            assert(fin.to_set().contains(dep));
                        }
                    }
                }
            }
            k = k + 1;
        }
        proof {
            assert forall|v: FileId| #[trigger] self.has_edge(node, v) implies fin.contains(v) || closed_by(
                cycles_view(cycles@),
                node,
                v,
            ) by {
                let j = choose|j: int| 0 <= j < self.edges@.len() && self.edges@[j] == (node, v);
                assert(self.edges@[j].0 == node);
            }
            self.lemma_leave(visited@, in_stack@, path0, fin, cycles_view(cycles@), node);
        }
        path.pop();
        in_stack.remove(&node);
        proof {
            assert(path@ =~= path0);
            fin = fin.push(node);
            assert(fin.subrange(0, fin0.len() as int) =~= fin0);
        }
        Ghost(fin)
    }
}

} // verus!

verus! {

pub open spec fn pos_in(s: Seq<FileId>, x: FileId) -> int {
    choose|j: int| 0 <= j < s.len() && s[j] == x
}

impl DependencyGraph {
    /// Going round a cycle none of whose first `m` edges closes a cycle of `cs`,
    /// each vertex finished before the one before it.
    proof fn lemma_cycle_descends(&self, fin: Seq<FileId>, cs: Seq<Seq<FileId>>, c: Seq<FileId>, m: int)
        requires
            fin.no_duplicates(),
            self.finish_ordered_or_closed(fin, cs),
            self.is_cycle(c),
            fin.contains(c[0]),
            0 <= m < c.len(),
            forall|i: int| 0 <= i < m ==> !closed_by(cs, #[trigger] c[i], c[i + 1]),
        ensures
            fin.contains(c[m]),
            pos_in(fin, c[m]) + m <= pos_in(fin, c[0]),
        decreases m,
    {
        if m > 0 {
            self.lemma_cycle_descends(fin, cs, c, m - 1);
            let i = pos_in(fin, c[m - 1]);
            assert(fin[i] == c[m - 1]);
            assert(self.walk_step(c, m - 1));
            assert(self.has_edge(fin[i], c[m]));
            assert(!closed_by(cs, c[m - 1], c[m]));
            let j = choose|j: int| 0 <= j < i && fin[j] == c[m];
            assert(fin.contains(c[m]));
            let k = pos_in(fin, c[m]);
            assert(fin[k] == c[m]);
            assert(k == j);
        }
    }

    /// A cycle through a finished vertex has an edge that closes a cycle of `cs`.
    proof fn lemma_cycle_closed_edge(&self, fin: Seq<FileId>, cs: Seq<Seq<FileId>>, c: Seq<FileId>)
        requires
            fin.no_duplicates(),
            self.finish_ordered_or_closed(fin, cs),
            self.is_cycle(c),
            fin.contains(c[0]),
        ensures
            exists|i: int| 0 <= i < c.len() && closed_by(cs, #[trigger] c[i], next_in(c, i)),
    {
        if !exists|i: int| 0 <= i < c.len() && closed_by(cs, #[trigger] c[i], next_in(c, i)) {
            let m = c.len() - 1;
            assert forall|i: int| 0 <= i < m implies !closed_by(cs, #[trigger] c[i], c[i + 1]) by {
                assert(next_in(c, i) == c[i + 1]);
            }
            self.lemma_cycle_descends(fin, cs, c, m);
            assert(next_in(c, m) == c[0]);
            assert(!closed_by(cs, c[m], c[0]));
            let i = pos_in(fin, c[m]);
            assert(fin[i] == c[m]);
            assert(self.has_edge(fin[i], c[0]));
            let j = choose|j: int| 0 <= j < i && fin[j] == c[0];
            let k = pos_in(fin, c[0]);
            assert(fin[k] == c[0]);
            assert(k == j);
        }
    }

    /// The cycles met by a depth-first search from each file in turn, each given
    /// as the walk from where it closes to the vertex whose edge closes it. Every
    /// cycle that a file reaches has an edge that closes one of them, so the
    /// result is empty exactly when no cycle can be reached from a file.
    #[verifier::rlimit(40)]
    pub fn find_cycles(&self) -> (r: Vec<Vec<FileId>>)
        requires
            self.wf(),
        ensures
            forall|k: int| 0 <= k < r@.len() ==> self.good_cycle(#[trigger] r@[k]@),
            closing_edges_distinct(cycles_view(r@)),
            forall|c: Seq<FileId>|
                #[trigger] self.is_cycle(c) && self.from_files(c[0]) ==> exists|i: int|
                    0 <= i < c.len() && closed_by(cycles_view(r@), #[trigger] c[i], next_in(c, i)),
            r@.len() == 0 <==> !self.has_reachable_cycle(),
    {
        let mut cycles: Vec<Vec<FileId>> = Vec::new();
        let mut visited: HashSet<FileId> = HashSet::new();
        let mut in_stack: HashSet<FileId> = HashSet::new();
        let mut path: Vec<FileId> = Vec::new();
        let ghost mut fin: Seq<FileId> = Seq::empty();
        proof {
            self.lemma_all_ids();
            assert(visited@ =~= path@.to_set() + fin.to_set());
            assert(in_stack@ =~= path@.to_set());
            assert(cycles_view(cycles@) =~= Seq::<Seq<FileId>>::empty());
        }
        let mut i: usize = 0;
        while i < self.nodes.len()
            invariant
                self.wf(),
                0 <= i <= self.nodes@.len(),
                path@.len() == 0,
                self.dfs_inv(visited@, in_stack@, path@, fin, cycles_view(cycles@)),
                forall|j: int| 0 <= j < i ==> visited@.contains(#[trigger] self.nodes@[j].id),
            decreases self.nodes@.len() - i,
        {
            let id = self.nodes[i].id;
            if !visited.contains(&id) {
                proof {
                    self.lemma_all_ids();
                    self.lemma_walk_one(id);
                    assert(self.reaches(self.nodes@[i as int].id, id));
                }
                let Ghost(f2) = self.dfs_cycle(id, &mut visited, &mut in_stack, &mut path, &mut cycles, Ghost(fin));
                proof {
                    fin = f2;
                }
            }
            i = i + 1;
        }
        proof {
            let cv = cycles_view(cycles@);
            assert forall|k: int| 0 <= k < cycles@.len() implies self.good_cycle(#[trigger] cycles@[k]@) by {
                assert(cv[k] == cycles@[k]@);
            }
            assert(visited@ =~= fin.to_set()) by {
                assert(path@.to_set() =~= Set::<FileId>::empty());
            }
            let fs = fin.to_set();
            assert forall|x: FileId, y: FileId| fs.contains(x) && #[trigger] self.step(true, x, y) implies fs.contains(y) by {
                let w = choose|w: int| 0 <= w < fin.len() && fin[w] == x;
                assert(self.has_edge(fin[w], y));
                if closed_by(cv, fin[w], y) {
                    let k = choose|k: int| 0 <= k < cv.len() && (#[trigger] cv[k]).len() > 0 && cv[k][0] == y && cv[k].last() == fin[w];
                    assert(visited@.contains(cv[k][0]));
                } else {
                    let z = choose|z: int| 0 <= z < w && fin[z] == y;
                    assert(fin.contains(y));
                }
            }
            assert forall|c: Seq<FileId>|
                #[trigger] self.is_cycle(c) && self.from_files(c[0]) implies exists|i: int|
                    0 <= i < c.len() && closed_by(cv, #[trigger] c[i], next_in(c, i)) by {
                let n = choose|n: int| 0 <= n < self.nodes@.len() && self.reaches(#[trigger] self.nodes@[n].id, c[0]);
                assert(fs.contains(self.nodes@[n].id));
                self.lemma_closed_holds_reach(true, fs, self.nodes@[n].id, c[0]);
                self.lemma_cycle_closed_edge(fin, cv, c);
            }
            if self.has_reachable_cycle() {
                let c = choose|c: Seq<FileId>| #[trigger] self.is_cycle(c) && self.from_files(c[0]);
                let i = choose|i: int| 0 <= i < c.len() && closed_by(cv, #[trigger] c[i], next_in(c, i));
                assert(cv.len() > 0);
            }
            if cycles@.len() > 0 {
                let c = cycles@[0]@;
                assert(cv[0] == c);
                assert(self.good_cycle(c));
                assert(self.is_cycle(c) && self.from_files(c[0]));
            }
        }
        cycles
    }
}

} // verus!

verus! {

/// The elements of a set, in the set's iteration order.
pub fn set_to_vec(s: &HashSet<FileId>) -> (r: Vec<FileId>)
    ensures
        r@.to_set() == s@,
{
    let mut out: Vec<FileId> = Vec::new();
    for x in it: s.iter()
        invariant
            it.seq().unref().to_set() == s@,
            out@ == it.seq().unref().take(it.index()),
            it.index() == it.seq().len() ==> out@.to_set() == s@,
    {
        out.push(*x);
        assert(out@ =~= it.seq().unref().take(it.index() + 1));
        assert(it.index() + 1 == it.seq().len() ==> it.seq().unref().take(it.index() + 1)
            =~= it.seq().unref());
    }
    out
}

impl DependencyGraph {
    /// Something other than `id` that reaches `id` starts an edge; something other
    /// than `id` that `id` reaches ends one.
    pub proof fn lemma_reach_ends(&self, a: FileId, b: FileId)
        requires
            self.reaches(a, b),
            a != b,
        ensures
            exists|j: int| 0 <= j < self.edges@.len() && #[trigger] self.edges@[j].0 == a,
            exists|j: int| 0 <= j < self.edges@.len() && #[trigger] self.edges@[j].1 == b,
    {
        let p = choose|p: Seq<FileId>| self.is_walk(p) && p[0] == a && p.last() == b;
        assert(p.len() >= 2);
        assert(self.walk_step(p, 0));
        assert(self.walk_step(p, p.len() - 2));
        let j = choose|j: int| 0 <= j < self.edges@.len() && self.edges@[j] == (p[0], p[1]);
        assert(self.edges@[j].0 == a);
        let k = choose|k: int| 0 <= k < self.edges@.len() && self.edges@[k] == (p[p.len() - 2], p[p.len() - 1]);
        assert(self.edges@[k].1 == b);
    }
}

} // verus!

verus! {

impl DependencyGraph {
    /// `b` is among the transitive dependencies of `a` exactly when `a` is among
    /// the transitive dependents of `b`.
    pub proof fn law_closures_mirror(&self, a: FileId, b: FileId)
        ensures
            self.dependency_closure(a).contains(b) == self.dependent_closure(b).contains(a),
    {
    }

    /// Every edge `(a, b)` with `a != b` puts `b` among the transitive dependencies
    /// of `a`, and `a` among the transitive dependents of `b`.
    pub proof fn law_edge_in_closures(&self, a: FileId, b: FileId)
        requires
            self.has_edge(a, b),
            a != b,
        ensures
            self.dependency_closure(a).contains(b),
            self.dependent_closure(b).contains(a),
    {
        self.lemma_walk_one(a);
        self.lemma_reach_extend(true, a, a, b);
    }

    /// The dependencies of a file are gathered transitively: a dependency of a
    /// transitive dependency is itself one (or the file).
    pub proof fn law_closure_closed(&self, a: FileId, b: FileId, c: FileId)
        requires
            self.dependency_closure(a).contains(b),
            self.has_edge(b, c),
        ensures
            c == a || self.dependency_closure(a).contains(c),
    {
        self.lemma_reach_extend(true, a, b, c);
    }

    /// `b` is listed among the ends of the edges from `a` exactly when `a` is
    /// listed among the starts of the edges into `b`, exactly when the edge exists.
    pub proof fn law_targets_sources_mirror(&self, a: FileId, b: FileId)
        ensures
            targets_of(self.edges@, a).contains(b) == self.has_edge(a, b),
            sources_of(self.edges@, b).contains(a) == self.has_edge(a, b),
    {
        lemma_targets_sources(self.edges@, a, b);
    }

    /// A file just added is the file found under its id, and every other id
    /// finds what it found before.
    pub proof fn law_add_node(&self, after: &DependencyGraph, node: FileNode)
        requires
            self.wf(),
            after.wf(),
            self.has_node(node.id) ==> after.nodes@ == self.nodes@.update(self.node_index(node.id), node),
            !self.has_node(node.id) ==> after.nodes@ == self.nodes@.push(node),
        ensures
            after.has_node(node.id),
            after.nodes@[after.node_index(node.id)] == node,
            forall|id: FileId|
                id != node.id ==> (after.has_node(id) == self.has_node(id) && (self.has_node(id)
                    ==> after.nodes@[after.node_index(id)] == self.nodes@[self.node_index(id)])),
    {
        let n = self.nodes@.len();
        if self.has_node(node.id) {
            let i = self.node_index(node.id);
            assert(after.nodes@[i].id == node.id);
        } else {
            assert(after.nodes@[n as int].id == node.id);
        }
        let k = after.node_index(node.id);
        assert(after.nodes@[k].id == node.id);
        if self.has_node(node.id) {
            assert(k == self.node_index(node.id));
        } else {
            assert(k == n);
        }
        assert forall|id: FileId| id != node.id implies (after.has_node(id) == self.has_node(id) && (
        self.has_node(id) ==> after.nodes@[after.node_index(id)] == self.nodes@[self.node_index(id)])) by {
            if self.has_node(id) {
                let j = self.node_index(id);
                assert(after.nodes@[j] == self.nodes@[j]);
                assert(after.nodes@[j].id == id);
                let j2 = after.node_index(id);
                assert(after.nodes@[j2].id == id);
                assert(j2 == j);
            }
            if after.has_node(id) {
                let j2 = after.node_index(id);
                assert(after.nodes@[j2].id == id);
                assert(self.nodes@[j2].id == id);
            }
        }
    }

    /// An added dependency is an edge, and every earlier edge stays.
    pub proof fn law_add_dependency(&self, after: &DependencyGraph, from: FileId, to: FileId)
        requires
            self.wf(),
            self.has_edge(from, to) ==> after.edges@ == self.edges@,
            !self.has_edge(from, to) ==> after.edges@ == self.edges@.push((from, to)),
        ensures
            after.has_edge(from, to),
            forall|a: FileId, b: FileId| self.has_edge(a, b) ==> after.has_edge(a, b),
    {
        if !self.has_edge(from, to) {
            assert(after.edges@[self.edges@.len() as int] == (from, to));
            assert forall|a: FileId, b: FileId| self.has_edge(a, b) implies after.has_edge(a, b) by {
                let j = choose|j: int| 0 <= j < self.edges@.len() && self.edges@[j] == (a, b);
                assert(after.edges@[j] == (a, b));
            }
        }
    }
}

pub proof fn lemma_targets_sources(es: Seq<(FileId, FileId)>, a: FileId, b: FileId)
    ensures
        targets_of(es, a).contains(b) == es.contains((a, b)),
        sources_of(es, b).contains(a) == es.contains((a, b)),
    decreases es.len(),
{
    if es.len() > 0 {
        let pre = es.drop_last();
        lemma_targets_sources(pre, a, b);
        assert(es =~= pre.push(es.last()));
        if es.contains((a, b)) && es.last() != (a, b) {
            let j = choose|j: int| 0 <= j < es.len() && es[j] == (a, b);
            assert(j < pre.len());
            assert(pre[j] == (a, b));
        }
        if pre.contains((a, b)) {
            let j = choose|j: int| 0 <= j < pre.len() && pre[j] == (a, b);
            assert(es[j] == (a, b));
        }
        let t0 = targets_of(pre, a);
        let s0 = sources_of(pre, b);
        if es.last().0 == a {
            assert(targets_of(es, a) == t0.push(es.last().1));
            if t0.contains(b) {
                let j = choose|j: int| 0 <= j < t0.len() && t0[j] == b;
                assert(targets_of(es, a)[j] == b);
            }
            if targets_of(es, a).contains(b) && es.last().1 != b {
                let j = choose|j: int| 0 <= j < targets_of(es, a).len() && targets_of(es, a)[j] == b;
                assert(t0[j] == b);
            }
            assert(targets_of(es, a)[t0.len() as int] == es.last().1);
        }
        if es.last().1 == b {
            assert(sources_of(es, b) == s0.push(es.last().0));
            if s0.contains(a) {
                let j = choose|j: int| 0 <= j < s0.len() && s0[j] == a;
                assert(sources_of(es, b)[j] == a);
            }
            if sources_of(es, b).contains(a) && es.last().0 != a {
                let j = choose|j: int| 0 <= j < sources_of(es, b).len() && sources_of(es, b)[j] == a;
                assert(s0[j] == a);
            }
            assert(sources_of(es, b)[s0.len() as int] == es.last().0);
        }
    }
}

} // verus!

verus! {

impl DependencyGraph {
    /// Cycles that are each closed by their own edge (as `find_cycles` reports
    /// them) are all different, and there are no more of them than edges.
    pub proof fn law_one_cycle_per_closing_edge(&self, cs: Seq<Seq<FileId>>)
        requires
            self.wf(),
            forall|k: int| 0 <= k < cs.len() ==> self.good_cycle(#[trigger] cs[k]),
            closing_edges_distinct(cs),
        ensures
            cs.no_duplicates(),
            cs.len() <= self.edges@.len(),
    {
        let pairs = cs.map_values(|c: Seq<FileId>| (c.last(), c[0]));
        assert(pairs.no_duplicates()) by {
            assert forall|i: int, j: int| 0 <= i < pairs.len() && 0 <= j < pairs.len() && i != j implies pairs[i]
                != pairs[j] by {
                assert(cs[i][0] != cs[j][0] || cs[i].last() != cs[j].last());
            }
        }
        assert(cs.no_duplicates()) by {
            assert forall|i: int, j: int| 0 <= i < cs.len() && 0 <= j < cs.len() && i != j implies cs[i] != cs[j] by {
                assert(cs[i][0] != cs[j][0] || cs[i].last() != cs[j].last());
            }
        }
        pairs.unique_seq_to_set();
        assert(pairs.to_set().subset_of(self.edges@.to_set())) by {
            assert forall|e: (FileId, FileId)| pairs.to_set().contains(e) implies self.edges@.to_set().contains(e) by {
                let i = choose|i: int| 0 <= i < pairs.len() && pairs[i] == e;
                assert(self.good_cycle(cs[i]));
                assert(self.has_edge(cs[i].last(), cs[i][0]));
            }
        }
        self.edges@.unique_seq_to_set();
        vstd::set_lib::lemma_len_subset(pairs.to_set(), self.edges@.to_set());
    }
}

} // verus!
