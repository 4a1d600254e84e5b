//! Ordering a requirement graph so that every mod comes after the mods it
//! requires (Kahn's algorithm), with an exact account of when no order exists.

use vstd::prelude::*;
use vstd::set_lib::*;
use vstd::string::*;

use crate::errors::AppError;

verus! {



// ---------------------------------------------------------------------------
// Index-level model: node `i` requires the nodes listed in `e[i]`.
// ---------------------------------------------------------------------------

/// Every edge points at a node of the graph.
pub open spec fn edges_in_range(e: Seq<Seq<usize>>) -> bool {
    forall|i: int, a: int|
        0 <= i < e.len() && 0 <= a < e[i].len() ==> (#[trigger] e[i][a]) < e.len()
}

/// Some node lists the same requirement twice.
pub open spec fn has_repeated_edge(e: Seq<Seq<usize>>) -> bool {
    exists|i: int, a: int, b: int|
        0 <= i < e.len() && 0 <= a < b < e[i].len() && #[trigger] e[i][a] == #[trigger] e[i][b]
}

/// A nonempty set of nodes in which every member requires another member:
/// such a set can never be ordered.
pub open spec fn is_closed_cycle_set(e: Seq<Seq<usize>>, s: Set<usize>) -> bool {
    &&& exists|x: usize| s.contains(x)
    &&& forall|x: usize| #[trigger] s.contains(x) ==> x < e.len()
    &&& forall|x: usize| s.contains(x) ==> #[trigger] requires_member(e, s, x)
}

/// Node `x` requires some member of `s`.
pub open spec fn requires_member(e: Seq<Seq<usize>>, s: Set<usize>, x: usize) -> bool {
    exists|a: int| 0 <= a < e[x as int].len() && s.contains(e[x as int][a])
}

pub open spec fn has_cycle(e: Seq<Seq<usize>>) -> bool {
    exists|s: Set<usize>| is_closed_cycle_set(e, s)
}

/// `o` lists every node exactly once, each after all the nodes it requires.
pub open spec fn is_index_order(e: Seq<Seq<usize>>, o: Seq<usize>) -> bool {
    &&& o.len() == e.len()
    &&& o.no_duplicates()
    &&& forall|p: int| 0 <= p < o.len() ==> (#[trigger] o[p]) < e.len()
    &&& requirements_listed_earlier(e, o, o.len() as int)
}

/// `x` occurs among the first `k` entries of `o`.
pub open spec fn listed_before(o: Seq<usize>, k: int, x: usize) -> bool {
    exists|m: int| 0 <= m < k && o[m] == x
}

/// Each of the first `len` entries of `o` comes after every node it requires.
pub open spec fn requirements_listed_earlier(e: Seq<Seq<usize>>, o: Seq<usize>, len: int) -> bool {
    forall|p: int, a: int|
        0 <= p < len && 0 <= a < e[o[p] as int].len() ==> listed_before(o, p, #[trigger] e[o[p] as int][a])
}

pub open spec fn edges_view(adj: Seq<Vec<usize>>) -> Seq<Seq<usize>> {
    adj.map_values(|v: Vec<usize>| v@)
}

/// How many distinct members of `e` lie in `p`.
pub open spec fn distinct_hits(e: Seq<usize>, p: Set<usize>) -> nat {
    e.to_set().intersect(p).len()
}

proof fn lemma_hits_bound(e: Seq<usize>, p: Set<usize>)
    ensures
        distinct_hits(e, p) <= e.to_set().len(),
        e.to_set().len() <= e.len(),
        e.to_set().finite(),
{
    vstd::seq_lib::seq_to_set_is_finite(e);
    lemma_len_intersect(e.to_set(), p);
    e.lemma_cardinality_of_set();
}

proof fn lemma_hits_insert(e: Seq<usize>, p: Set<usize>, n: usize)
    requires
        !p.contains(n),
    ensures
        e.contains(n) ==> distinct_hits(e, p.insert(n)) == distinct_hits(e, p) + 1,
        !e.contains(n) ==> distinct_hits(e, p.insert(n)) == distinct_hits(e, p),
{
    vstd::seq_lib::seq_to_set_is_finite(e);
    let s = e.to_set();
    lemma_len_intersect(s, p);
    if e.contains(n) {
        assert(s.intersect(p.insert(n)) =~= s.intersect(p).insert(n));
        assert(!s.intersect(p).contains(n));
        vstd::set::axiom_set_intersect_finite(s, p);
    } else {
        assert(s.intersect(p.insert(n)) =~= s.intersect(p));
    }
}

proof fn lemma_hits_full(e: Seq<usize>, p: Set<usize>)
    requires
        distinct_hits(e, p) == e.len(),
    ensures
        e.no_duplicates(),
        forall|a: int| 0 <= a < e.len() ==> p.contains(#[trigger] e[a]),
{
    lemma_hits_bound(e, p);
    let s = e.to_set();
    e.lemma_no_dup_set_cardinality();
    assert(s.intersect(p).subset_of(s));
    vstd::set::axiom_set_intersect_finite(s, p);
    lemma_subset_equality(s.intersect(p), s);
    assert forall|a: int| 0 <= a < e.len() implies p.contains(#[trigger] e[a]) by {
        assert(s.contains(e[a]));
        assert(s.intersect(p).contains(e[a]));
    }
}

proof fn lemma_hits_missing(e: Seq<usize>, p: Set<usize>) -> (a: int)
    requires
        e.no_duplicates(),
        distinct_hits(e, p) < e.len(),
    ensures
        0 <= a < e.len(),
        !p.contains(e[a]),
{
    e.unique_seq_to_set();
    let s = e.to_set();
    if forall|a: int| 0 <= a < e.len() ==> p.contains(#[trigger] e[a]) {
        assert(s.intersect(p) =~= s);
        assert(false);
    }
    choose|a: int| 0 <= a < e.len() && !p.contains(e[a])
}

/// A valid order rules out every cycle set.
proof fn lemma_order_excludes_cycles(e: Seq<Seq<usize>>, o: Seq<usize>, s: Set<usize>)
    requires
        is_index_order(e, o),
        e.len() <= usize::MAX,
    ensures
        !is_closed_cycle_set(e, s),
{
    if is_closed_cycle_set(e, s) {
        assert forall|k: usize| #[trigger] s.contains(k) implies o.contains(k) by {
            assert(k < e.len());
            lemma_all_nodes_listed(e, o, k);
        }
        lemma_first_in_set(e, o, s, 0);
    }
}

proof fn lemma_all_nodes_listed(e: Seq<Seq<usize>>, o: Seq<usize>, k: usize)
    requires
        is_index_order(e, o),
        e.len() <= usize::MAX,
        k < e.len(),
    ensures
        o.contains(k),
{
    let full = Set::new(|i: usize| i < e.len());
    let oset = o.to_set();
    o.unique_seq_to_set();
    vstd::seq_lib::seq_to_set_is_finite(o);
    assert(oset.subset_of(full));
    lemma_usize_range_len(e.len());
    lemma_subset_equality(oset, full);
    assert(full.contains(k));
}

proof fn lemma_usize_range_len(n: nat)
    ensures
        Set::new(|i: usize| i < n).finite(),
        n <= usize::MAX + 1 ==> Set::new(|i: usize| i < n).len() == n,
    decreases n,
{
    if n == 0 {
        assert(Set::new(|i: usize| i < n) =~= Set::<usize>::empty());
    } else {
        lemma_usize_range_len((n - 1) as nat);
        if n <= usize::MAX + 1 {
            assert(Set::new(|i: usize| i < (n - 1) as nat).insert((n - 1) as usize) =~= Set::new(
                |i: usize| i < n,
            ));
        } else {
            assert(Set::new(|i: usize| i < (n - 1) as nat) =~= Set::new(|i: usize| i < n));
        }
    }
}

/// Scanning `o` from position `p`, when no earlier position holds a member of `s`,
/// leads to a contradiction.
proof fn lemma_first_in_set(e: Seq<Seq<usize>>, o: Seq<usize>, s: Set<usize>, p: int)
    requires
        is_index_order(e, o),
        forall|k: usize| #[trigger] s.contains(k) ==> o.contains(k),
        0 <= p <= o.len(),
        forall|q: int| 0 <= q < p ==> !s.contains(#[trigger] o[q]),
    ensures
        !is_closed_cycle_set(e, s),
    decreases o.len() - p,
{
    if !is_closed_cycle_set(e, s) {
    } else if p == o.len() {
        let x = choose|x: usize| s.contains(x);
        assert(o.contains(x));
        let q = choose|q: int| 0 <= q < o.len() && o[q] == x;
        assert(!s.contains(o[q]));
    } else if s.contains(o[p]) {
        let x = o[p];
        assert(requires_member(e, s, x));
        let a = choose|a: int| 0 <= a < e[x as int].len() && s.contains(e[x as int][a]);
        let r = e[o[p] as int][a];
        assert(listed_before(o, p, r));
        let q = choose|q: int| 0 <= q < p && o[q] == r;
        assert(!s.contains(o[q]));
    } else {
        lemma_first_in_set(e, o, s, p + 1);
    }
}

/// A duplicate-free list of nodes below `n` has at most `n` entries.
proof fn lemma_len_bound(n: nat, q: Seq<usize>)
    requires
        q.no_duplicates(),
        n <= usize::MAX,
        forall|k: int| 0 <= k < q.len() ==> q[k] < n,
    ensures
        q.len() <= n,
{
    let full = Set::new(|i: usize| i < n);
    lemma_usize_range_len(n);
    q.unique_seq_to_set();
    assert(q.to_set().subset_of(full));
    lemma_len_subset(q.to_set(), full);
}

/// A node that occurs in neither `queue` nor its complement is impossible:
/// if `queue` is shorter than the graph, some node is missing from it.
proof fn lemma_some_node_missing(n: nat, q: Seq<usize>) -> (x: usize)
    requires
        q.no_duplicates(),
        q.len() < n,
        n <= usize::MAX,
        forall|k: int| 0 <= k < q.len() ==> q[k] < n,
    ensures
        x < n,
        !q.contains(x),
{
    let full = Set::new(|i: usize| i < n);
    lemma_usize_range_len(n);
    q.unique_seq_to_set();
    vstd::seq_lib::seq_to_set_is_finite(q);
    if forall|x: usize| x < n ==> q.contains(x) {
        assert(full.subset_of(q.to_set()));
        lemma_len_subset(full, q.to_set());
        assert(false);
    }
    choose|x: usize| x < n && !q.contains(x)
}

/// Orders the nodes of an index graph so that each node follows every node it
/// requires. Returns `None` exactly when some node lists a requirement twice or
/// the requirements form a cycle.
pub fn kahn_order(adj: &Vec<Vec<usize>>) -> (r: Option<Vec<usize>>)
    requires
        edges_in_range(edges_view(adj@)),
    ensures
        match r {
            Some(o) => is_index_order(edges_view(adj@), o@),
            None => has_repeated_edge(edges_view(adj@)) || has_cycle(edges_view(adj@)),
        },
        r is Some <==> !has_repeated_edge(edges_view(adj@)) && !has_cycle(edges_view(adj@)),
{
    let n = adj.len();
    let ghost e = edges_view(adj@);
    let mut deg: Vec<usize> = Vec::new();
    for i in 0..n
        invariant
            n == adj.len(),
            e == edges_view(adj@),
            deg.len() == i,
            forall|k: int| 0 <= k < i ==> deg[k] == e[k].len(),
    {
        deg.push(adj[i].len());
    }
    let mut queue: Vec<usize> = Vec::new();
    for i in 0..n
        invariant
            n == adj.len(),
            e == edges_view(adj@),
            deg.len() == n,
            forall|k: int| 0 <= k < n ==> deg[k] == e[k].len(),
            queue@.no_duplicates(),
            forall|k: int| 0 <= k < queue.len() ==> queue[k] < i,
            forall|x: usize| x < n ==> (queue@.contains(x) <==> (x < i && deg[x as int] == 0)),
            forall|k: int| 0 <= k < queue.len() ==> e[queue[k] as int].len() == 0,
    {
        let ghost q_before = queue@;
        if deg[i] == 0 {
            queue.push(i);
        }
        proof {
            assert forall|x: usize| x < n implies (queue@.contains(x) <==> (x < i + 1 && deg[x as int] == 0)) by {
                vstd::seq_lib::lemma_seq_contains_after_push(q_before, i, x);
            }
        }
    }
    proof {
        lemma_len_bound(n as nat, queue@);
    }
    proof {
        assert forall|x: int| 0 <= x < n implies deg[x] == e[x].len() - distinct_hits(
            e[x],
            queue@.subrange(0, 0).to_set(),
        ) by {
            assert(queue@.subrange(0, 0).to_set() =~= Set::<usize>::empty());
            assert(e[x].to_set().intersect(Set::<usize>::empty()) =~= Set::<usize>::empty());
        }
    }
    let mut head: usize = 0;
    while head < queue.len()
        invariant
            n == adj.len(),
            e == edges_view(adj@),
            edges_in_range(e),
            deg.len() == n,
            head <= queue.len() <= n,
            queue@.no_duplicates(),
            forall|k: int| 0 <= k < queue.len() ==> queue[k] < n,
            forall|x: int|
                0 <= x < n ==> deg[x] == e[x].len() - distinct_hits(
                    e[x],
                    queue@.subrange(0, head as int).to_set(),
                ),
            forall|x: usize| x < n ==> (queue@.contains(x) <==> deg[x as int] == 0),
            requirements_listed_earlier(e, queue@, queue.len() as int),
        decreases n - head,
    {
        let cur = queue[head];
        let ghost p_old = queue@.subrange(0, head as int).to_set();
        let ghost p_new = p_old.insert(cur);
        let ghost q_old = queue@;
        proof {
            assert(!p_old.contains(cur)) by {
                if p_old.contains(cur) {
                    let m = choose|m: int| 0 <= m < head && queue[m] == cur;
                    assert(queue@[m] == queue@[head as int]);
                }
            }
            assert(queue@.subrange(0, head + 1).to_set() =~= p_new) by {
                assert(queue@.subrange(0, head + 1) =~= queue@.subrange(0, head as int).push(cur));
                vstd::seq_lib::lemma_seq_contains_after_push(queue@.subrange(0, head as int), cur, cur);
                assert forall|y: usize| p_new.contains(y) <==> queue@.subrange(0, head + 1).contains(y) by {
                    vstd::seq_lib::lemma_seq_contains_after_push(queue@.subrange(0, head as int), cur, y);
                }
            }
        }
        let mut other: usize = 0;
        while other < n
            invariant
                n == adj.len(),
                e == edges_view(adj@),
                edges_in_range(e),
                deg.len() == n,
                head < q_old.len() <= queue.len() <= n,
                cur == q_old[head as int],
                p_old == q_old.subrange(0, head as int).to_set(),
                p_new == p_old.insert(cur),
                !p_old.contains(cur),
                other <= n,
                queue@.subrange(0, q_old.len() as int) == q_old,
                queue@.no_duplicates(),
                forall|k: int| 0 <= k < queue.len() ==> queue[k] < n,
                forall|k: int| q_old.len() <= k < queue.len() ==> queue[k] < other,
                forall|x: int|
                    0 <= x < other ==> deg[x] == e[x].len() - distinct_hits(e[x], p_new),
                forall|x: int|
                    other <= x < n ==> deg[x] == e[x].len() - distinct_hits(e[x], p_old),
                forall|x: usize| x < n ==> (queue@.contains(x) <==> deg[x as int] == 0),
                requirements_listed_earlier(e, q_old, q_old.len() as int),
                forall|k: int, a: int|
                    q_old.len() <= k < queue.len() && 0 <= a < e[queue[k] as int].len()
                        ==> #[trigger] p_new.contains(e[queue[k] as int][a]),
            decreases n - other,
        {
            let row = &adj[other];
            let mut found = false;
            let mut j: usize = 0;
            while j < row.len()
                invariant
                    row@ == e[other as int],
                    j <= row.len(),
                    found <==> exists|a: int| 0 <= a < j && row@[a] == cur,
                decreases row.len() - j,
            {
                if row[j] == cur {
                    found = true;
                }
                j += 1;
            }
            let ghost x = other as int;
            proof {
                lemma_hits_insert(e[x], p_old, cur);
                lemma_hits_bound(e[x], p_new);
                assert(found <==> e[x].contains(cur));
            }
            if found {
                let d = deg[other] - 1;
                proof {
                    assert(!queue@.contains(other));
                }
                deg.set(other, d);
                if d == 0 {
                    proof {
                        lemma_hits_full(e[x], p_new);
                    }
                    let ghost q_before = queue@;
                    queue.push(other);
                    proof {
                        lemma_len_bound(n as nat, queue@);
                        assert forall|y: usize| y < n implies (queue@.contains(y) <==> deg[y as int] == 0) by {
                            vstd::seq_lib::lemma_seq_contains_after_push(q_before, other, y);
                        }
                        assert(queue@.subrange(0, q_old.len() as int) =~= q_before.subrange(0, q_old.len() as int));
                    }
                }
            }
            other += 1;
        }
        proof {
            lemma_len_bound(n as nat, queue@);
            assert forall|k: int, a: int|
                0 <= k < queue.len() && 0 <= a < e[queue[k] as int].len() implies listed_before(
                    queue@,
                    k,
                    #[trigger] e[queue[k] as int][a],
                ) by {
                if k < q_old.len() {
                    assert(queue@[k] == q_old[k]);
                    let r = e[q_old[k] as int][a];
                    assert(listed_before(q_old, k, r));
                    let m = choose|m: int| 0 <= m < k && q_old[m] == r;
                    assert(queue@[m] == q_old[m]);
                } else {
                    let r = e[queue[k] as int][a];
                    assert(p_new.contains(r));
                    let pre = queue@.subrange(0, head + 1);
                    assert(pre.contains(r));
                    let m = choose|m: int| 0 <= m < pre.len() && #[trigger] pre[m] == r;
                    assert(queue[m] == r);
                }
            }
            assert(queue@.subrange(0, head + 1) =~= q_old.subrange(0, head + 1));
        }
        head += 1;
    }
    let ghost pf = queue@.subrange(0, head as int).to_set();
    proof {
        assert(queue@.subrange(0, head as int) =~= queue@);
    }
    if queue.len() == n {
        proof {
            assert(is_index_order(e, queue@));
            assert forall|i: int, a: int, b: int|
                0 <= i < e.len() && 0 <= a < b < e[i].len() implies e[i][a] != e[i][b] by {
                lemma_all_nodes_listed(e, queue@, i as usize);
                lemma_hits_bound(e[i], pf);
                lemma_hits_full(e[i], pf);
            }
            assert forall|s: Set<usize>| !is_closed_cycle_set(e, s) by {
                lemma_order_excludes_cycles(e, queue@, s);
            }
        }
        Some(queue)
    } else {
        proof {
            if !has_repeated_edge(e) {
                let rest = Set::new(|x: usize| x < n && !queue@.contains(x));
                let w = lemma_some_node_missing(n as nat, queue@);
                assert(rest.contains(w));
                assert forall|x: usize| rest.contains(x) implies #[trigger] requires_member(e, rest, x) by {
                    assert(e[x as int].no_duplicates()) by {
                        assert forall|a: int, b: int|
                            0 <= a < e[x as int].len() && 0 <= b < e[x as int].len() && a != b implies e[x as int][a] != e[x as int][b] by {
                            if a < b {
                            } else {
                            }
                        }
                    }
                    lemma_hits_bound(e[x as int], pf);
                    let a = lemma_hits_missing(e[x as int], pf);
                    assert(e[x as int][a] < n);
                    assert(!queue@.contains(e[x as int][a]));
                    assert(rest.contains(e[x as int][a]));
                }
                assert(is_closed_cycle_set(e, rest));
            }
        }
        None
    }
}

// ---------------------------------------------------------------------------
// Name-level graph: each mod id maps to the ids it requires.
// ---------------------------------------------------------------------------

pub open spec fn strings_view(v: Seq<String>) -> Seq<Seq<char>> {
    v.map_values(|s: String| s@)
}

/// Mod `x` requires some member of `s`.
pub open spec fn requires_one_of(g: Map<Seq<char>, Seq<Seq<char>>>, s: Set<Seq<char>>, x: Seq<char>) -> bool {
    exists|a: int| 0 <= a < g[x].len() && s.contains(g[x][a])
}

/// A nonempty set of mods of the graph in which every member requires another member.
pub open spec fn is_requirement_cycle(g: Map<Seq<char>, Seq<Seq<char>>>, s: Set<Seq<char>>) -> bool {
    &&& exists|x: Seq<char>| s.contains(x)
    &&& forall|x: Seq<char>| #[trigger] s.contains(x) ==> g.dom().contains(x)
    &&& forall|x: Seq<char>| s.contains(x) ==> #[trigger] requires_one_of(g, s, x)
}

pub open spec fn has_requirement_cycle(g: Map<Seq<char>, Seq<Seq<char>>>) -> bool {
    exists|s: Set<Seq<char>>| is_requirement_cycle(g, s)
}

/// `x` occurs among the first `k` entries of `o`.
pub open spec fn name_listed_before(o: Seq<Seq<char>>, k: int, x: Seq<char>) -> bool {
    exists|m: int| 0 <= m < k && o[m] == x
}

/// `o` lists every mod of the graph exactly once, each after every mod of the graph it requires.
pub open spec fn is_load_order(g: Map<Seq<char>, Seq<Seq<char>>>, o: Seq<Seq<char>>) -> bool {
    &&& o.no_duplicates()
    &&& forall|x: Seq<char>| #[trigger] o.contains(x) <==> g.dom().contains(x)
    &&& forall|p: int, a: int|
        0 <= p < o.len() && 0 <= a < g[o[p]].len() && g.dom().contains(g[o[p]][a])
            ==> name_listed_before(o, p, #[trigger] g[o[p]][a])
}

/// The requirement graph of a set of mods: each mod id with the ids it requires.
/// Ids are unique; inserting an id that is present replaces its requirements.
pub struct RequirementGraph {
    entries: Vec<(String, Vec<String>)>,
}

impl RequirementGraph {
    pub closed spec fn key(self, i: int) -> Seq<char> {
        self.entries@[i].0@
    }

    pub closed spec fn reqs(self, i: int) -> Seq<Seq<char>> {
        strings_view(self.entries@[i].1@)
    }

    pub closed spec fn size(self) -> nat {
        self.entries@.len()
    }

    #[verifier::type_invariant]
    closed spec fn keys_distinct(self) -> bool {
        forall|i: int, j: int| 0 <= i < j < self.entries@.len() ==> self.key(i) != self.key(j)
    }

    closed spec fn index_of_key(self, k: Seq<char>) -> int {
        choose|i: int| 0 <= i < self.entries@.len() && self.key(i) == k
    }

    pub closed spec fn as_map(self) -> Map<Seq<char>, Seq<Seq<char>>> {
        Map::new(
            |k: Seq<char>| exists|i: int| 0 <= i < self.entries@.len() && self.key(i) == k,
            |k: Seq<char>| self.reqs(self.index_of_key(k)),
        )
    }

    proof fn lemma_entry(self, i: int)
        requires
            self.keys_distinct(),
            0 <= i < self.entries@.len(),
        ensures
            self.as_map().dom().contains(self.key(i)),
            self.as_map()[self.key(i)] == self.reqs(i),
    {
        assert(self.as_map().dom().contains(self.key(i)));
        let j = self.index_of_key(self.key(i));
        assert(self.key(j) == self.key(i));
        if j != i {
            if j < i {
            } else {
            }
        }
    }

    proof fn lemma_dom(self, k: Seq<char>)
        requires
            self.as_map().dom().contains(k),
        ensures
            0 <= self.index_of_key(k) < self.entries@.len(),
            self.key(self.index_of_key(k)) == k,
    {
    }

    /// An empty graph.
    pub fn new() -> (g: Self)
        ensures
            g@ == Map::<Seq<char>, Seq<Seq<char>>>::empty(),
    {
        let g = RequirementGraph { entries: Vec::new() };
        assert(g.as_map() =~= Map::<Seq<char>, Seq<Seq<char>>>::empty());
        g
    }

    /// Number of mods in the graph.
    pub fn len(&self) -> (n: usize)
        ensures
            n == self@.dom().len(),
    {
        proof {
            use_type_invariant(self);
            self.lemma_dom_len();
        }
        self.entries.len()
    }

    proof fn lemma_dom_len(self)
        requires
            self.keys_distinct(),
        ensures
            self.as_map().dom().finite(),
            self.as_map().dom().len() == self.entries@.len(),
    {
        let ks = Seq::new(self.entries@.len(), |i: int| self.key(i));
        assert(ks.no_duplicates());
        ks.unique_seq_to_set();
        assert(ks.to_set() =~= self.as_map().dom()) by {
            assert forall|k: Seq<char>| ks.to_set().contains(k) <==> self.as_map().dom().contains(k) by {
                if self.as_map().dom().contains(k) {
                    let i = self.index_of_key(k);
                    assert(ks[i] == k);
                }
            }
        }
        vstd::seq_lib::seq_to_set_is_finite(ks);
    }

    /// Position of `id` among the entries, if present.
    fn position(&self, id: &String) -> (r: Option<usize>)
        ensures
            match r {
                Some(i) => i < self.entries@.len() && self.key(i as int) == id@,
                None => forall|j: int| 0 <= j < self.entries@.len() ==> self.key(j) != id@,
            },
    {
        let n = self.entries.len();
        let mut i: usize = 0;
        while i < n
            invariant
                n == self.entries.len(),
                i <= n,
                forall|j: int| 0 <= j < i ==> self.key(j) != id@,
            decreases n - i,
        {
            if self.entries[i].0 == *id {
                return Some(i);
            }
            i += 1;
        }
        None
    }

    /// Sets the requirements of `id`, replacing any it had.
    pub fn insert(&mut self, id: String, reqs: Vec<String>)
        ensures
            final(self)@ == old(self)@.insert(id@, strings_view(reqs@)),
    {
        proof {
            use_type_invariant(&*self);
        }
        let ghost before = *self;
        let pos = self.position(&id);
        let mut entries: Vec<(String, Vec<String>)> = Vec::new();
        std::mem::swap(&mut entries, &mut self.entries);
        let ghost last: int = match pos {
            Some(i) => i as int,
            None => before.entries@.len() as int,
        };
        match pos {
            Some(i) => {
                entries.set(i, (id, reqs));
            },
            None => {
                entries.push((id, reqs));
            },
        }
        proof {
            let after = RequirementGraph { entries };
            assert forall|a: int, b: int| 0 <= a < b < entries@.len() implies entries@[a].0@
                != entries@[b].0@ by {
                if a != last && b != last {
                    assert(before.key(a) != before.key(b));
                } else if a == last {
                    if b < before.entries@.len() {
                        assert(before.key(b) == entries@[b].0@);
                    }
                } else {
                    assert(before.key(a) == entries@[a].0@);
                }
            }
            assert(after.keys_distinct());
            after.lemma_entry(last);
            assert(after.as_map() =~= before.as_map().insert(after.key(last), after.reqs(last))) by {
                assert forall|k: Seq<char>| #[trigger] after.as_map().dom().contains(k) implies
                    before.as_map().dom().contains(k) || k == after.key(last) by {
                    let j = after.index_of_key(k);
                    if j != last {
                        assert(before.key(j) == k);
                    }
                }
                assert forall|k: Seq<char>| #[trigger] before.as_map().dom().contains(k) implies
                    after.as_map().dom().contains(k) by {
                    let j = before.index_of_key(k);
                    assert(after.key(j) == k);
                }
                assert forall|k: Seq<char>| #[trigger] after.as_map().dom().contains(k) && k != after.key(last)
                    implies after.as_map()[k] == before.as_map()[k] by {
                    let j = after.index_of_key(k);
                    let jb = before.index_of_key(k);
                    assert(before.key(jb) == k);
                    assert(after.key(jb) == k);
                    if j != jb {
                        if j < jb {
                        } else {
                        }
                    }
                }
            }
        }
        self.entries = entries;
    }
}

/// Position `b` is one of the recorded positions.
pub open spec fn position_recorded(pos: Seq<int>, b: int) -> bool {
    exists|a: int| 0 <= a < pos.len() && pos[a] == b
}

impl RequirementGraph {
    /// `x` is one of the graph's ids.
    pub closed spec fn has_key(self, x: Seq<char>) -> bool {
        exists|j: int| 0 <= j < self.entries@.len() && self.key(j) == x
    }

    /// For a list of required ids, the indices of those that are mods of the graph,
    /// in list order, together with the list position each index came from.
    fn in_graph_indices(&self, reqs: &Vec<String>) -> (r: (Vec<usize>, Ghost<Seq<int>>))
        ensures
            r.0@.len() == r.1@.len(),
            forall|a: int|
                0 <= a < r.0@.len() ==> 0 <= #[trigger] r.1@[a] < reqs@.len() && r.0@[a]
                    < self.entries@.len() && self.key(r.0@[a] as int) == reqs@[r.1@[a]]@,
            forall|a1: int, a2: int| 0 <= a1 < a2 < r.1@.len() ==> r.1@[a1] < r.1@[a2],
            forall|b: int|
                0 <= b < reqs@.len() && self.has_key(reqs@[b]@) ==> #[trigger] position_recorded(r.1@, b),
    {
        let mut out: Vec<usize> = Vec::new();
        let ghost mut pos: Seq<int> = Seq::empty();
        let n = reqs.len();
        for b in 0..n
            invariant
                n == reqs.len(),
                out@.len() == pos.len(),
                forall|a: int|
                    0 <= a < out@.len() ==> 0 <= #[trigger] pos[a] < b && out@[a] < self.entries@.len()
                        && self.key(out@[a] as int) == reqs@[pos[a]]@,
                forall|a1: int, a2: int| 0 <= a1 < a2 < pos.len() ==> pos[a1] < pos[a2],
                forall|c: int|
                    0 <= c < b && self.has_key(reqs@[c]@) ==> #[trigger] position_recorded(pos, c),
        {
            match self.position(&reqs[b]) {
                Some(j) => {
                    out.push(j);
                    proof {
                        let old_pos = pos;
                        pos = pos.push(b as int);
                        assert forall|c: int|
                            0 <= c < b + 1 && self.has_key(reqs@[c]@) implies #[trigger] position_recorded(pos, c) by {
                            if c < b {
                                assert(position_recorded(old_pos, c));
                                let a = choose|a: int| 0 <= a < old_pos.len() && old_pos[a] == c;
                                assert(pos[a] == c);
                            } else {
                                assert(pos[pos.len() - 1] == c);
                            }
                        }
                    }
                },
                None => {
                    proof {
                        assert forall|c: int|
                            0 <= c < b + 1 && self.has_key(reqs@[c]@) implies #[trigger] position_recorded(pos, c) by {
                            if c == b {
                                let j = choose|j: int| 0 <= j < self.entries@.len() && self.key(j) == reqs@[c]@;
                                assert(self.key(j) != reqs@[b as int]@);
                            }
                        }
                    }
                },
            }
        }
        (out, Ghost(pos))
    }
}

/// The entries of `v`, each once, in the order they first occur.
fn distinct_entries(v: &Vec<usize>) -> (r: Vec<usize>)
    ensures
        r@.no_duplicates(),
        forall|x: usize| #[trigger] r@.contains(x) <==> v@.contains(x),
{
    let mut out: Vec<usize> = Vec::new();
    let n = v.len();
    for i in 0..n
        invariant
            n == v.len(),
            out@.no_duplicates(),
            forall|x: usize| #[trigger] out@.contains(x) <==> v@.take(i as int).contains(x),
    {
        let ghost before = out@;
        proof {
            assert(v@.take(i + 1) =~= v@.take(i as int).push(v@[i as int]));
            assert forall|x: usize| #[trigger] v@.take(i + 1).contains(x) <==> (v@.take(i as int).contains(x) || x == v@[i as int]) by {
                vstd::seq_lib::lemma_seq_contains_after_push(v@.take(i as int), v@[i as int], x);
            }
        }
        let mut seen = false;
        let m = out.len();
        for j in 0..m
            invariant
                m == out.len(),
                out@ == before,
                i < v.len(),
                seen <==> exists|k: int| 0 <= k < j && out@[k] == v@[i as int],
        {
            if out[j] == v[i] {
                seen = true;
            }
        }
        if !seen {
            out.push(v[i]);
            proof {
                assert forall|x: usize| #[trigger] out@.contains(x) <==> (before.contains(x) || x == v@[i as int]) by {
                    vstd::seq_lib::lemma_seq_contains_after_push(before, v@[i as int], x);
                }
                assert forall|a: int, b: int| 0 <= a < out@.len() && 0 <= b < out@.len() && a != b implies out@[a] != out@[b] by {
                    if a == before.len() {
                        assert(out@[b] == before[b]);
                    } else if b == before.len() {
                        assert(out@[a] == before[a]);
                    }
                }
            }
        }
    }
    proof {
        assert(v@.take(n as int) =~= v@);
    }
    out
}

/// The graph with each node's requirements listed once each.
fn distinct_rows(adj: &Vec<Vec<usize>>) -> (r: Vec<Vec<usize>>)
    ensures
        r@.len() == adj@.len(),
        forall|i: int| 0 <= i < r@.len() ==> (#[trigger] r@[i])@.no_duplicates(),
        forall|i: int, x: usize| 0 <= i < r@.len() ==> (#[trigger] r@[i]@.contains(x) <==> adj@[i]@.contains(x)),
{
    let mut out: Vec<Vec<usize>> = Vec::new();
    let n = adj.len();
    for i in 0..n
        invariant
            n == adj.len(),
            out@.len() == i,
            forall|k: int| 0 <= k < i ==> (#[trigger] out@[k])@.no_duplicates(),
            forall|k: int, x: usize| 0 <= k < i ==> (#[trigger] out@[k]@.contains(x) <==> adj@[k]@.contains(x)),
    {
        out.push(distinct_entries(&adj[i]));
    }
    out
}

/// Listing requirements once each changes neither the cycles nor the orders.
proof fn lemma_same_rows(e: Seq<Seq<usize>>, f: Seq<Seq<usize>>)
    requires
        e.len() == f.len(),
        forall|i: int, x: usize| 0 <= i < e.len() ==> (#[trigger] f[i].contains(x) <==> e[i].contains(x)),
        forall|i: int| 0 <= i < f.len() ==> (#[trigger] f[i]).no_duplicates(),
        edges_in_range(e),
    ensures
        edges_in_range(f),
        !has_repeated_edge(f),
        has_cycle(f) <==> has_cycle(e),
        forall|o: Seq<usize>| is_index_order(f, o) ==> is_index_order(e, o),
{
    assert forall|i: int, a: int| 0 <= i < f.len() && 0 <= a < f[i].len() implies (#[trigger] f[i][a]) < f.len() by {
        assert(f[i].contains(f[i][a]));
        let b = choose|b: int| 0 <= b < e[i].len() && e[i][b] == f[i][a];
        assert(e[i][b] < e.len());
    }
    if has_repeated_edge(f) {
        let (i, a, b) = choose|i: int, a: int, b: int|
            0 <= i < f.len() && 0 <= a < b < f[i].len() && #[trigger] f[i][a] == #[trigger] f[i][b];
        assert(f[i].no_duplicates());
    }
    assert forall|s: Set<usize>, x: usize|
        #![trigger requires_member(f, s, x)]
        #![trigger requires_member(e, s, x)]
        x < e.len() implies (requires_member(f, s, x) <==> requires_member(e, s, x)) by {
        if requires_member(f, s, x) {
            let a = choose|a: int| 0 <= a < f[x as int].len() && s.contains(f[x as int][a]);
            assert(f[x as int].contains(f[x as int][a]));
            let b = choose|b: int| 0 <= b < e[x as int].len() && e[x as int][b] == f[x as int][a];
            assert(s.contains(e[x as int][b]));
        }
        if requires_member(e, s, x) {
            let a = choose|a: int| 0 <= a < e[x as int].len() && s.contains(e[x as int][a]);
            assert(e[x as int].contains(e[x as int][a]));
            assert(f[x as int].contains(e[x as int][a]));
            let b = choose|b: int| 0 <= b < f[x as int].len() && f[x as int][b] == e[x as int][a];
            assert(s.contains(f[x as int][b]));
        }
    }
    if has_cycle(f) {
        let s = choose|s: Set<usize>| is_closed_cycle_set(f, s);
        assert(is_closed_cycle_set(e, s));
    }
    if has_cycle(e) {
        let s = choose|s: Set<usize>| is_closed_cycle_set(e, s);
        assert(is_closed_cycle_set(f, s));
    }
    assert forall|o: Seq<usize>| is_index_order(f, o) implies is_index_order(e, o) by {
        assert forall|p: int, a: int| 0 <= p < o.len() && 0 <= a < e[o[p] as int].len() implies listed_before(
            o,
            p,
            #[trigger] e[o[p] as int][a],
        ) by {
            assert(o[p] < e.len());
            assert(e[o[p] as int].contains(e[o[p] as int][a]));
            assert(f[o[p] as int].contains(e[o[p] as int][a]));
            let b = choose|b: int| 0 <= b < f[o[p] as int].len() && f[o[p] as int][b] == e[o[p] as int][a];
            assert(requirements_listed_earlier(f, o, o.len() as int));
            assert(listed_before(o, p, f[o[p] as int][b]));
        }
    }
}

/// Orders the mods of `graph` so that each comes after every mod of the graph it
/// requires (requirements outside the graph are ignored; one listed twice counts
/// once). Fails with a `CircularDependency` error exactly when no such order
/// exists, that is when some mods require one another in a cycle.
pub fn topo_sort(graph: &RequirementGraph) -> (r: Result<Vec<String>, AppError>)
    ensures
        r is Ok <==> !has_requirement_cycle(graph@),
        r matches Ok(o) ==> is_load_order(graph@, strings_view(o@)),
        r matches Err(e) ==> e matches AppError::CircularDependency(m) && m@ == "cycle in requirements"@,
{
    proof {
        use_type_invariant(graph);
    }
    let n = graph.entries.len();
    let mut adj: Vec<Vec<usize>> = Vec::new();
    let ghost mut pos: Seq<Seq<int>> = Seq::empty();
    for i in 0..n
        invariant
            n == graph.entries.len(),
            adj@.len() == i,
            pos.len() == i,
            forall|k: int| 0 <= k < i ==> (#[trigger] adj@[k])@.len() == pos[k].len(),
            forall|k: int, a: int|
                0 <= k < i && 0 <= a < adj@[k]@.len() ==> 0 <= #[trigger] pos[k][a] < graph.entries@[k].1@.len()
                    && adj@[k]@[a] < n && graph.key(adj@[k]@[a] as int) == graph.entries@[k].1@[pos[k][a]]@,
            forall|k: int, a1: int, a2: int| 0 <= k < i && 0 <= a1 < a2 < pos[k].len() ==> #[trigger] pos[k][a1] < #[trigger] pos[k][a2],
            forall|k: int, b: int|
                0 <= k < i && 0 <= b < graph.entries@[k].1@.len() && graph.has_key(graph.entries@[k].1@[b]@)
                    ==> #[trigger] position_recorded(pos[k], b),
    {
        let (row, Ghost(rp)) = graph.in_graph_indices(&graph.entries[i].1);
        let ghost old_adj = adj@;
        let ghost old_pos = pos;
        let ghost row_v = row@;
        adj.push(row);
        proof {
            pos = pos.push(rp);
            assert forall|k: int, a: int|
                0 <= k < i + 1 && 0 <= a < adj@[k]@.len() implies 0 <= #[trigger] pos[k][a]
                    < graph.entries@[k].1@.len() && adj@[k]@[a] < n && graph.key(adj@[k]@[a] as int)
                    == graph.entries@[k].1@[pos[k][a]]@ by {
                if k < i {
                    assert(adj@[k] == old_adj[k]);
                    assert(pos[k] == old_pos[k]);
                    assert(0 <= old_pos[k][a]);
                } else {
                    assert(adj@[k]@ == row_v);
                    assert(pos[k] == rp);
                    assert(0 <= rp[a]);
                }
            }
        }
    }
    let ghost e = edges_view(adj@);
    proof {
        assert forall|i: int, a: int| 0 <= i < e.len() && 0 <= a < e[i].len() implies (#[trigger] e[i][a])
            < e.len() by {
            assert(e[i] == adj@[i]@);
            assert(0 <= pos[i][a]);
            assert(adj@[i]@[a] < n);
        }
    }
    let rows = distinct_rows(&adj);
    proof {
        lemma_same_rows(e, edges_view(rows@));
    }
    let res = kahn_order(&rows);
    proof {
        let g = graph@;
        // cycles agree
        assert(has_cycle(e) <==> has_requirement_cycle(g)) by {
            if has_cycle(e) {
                let s = choose|s: Set<usize>| is_closed_cycle_set(e, s);
                let t = Set::new(|x: Seq<char>| exists|j: usize| s.contains(j) && graph.key(j as int) == x);
                let j0 = choose|x: usize| s.contains(x);
                assert(t.contains(graph.key(j0 as int)));
                assert forall|x: Seq<char>| #[trigger] t.contains(x) implies g.dom().contains(x) by {
                    let j = choose|j: usize| s.contains(j) && graph.key(j as int) == x;
                    graph.lemma_entry(j as int);
                }
                assert forall|x: Seq<char>| t.contains(x) implies #[trigger] requires_one_of(g, t, x) by {
                    let j = choose|j: usize| s.contains(j) && graph.key(j as int) == x;
                    graph.lemma_entry(j as int);
                    assert(requires_member(e, s, j));
                    let a = choose|a: int| 0 <= a < e[j as int].len() && s.contains(e[j as int][a]);
                    let b = pos[j as int][a];
                    assert(t.contains(graph.key(e[j as int][a] as int)));
                    assert(g[x][b] == graph.key(e[j as int][a] as int));
                }
                assert(is_requirement_cycle(g, t));
            }
            if has_requirement_cycle(g) {
                let t = choose|t: Set<Seq<char>>| is_requirement_cycle(g, t);
                let s = Set::new(|j: usize| j < n && t.contains(graph.key(j as int)));
                let x0 = choose|x: Seq<char>| t.contains(x);
                graph.lemma_dom(x0);
                let j0 = graph.index_of_key(x0);
                assert(s.contains(j0 as usize));
                assert forall|j: usize| s.contains(j) implies #[trigger] requires_member(e, s, j) by {
                    let x = graph.key(j as int);
                    graph.lemma_entry(j as int);
                    assert(requires_one_of(g, t, x));
                    let b = choose|b: int| 0 <= b < g[x].len() && t.contains(g[x][b]);
                    graph.lemma_dom(g[x][b]);
                    let jj = graph.index_of_key(g[x][b]);
                    assert(graph.entries@[j as int].1@[b]@ == g[x][b]);
                    assert(graph.has_key(graph.entries@[j as int].1@[b]@));
                    assert(position_recorded(pos[j as int], b));
                    let a = choose|a: int| 0 <= a < pos[j as int].len() && pos[j as int][a] == b;
                    assert(s.contains(e[j as int][a]));
                }
                assert(is_closed_cycle_set(e, s));
            }
        }
    }
    match res {
        Some(order) => {
            let mut names: Vec<String> = Vec::new();
            for p in 0..n
                invariant
                    n == graph.entries.len(),
                    order@.len() == n,
                    forall|q: int| 0 <= q < n ==> (#[trigger] order@[q]) < n,
                    names@.len() == p,
                    forall|q: int| 0 <= q < p ==> (#[trigger] names@[q])@ == graph.key(order@[q] as int),
            {
                names.push(graph.entries[order[p]].0.clone());
            }
            proof {
                let g = graph@;
                let o = strings_view(names@);
                assert forall|a: int, b: int| 0 <= a < o.len() && 0 <= b < o.len() && a != b implies o[a] != o[b] by {
                    assert(order@[a] != order@[b]);
                    if order@[a] < order@[b] {
                    } else {
                    }
                }
                assert forall|x: Seq<char>| #[trigger] o.contains(x) <==> g.dom().contains(x) by {
                    if o.contains(x) {
                        let q = choose|q: int| 0 <= q < o.len() && o[q] == x;
                        graph.lemma_entry(order@[q] as int);
                    }
                    if g.dom().contains(x) {
                        graph.lemma_dom(x);
                        let j = graph.index_of_key(x);
                        lemma_all_nodes_listed(e, order@, j as usize);
                        let q = choose|q: int| 0 <= q < order@.len() && order@[q] == j as usize;
                        assert(o[q] == x);
                    }
                }
                assert forall|p: int, a: int|
                    0 <= p < o.len() && 0 <= a < g[o[p]].len() && g.dom().contains(g[o[p]][a])
                        implies name_listed_before(o, p, #[trigger] g[o[p]][a]) by {
                    let i = order@[p] as int;
                    graph.lemma_entry(i);
                    assert(o[p] == graph.key(i));
                    let r = g[o[p]][a];
                    graph.lemma_dom(r);
                    assert(graph.entries@[i].1@[a]@ == r);
                    assert(graph.has_key(graph.entries@[i].1@[a]@));
                    assert(position_recorded(pos[i], a));
                    let x = choose|x: int| 0 <= x < pos[i].len() && pos[i][x] == a;
                    let target = e[i][x];
                    assert(listed_before(order@, p, target));
                    let q = choose|q: int| 0 <= q < p && order@[q] == target;
                    assert(o[q] == r);
                }
            }
            Ok(names)
        },
        None => Err(AppError::CircularDependency(String::from_str("cycle in requirements"))),
    }
}

impl View for RequirementGraph {
    type V = Map<Seq<char>, Seq<Seq<char>>>;

    closed spec fn view(&self) -> Map<Seq<char>, Seq<Seq<char>>> {
        self.as_map()
    }
}

} // verus!
