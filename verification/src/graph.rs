//! The year-sequence graph: nodes are distinct calendar years, edges carry
//! the event count recorded in the target year.
//!
//! Nodes live in an arena indexed by insertion order; an edge names its
//! endpoints by node index. A separate lookup resolves a year to its index.

use vstd::prelude::*;

verus! {

/// A directed edge between two nodes of the arena, by node index.
#[derive(Clone, Copy, PartialEq, Eq, Structural, Debug)]
pub struct Edge {
    pub source: usize,
    pub target: usize,
    pub weight: usize,
}

/// A directed graph over calendar years: one node per distinct year, and at
/// most one edge for each ordered pair of nodes.
pub struct YearGraph {
    nodes: Vec<i32>,
    edges: Vec<Edge>,
}

/// Whether `s` holds pairwise different values.
pub open spec fn distinct_seq(s: Seq<i32>) -> bool {
    forall|i: int, j: int| 0 <= i < j < s.len() ==> s[i] != s[j]
}

/// Whether `s` is in strictly ascending order.
pub open spec fn strictly_ascending(s: Seq<i32>) -> bool {
    forall|i: int, j: int| 0 <= i < j < s.len() ==> s[i] < s[j]
}

/// Whether some entry of the year list `s` is the year `y`.
pub open spec fn years_contain(s: Seq<i32>, y: int) -> bool {
    exists|i: int| 0 <= i < s.len() && (#[trigger] s[i]) as int == y
}

/// Whether the mapping `input` supplies a count for the year `y`.
pub open spec fn input_has_year(input: Seq<(i32, usize)>, y: int) -> bool {
    exists|j: int| 0 <= j < input.len() && (#[trigger] input[j]).0 as int == y
}

/// Whether the mapping `input` names each year at most once.
pub open spec fn distinct_input_years(input: Seq<(i32, usize)>) -> bool {
    forall|i: int, j: int| 0 <= i < j < input.len() ==> input[i].0 != input[j].0
}

/// The count that the mapping `input` supplies for the year `y` (meaningful
/// only when `input_has_year(input, y)` holds).
pub open spec fn count_for(input: Seq<(i32, usize)>, y: int) -> nat {
    input[choose|j: int| 0 <= j < input.len() && (#[trigger] input[j]).0 as int == y].1 as nat
}

/// Inserting a value into a list adds exactly that value to its members.
proof fn lemma_insert_contains(s: Seq<i32>, pos: int, v: i32)
    requires
        0 <= pos <= s.len(),
    ensures
        forall|z: i32| s.insert(pos, v).contains(z) <==> (s.contains(z) || z == v),
{
    s.insert_ensures(pos, v);
    assert forall|z: i32| s.insert(pos, v).contains(z) implies (s.contains(z) || z == v) by {
        let a: int = choose|a: int|
            0 <= a < s.insert(pos, v).len() && s.insert(pos, v)[a] == z;
        if a < pos {
            assert(s[a] == z);
        } else if a > pos {
            assert(s[a - 1] == z);
        }
    }
    assert forall|z: i32| s.contains(z) || z == v implies s.insert(pos, v).contains(z) by {
        if z == v {
            assert(s.insert(pos, v)[pos] == z);
        } else {
            let k: int = choose|k: int| 0 <= k < s.len() && s[k] == z;
            if k < pos {
                assert(s.insert(pos, v)[k] == z);
            } else {
                assert(s.insert(pos, v)[k + 1] == z);
            }
        }
    }
}

/// Two year lists with the same members hold the same years.
proof fn lemma_years_contain_same_members(a: Seq<i32>, b: Seq<i32>, y: int)
    requires
        forall|z: i32| a.contains(z) <==> b.contains(z),
    ensures
        years_contain(a, y) <==> years_contain(b, y),
{
    if years_contain(a, y) {
        let i: int = choose|i: int| 0 <= i < a.len() && (#[trigger] a[i]) as int == y;
        assert(a.contains(a[i]));
        let j: int = choose|j: int| 0 <= j < b.len() && b[j] == a[i];
        assert((b[j]) as int == y);
    }
    if years_contain(b, y) {
        let i: int = choose|i: int| 0 <= i < b.len() && (#[trigger] b[i]) as int == y;
        assert(b.contains(b[i]));
        let j: int = choose|j: int| 0 <= j < a.len() && a[j] == b[i];
        assert((a[j]) as int == y);
    }
}

/// Extending a prefix of the year list by one entry adds exactly that year.
proof fn lemma_prefix_years_contain(ss: Seq<i32>, k: int, y: int)
    requires
        0 <= k < ss.len(),
    ensures
        years_contain(ss.subrange(0, k + 1), y) <==> (years_contain(ss.subrange(0, k), y) || (
        ss[k]) as int == y),
{
    if years_contain(ss.subrange(0, k + 1), y) {
        let a: int = choose|a: int|
            0 <= a < ss.subrange(0, k + 1).len() && (#[trigger] ss.subrange(0, k + 1)[a]) as int
                == y;
        if a < k {
            assert((ss.subrange(0, k)[a]) as int == y);
        } else {
            assert((ss[k]) as int == y);
        }
    }
    if years_contain(ss.subrange(0, k), y) {
        let a: int = choose|a: int|
            0 <= a < ss.subrange(0, k).len() && (#[trigger] ss.subrange(0, k)[a]) as int == y;
        assert((ss.subrange(0, k + 1)[a]) as int == y);
    }
    if (ss[k]) as int == y {
        assert((ss.subrange(0, k + 1)[k]) as int == y);
    }
}

/// Sort a list of pairwise different years into ascending order.
fn sort_distinct_years(xs: &Vec<i32>) -> (r: Vec<i32>)
    requires
        distinct_seq(xs@),
    ensures
        strictly_ascending(r@),
        r@.len() == xs@.len(),
        forall|z: i32| r@.contains(z) <==> xs@.contains(z),
{
    let mut r: Vec<i32> = Vec::new();
    let mut i: usize = 0;
    while i < xs.len()
        invariant
            i <= xs@.len(),
            distinct_seq(xs@),
            r@.len() == i,
            strictly_ascending(r@),
            forall|z: i32| r@.contains(z) <==> xs@.subrange(0, i as int).contains(z),
        decreases xs@.len() - i,
    {
        let y = xs[i];
        proof {
            // `y` is not already placed: the input years are pairwise different
            if r@.contains(y) {
                let k: int = choose|k: int|
                    0 <= k < i && xs@.subrange(0, i as int)[k] == y;
                assert(xs@[k] == xs@[i as int]);
            }
        }
        let mut j: usize = 0;
        while j < r.len() && r[j] < y
            invariant
                j <= r@.len(),
                forall|k: int| 0 <= k < j ==> r@[k] < y,
            decreases r@.len() - j,
        {
            j = j + 1;
        }
        let ghost rpre = r@;
        r.insert(j, y);
        proof {
            rpre.insert_ensures(j as int, y);
            lemma_insert_contains(rpre, j as int, y);
            assert(strictly_ascending(r@)) by {
                assert forall|a: int, b: int| 0 <= a < b < r@.len() implies r@[a] < r@[b] by {
                    if b < j {
                        assert(r@[a] == rpre[a] && r@[b] == rpre[b]);
                    } else if b == j {
                        assert(r@[a] == rpre[a] && rpre[a] < y);
                    } else if a < j {
                        assert(r@[b] == rpre[b - 1]);
                        assert(j <= b - 1 < rpre.len());
                        assert(rpre[j as int] != y);
                        assert(rpre[j as int] > y);
                        if a == b - 1 {
                        } else {
                            assert(rpre[a] < rpre[b - 1]);
                        }
                    } else if a == j {
                        assert(r@[a] == y && r@[b] == rpre[b - 1]);
                        assert(rpre[j as int] > y);
                        if b - 1 > j {
                            assert(rpre[j as int] < rpre[b - 1]);
                        }
                    } else {
                        assert(r@[a] == rpre[a - 1] && r@[b] == rpre[b - 1]);
                    }
                }
            }
            assert(xs@.subrange(0, (i + 1) as int) =~= xs@.subrange(0, i as int).push(
                xs@[i as int],
            ));
            assert(xs@.subrange(0, i as int).push(xs@[i as int]) == xs@.subrange(
                0,
                i as int,
            ).insert(i as int, xs@[i as int]));
            lemma_insert_contains(xs@.subrange(0, i as int), i as int, xs@[i as int]);
            assert forall|z: i32|
                r@.contains(z) <==> xs@.subrange(0, i as int + 1).contains(z) by {
                assert(r@.contains(z) <==> (rpre.contains(z) || z == y));
                assert(xs@.subrange(0, i as int + 1).contains(z) <==> (xs@.subrange(
                    0,
                    i as int,
                ).contains(z) || z == xs@[i as int]));
            }
        }
        i = i + 1;
    }
    proof {
        assert(xs@.subrange(0, xs@.len() as int) =~= xs@);
    }
    r
}

/// The count supplied for year `y` by a mapping with pairwise different
/// years, if the mapping names `y` at all.
fn lookup_count(input: &Vec<(i32, usize)>, y: i32) -> (r: Option<usize>)
    requires
        distinct_input_years(input@),
    ensures
        match r {
            Some(c) => input_has_year(input@, y as int) && c as nat == count_for(
                input@,
                y as int,
            ),
            None => !input_has_year(input@, y as int),
        },
{
    let mut j: usize = 0;
    while j < input.len()
        invariant
            j <= input@.len(),
            distinct_input_years(input@),
            forall|k: int| 0 <= k < j ==> (#[trigger] input@[k]).0 != y,
        decreases input@.len() - j,
    {
        if input[j].0 == y {
            proof {
                let w: int = choose|w: int|
                    0 <= w < input@.len() && (#[trigger] input@[w]).0 as int == y as int;
                if w != j as int {
                    assert(input@[w].0 == input@[j as int].0);
                }
            }
            return Some(input[j].1);
        }
        j = j + 1;
    }
    None
}

/// What one construction pass over the year mapping `input` establishes,
/// taking the graph from `pre` to `post`: every mapped year has a node, new
/// nodes follow the old ones in ascending year order, each mapped year whose
/// predecessor year has a node is reached by an edge carrying the mapped
/// count, and every other pair of years keeps its edge state.
pub open spec fn add_sorted_post(pre: YearGraph, post: YearGraph, input: Seq<(i32, usize)>) -> bool {
    &&& post.wf()
    &&& forall|y: int| post.has_year(y) <==> pre.has_year(y) || input_has_year(input, y)
    &&& post.years().len() >= pre.years().len()
    &&& forall|i: int| 0 <= i < pre.years().len() ==> post.years()[i] == pre.years()[i]
    &&& forall|a: int, b: int|
        pre.years().len() <= a < b < post.years().len() ==> post.years()[a] < post.years()[b]
    &&& forall|j: int|
        0 <= j < input.len() ==> ((pre.has_year((#[trigger] input[j]).0 as int - 1)
            || input_has_year(input, input[j].0 as int - 1)) ==> post.has_edge_between(
            input[j].0 as int - 1,
            input[j].0 as int,
        ) && post.weight_between(input[j].0 as int - 1, input[j].0 as int) == input[j].1 as nat)
    &&& forall|j: int|
        0 <= j < input.len() ==> ((!pre.has_year((#[trigger] input[j]).0 as int - 1)
            && !input_has_year(input, input[j].0 as int - 1)) ==> ((post.has_edge_between(
            input[j].0 as int - 1,
            input[j].0 as int,
        ) <==> pre.has_edge_between(input[j].0 as int - 1, input[j].0 as int)) && (
        pre.has_edge_between(input[j].0 as int - 1, input[j].0 as int) ==> post.weight_between(
            input[j].0 as int - 1,
            input[j].0 as int,
        ) == pre.weight_between(input[j].0 as int - 1, input[j].0 as int))))
    &&& forall|s: int, t: int|
        !(input_has_year(input, t) && s == t - 1) ==> ((post.has_edge_between(s, t)
            <==> pre.has_edge_between(s, t)) && (pre.has_edge_between(s, t)
            ==> post.weight_between(s, t) == pre.weight_between(s, t)))
}

/// Whether the years `s` and `t` both have nodes, `s` lies before `t`, and no
/// year strictly between them has a node.
pub open spec fn adjacent_present(g: YearGraph, s: int, t: int) -> bool {
    &&& g.has_year(s)
    &&& g.has_year(t)
    &&& s < t
    &&& forall|u: int| s < u < t ==> !g.has_year(u)
}

/// What the bridging pass establishes, taking the graph from `pre` to `post`:
/// the nodes and all existing edges are kept as they are, every pair of
/// chronologically adjacent nodes that lacked an edge is joined by one of
/// weight zero, and no other edge appears.
pub open spec fn connect_post(pre: YearGraph, post: YearGraph) -> bool {
    &&& post.wf()
    &&& post.years() == pre.years()
    &&& forall|s: int, t: int|
        pre.has_edge_between(s, t) ==> post.has_edge_between(s, t) && post.weight_between(s, t)
            == pre.weight_between(s, t)
    &&& forall|s: int, t: int|
        (#[trigger] adjacent_present(pre, s, t)) && !pre.has_edge_between(s, t)
            ==> post.has_edge_between(s, t) && post.weight_between(s, t) == 0
    &&& forall|s: int, t: int|
        post.has_edge_between(s, t) ==> pre.has_edge_between(s, t) || adjacent_present(pre, s, t)
}

/// In a well-formed graph, two years are chronologically adjacent exactly
/// when they sit side by side in the sorted list of all node years.
proof fn lemma_adjacent_iff_consecutive(g: YearGraph, ss: Seq<i32>, s: int, t: int)
    requires
        g.wf(),
        strictly_ascending(ss),
        forall|y: int| years_contain(ss, y) <==> g.has_year(y),
    ensures
        adjacent_present(g, s, t) <==> exists|j: int|
            1 <= j < ss.len() && (#[trigger] ss[j - 1]) as int == s && ss[j] as int == t,
{
    if adjacent_present(g, s, t) {
        assert(years_contain(ss, s));
        assert(years_contain(ss, t));
        let a: int = choose|a: int| 0 <= a < ss.len() && (#[trigger] ss[a]) as int == s;
        let b: int = choose|b: int| 0 <= b < ss.len() && (#[trigger] ss[b]) as int == t;
        assert(a < b) by {
            if a > b {
                assert(ss[b] < ss[a]);
            }
        }
        assert(b == a + 1) by {
            if b > a + 1 {
                assert(ss[a] < ss[a + 1]);
                assert(ss[a + 1] < ss[b]);
                assert(years_contain(ss, ss[a + 1] as int));
                assert(g.has_year(ss[a + 1] as int));
                assert(!g.has_year(ss[a + 1] as int));
            }
        }
        assert((ss[b - 1]) as int == s && ss[b] as int == t);
    }
    if exists|j: int| 1 <= j < ss.len() && (#[trigger] ss[j - 1]) as int == s && ss[j] as int
        == t {
        let j: int = choose|j: int|
            1 <= j < ss.len() && (#[trigger] ss[j - 1]) as int == s && ss[j] as int == t;
        assert(years_contain(ss, s));
        assert(years_contain(ss, t));
        assert(ss[j - 1] < ss[j]);
        assert forall|u: int| s < u < t implies !g.has_year(u) by {
            if g.has_year(u) {
                assert(years_contain(ss, u));
                let c: int = choose|c: int| 0 <= c < ss.len() && (#[trigger] ss[c]) as int == u;
                assert(j - 1 < c) by {
                    if c < j - 1 {
                        assert(ss[c] < ss[j - 1]);
                    }
                }
                assert(c < j) by {
                    if c > j {
                        assert(ss[j] < ss[c]);
                    }
                }
            }
        }
    }
}

/// Law: build a graph from nothing by one `add_sorted_years` pass over a
/// mapping and one `connect_all_years` pass; then any two node years that are
/// consecutive integers are joined by exactly one edge, and its weight is the
/// count the mapping supplies for the later year.
pub proof fn lemma_consecutive_years_share_one_edge(
    pre: YearGraph,
    mid: YearGraph,
    post: YearGraph,
    input: Seq<(i32, usize)>,
    y: int,
)
    requires
        pre.wf(),
        pre.years().len() == 0,
        distinct_input_years(input),
        add_sorted_post(pre, mid, input),
        connect_post(mid, post),
        input_has_year(input, y),
        input_has_year(input, y - 1),
    ensures
        post.has_edge_between(y - 1, y),
        post.weight_between(y - 1, y) == count_for(input, y),
        forall|k: int, l: int|
            #![trigger post.edge_seq()[k], post.edge_seq()[l]]
            post.edge_connects(k, y - 1, y) && post.edge_connects(l, y - 1, y) ==> k == l,
        !post.has_edge_between(y, y - 1),
{
    let j: int = choose|j: int| 0 <= j < input.len() && (#[trigger] input[j]).0 as int == y;
    assert(input[j].0 as int == y);
    assert(input[j].0 as int - 1 == y - 1);
    assert(mid.has_edge_between(y - 1, y) && mid.weight_between(y - 1, y)
        == input[j].1 as nat) by {
        assert(input_has_year(input, input[j].0 as int - 1));
        assert(mid.has_edge_between(input[j].0 as int - 1, input[j].0 as int));
        assert(mid.weight_between(input[j].0 as int - 1, input[j].0 as int)
            == input[j].1 as nat);
    }
    assert(count_for(input, y) == input[j].1 as nat) by {
        let w: int = choose|w: int| 0 <= w < input.len() && (#[trigger] input[w]).0 as int == y;
        if w != j {
            assert(input[w].0 == input[j].0);
        }
    }
    assert(post.has_edge_between(y - 1, y));
    assert(post.weight_between(y - 1, y) == count_for(input, y));
    assert forall|k: int, l: int|
        #![trigger post.edge_seq()[k], post.edge_seq()[l]]
        post.edge_connects(k, y - 1, y) && post.edge_connects(l, y - 1, y) implies k == l by {
        post.lemma_edge_unique(y - 1, y, k, l);
    }
    // no edge runs against the chronological direction
    assert(pre.edge_seq().len() == 0) by {
        if pre.edge_seq().len() > 0 {
            assert((pre.edge_seq()[0].source as int) < pre.years().len());
        }
    }
    assert(!pre.has_edge_between(y, y - 1));
    assert(!mid.has_edge_between(y, y - 1)) by {
        assert(!(input_has_year(input, y - 1) && y == (y - 1) - 1));
    }
    assert(!post.has_edge_between(y, y - 1)) by {
        if post.has_edge_between(y, y - 1) {
            assert(adjacent_present(mid, y, y - 1));
        }
    }
}

/// How one call that establishes the predecessor edge changes the edge list:
/// either the one edge already joining node `p` to node `idx` has its weight
/// overwritten with `count`, or, when no edge joins them yet, a fresh edge of
/// weight `count` is appended.
pub open spec fn edge_write(pre: Seq<Edge>, post: Seq<Edge>, p: usize, idx: usize, count: usize) -> bool {
    ||| (exists|k: int|
        0 <= k < pre.len() && (#[trigger] pre[k]).source == p && pre[k].target == idx && post
            == pre.update(k, (Edge { source: p, target: idx, weight: count })))
    ||| ((forall|k: int|
        0 <= k < pre.len() ==> !((#[trigger] pre[k]).source == p && pre[k].target == idx)) && post
        == pre.push((Edge { source: p, target: idx, weight: count })))
}

impl YearGraph {
    /// The years of the nodes, in node-iteration (insertion) order.
    pub closed spec fn years(&self) -> Seq<i32> {
        self.nodes@
    }

    /// The edges, in insertion order.
    pub closed spec fn edge_seq(&self) -> Seq<Edge> {
        self.edges@
    }

    /// Whether some node carries the year `y`.
    pub open spec fn has_year(&self, y: int) -> bool {
        exists|i: int| 0 <= i < self.years().len() && self.years()[i] == y
    }

    /// Whether edge `k` runs from the node for year `s` to the node for year `t`.
    pub open spec fn edge_connects(&self, k: int, s: int, t: int) -> bool {
        &&& 0 <= k < self.edge_seq().len()
        &&& (self.edge_seq()[k].source as int) < self.years().len()
        &&& (self.edge_seq()[k].target as int) < self.years().len()
        &&& self.years()[self.edge_seq()[k].source as int] == s
        &&& self.years()[self.edge_seq()[k].target as int] == t
    }

    /// Whether an edge runs from year `s`'s node to year `t`'s node.
    pub open spec fn has_edge_between(&self, s: int, t: int) -> bool {
        exists|k: int| self.edge_connects(k, s, t)
    }

    /// The weight of the edge from year `s`'s node to year `t`'s node
    /// (meaningful only when `has_edge_between(s, t)` holds).
    pub open spec fn weight_between(&self, s: int, t: int) -> nat {
        self.edge_seq()[choose|k: int| self.edge_connects(k, s, t)].weight as nat
    }

    /// Well-formedness: years are distinct and leave room for a predecessor
    /// year, edge endpoints are node indices, and no ordered pair of nodes is
    /// joined by two edges.
    pub open spec fn wf(&self) -> bool {
        &&& forall|i: int, j: int|
            0 <= i < j < self.years().len() ==> self.years()[i] != self.years()[j]
        &&& forall|i: int| 0 <= i < self.years().len() ==> (#[trigger] self.years()[i]) > i32::MIN
        &&& forall|k: int|
            0 <= k < self.edge_seq().len() ==> ((#[trigger] self.edge_seq()[k]).source as int)
                < self.years().len() && ((self.edge_seq()[k]).target as int)
                < self.years().len()
        &&& forall|k: int, l: int|
            0 <= k < l < self.edge_seq().len() ==> !((#[trigger] self.edge_seq()[k]).source
                == (#[trigger] self.edge_seq()[l]).source && (self.edge_seq()[k]).target
                == (self.edge_seq()[l]).target)
    }

    /// An empty graph: no years, no edges.
    pub fn new() -> (g: YearGraph)
        ensures
            g.wf(),
            g.years().len() == 0,
            g.edge_seq().len() == 0,
    {
        YearGraph { nodes: Vec::new(), edges: Vec::new() }
    }

    /// The number of nodes.
    pub fn node_count(&self) -> (n: usize)
        ensures
            n == self.years().len(),
    {
        self.nodes.len()
    }

    /// The number of edges.
    pub fn edge_count(&self) -> (n: usize)
        ensures
            n == self.edge_seq().len(),
    {
        self.edges.len()
    }

    /// The year of the node at index `i`.
    pub fn year_at(&self, i: usize) -> (y: i32)
        requires
            i < self.years().len(),
        ensures
            y == self.years()[i as int],
    {
        self.nodes[i]
    }

    /// The edge at index `k`.
    pub fn edge_at(&self, k: usize) -> (e: Edge)
        requires
            k < self.edge_seq().len(),
        ensures
            e == self.edge_seq()[k as int],
    {
        self.edges[k]
    }

    /// The node index of year `y`, if some node carries it.
    pub fn index_of(&self, y: i32) -> (r: Option<usize>)
        requires
            self.wf(),
        ensures
            match r {
                Some(i) => i < self.years().len() && self.years()[i as int] == y,
                None => !self.has_year(y as int),
            },
    {
        let mut i: usize = 0;
        while i < self.nodes.len()
            invariant
                i <= self.nodes.len(),
                forall|j: int| 0 <= j < i ==> self.years()[j] != y,
            decreases self.nodes.len() - i,
        {
            if self.nodes[i] == y {
                return Some(i);
            }
            i = i + 1;
        }
        None
    }

    /// The index of the edge between the nodes at indices `s` and `t`, if any.
    pub fn find_edge(&self, s: usize, t: usize) -> (r: Option<usize>)
        ensures
            match r {
                Some(k) => k < self.edge_seq().len() && self.edge_seq()[k as int].source == s
                    && self.edge_seq()[k as int].target == t,
                None => forall|k: int|
                    0 <= k < self.edge_seq().len() ==> !((#[trigger] self.edge_seq()[k]).source
                        == s && self.edge_seq()[k].target == t),
            },
    {
        let mut k: usize = 0;
        while k < self.edges.len()
            invariant
                k <= self.edges.len(),
                forall|j: int|
                    0 <= j < k ==> !((#[trigger] self.edge_seq()[j]).source == s
                        && self.edge_seq()[j].target == t),
            decreases self.edges.len() - k,
        {
            if self.edges[k].source == s && self.edges[k].target == t {
                return Some(k);
            }
            k = k + 1;
        }
        None
    }

    /// In a well-formed graph, at most one edge joins a given ordered pair of
    /// years.
    pub proof fn lemma_edge_unique(&self, s: int, t: int, k: int, l: int)
        requires
            self.wf(),
            self.edge_connects(k, s, t),
            self.edge_connects(l, s, t),
        ensures
            k == l,
    {
        if k != l {
            assert(self.years()[self.edge_seq()[k].source as int]
                == self.years()[self.edge_seq()[l].source as int]);
            assert(self.edge_seq()[k].source == self.edge_seq()[l].source);
            assert(self.edge_seq()[k].target == self.edge_seq()[l].target);
        }
    }

    /// After writing the edge for `(year - 1, year)` into `mid` (either by
    /// overwriting the weight of the edge at some index, or by appending a
    /// fresh edge), the graph is still well formed, carries that edge with
    /// weight `count`, and agrees with `orig` on every other pair of years.
    proof fn lemma_after_edge_write(
        &self,
        mid: YearGraph,
        orig: YearGraph,
        p: usize,
        idx: usize,
        sy: int,
        ty: int,
        count: usize,
    )
        requires
            mid.wf(),
            orig.wf(),
            (p as int) < mid.years().len(),
            (idx as int) < mid.years().len(),
            mid.years()[p as int] == sy,
            mid.years()[idx as int] == ty,
            self.years() == mid.years(),
            mid.edge_seq() == orig.edge_seq(),
            forall|k: int, s: int, t: int|
                mid.edge_connects(k, s, t) <==> orig.edge_connects(k, s, t),
            edge_write(mid.edge_seq(), self.edge_seq(), p, idx, count),
        ensures
            self.wf(),
            self.has_edge_between(sy, ty),
            self.weight_between(sy, ty) == count as nat,
            forall|s: int, t: int|
                !(s == sy && t == ty) ==> (self.has_edge_between(s, t) <==> orig
                    .has_edge_between(s, t)),
            forall|s: int, t: int|
                !(s == sy && t == ty) && orig.has_edge_between(s, t) ==> self
                    .weight_between(s, t) == orig.weight_between(s, t),
    {
        let new_edge = Edge { source: p, target: idx, weight: count };
        // the index of the written edge in `self`
        let w: int = if exists|k: int|
            0 <= k < mid.edge_seq().len() && (#[trigger] mid.edge_seq()[k]).source == p
                && mid.edge_seq()[k].target == idx && self.edge_seq() == mid.edge_seq().update(
                k,
                new_edge,
            ) {
            choose|k: int|
                0 <= k < mid.edge_seq().len() && (#[trigger] mid.edge_seq()[k]).source == p
                    && mid.edge_seq()[k].target == idx && self.edge_seq() == mid.edge_seq().update(
                    k,
                    new_edge,
                )
        } else {
            mid.edge_seq().len() as int
        };
        assert(self.edge_seq().len() == if w < mid.edge_seq().len() { mid.edge_seq().len() } else { mid.edge_seq().len() + 1 });
        // every edge of `self` other than `w` equals the edge of `mid` there,
        // and `self`'s edge at `w` is the written edge
        assert(0 <= w < self.edge_seq().len());
        assert(self.edge_seq()[w] == new_edge);
        assert(forall|j: int|
            0 <= j < self.edge_seq().len() && j != w ==> #[trigger] self.edge_seq()[j]
                == mid.edge_seq()[j]);
        // endpoint pairs are preserved everywhere below the write index
        assert forall|j: int| 0 <= j < mid.edge_seq().len() implies (#[trigger] self.edge_seq()[j]).source
            == mid.edge_seq()[j].source && self.edge_seq()[j].target
            == mid.edge_seq()[j].target by {
            if j == w {
                assert(mid.edge_seq()[j].source == p && mid.edge_seq()[j].target == idx);
            }
        }
        assert(self.wf());
        let s0: int = sy;
        let t0: int = ty;
        assert(self.edge_connects(w, s0, t0));
        assert(self.has_edge_between(s0, t0));
        let c = choose|k: int| self.edge_connects(k, s0, t0);
        self.lemma_edge_unique(s0, t0, c, w);
        assert(self.weight_between(s0, t0) == count as nat);
        assert forall|s: int, t: int| !(s == sy && t == ty) implies (self
            .has_edge_between(s, t) <==> orig.has_edge_between(s, t)) by {
            if self.has_edge_between(s, t) {
                let j = choose|k: int| self.edge_connects(k, s, t);
                assert(j != w) by {
                    if j == w {
                        assert(s == sy && t == ty);
                    }
                }
                assert(mid.edge_connects(j, s, t));
                assert(orig.edge_connects(j, s, t));
            }
            if orig.has_edge_between(s, t) {
                let j = choose|k: int| orig.edge_connects(k, s, t);
                assert(mid.edge_connects(j, s, t));
                assert(j != w) by {
                    if j == w && w < mid.edge_seq().len() {
                        assert(mid.years()[mid.edge_seq()[j].source as int] == sy);
                    }
                }
                assert(self.edge_connects(j, s, t));
            }
        }
        assert forall|s: int, t: int|
            !(s == sy && t == ty) && orig.has_edge_between(s, t) implies self
            .weight_between(s, t) == orig.weight_between(s, t) by {
            let j = choose|k: int| orig.edge_connects(k, s, t);
            assert(mid.edge_connects(j, s, t));
            assert(j != w) by {
                if j == w && w < mid.edge_seq().len() {
                    assert(mid.years()[mid.edge_seq()[j].source as int] == sy);
                }
            }
            assert(self.edge_connects(j, s, t));
            let a = choose|k: int| self.edge_connects(k, s, t);
            self.lemma_edge_unique(s, t, a, j);
            let b = choose|k: int| orig.edge_connects(k, s, t);
            orig.lemma_edge_unique(s, t, b, j);
            assert(self.edge_seq()[j] == mid.edge_seq()[j]);
        }
    }

    /// Ensure a node for `year` exists, and, when a node for the predecessor
    /// year already exists, create or overwrite the edge from it to `year`'s
    /// node with weight `count` (last write wins, no accumulation). When the
    /// predecessor year has no node the edge set is left untouched.
    pub fn add_year(&mut self, year: i32, count: usize)
        requires
            old(self).wf(),
            year > i32::MIN,
        ensures
            final(self).wf(),
            old(self).has_year(year as int) ==> final(self).years() == old(self).years(),
            !old(self).has_year(year as int) ==> final(self).years() == old(self).years().push(
                year,
            ),
            old(self).has_year(year - 1) ==> final(self).has_edge_between(year - 1, year as int)
                && final(self).weight_between(year - 1, year as int) == count as nat,
            !old(self).has_year(year - 1) ==> final(self).edge_seq() == old(self).edge_seq(),
            !old(self).has_year(year - 1) ==> forall|s: int, t: int|
                (final(self).has_edge_between(s, t) <==> old(self).has_edge_between(s, t)),
            !old(self).has_year(year - 1) ==> forall|s: int, t: int|
                old(self).has_edge_between(s, t) ==> final(self).weight_between(s, t) == old(
                    self,
                ).weight_between(s, t),
            forall|s: int, t: int|
                !(s == year - 1 && t == year as int) ==> (final(self).has_edge_between(s, t)
                    <==> old(self).has_edge_between(s, t)),
            forall|s: int, t: int|
                !(s == year - 1 && t == year as int) && old(self).has_edge_between(s, t)
                    ==> final(self).weight_between(s, t) == old(self).weight_between(s, t),
    {
        let idx: usize;
        match self.index_of(year) {
            Some(i) => {
                idx = i;
            }
            None => {
                idx = self.nodes.len();
                self.nodes.push(year);
                proof {
                    assert(self.years() == old(self).years().push(year));
                    assert forall|k: int| 0 <= k < self.edge_seq().len() implies ((
                    #[trigger] self.edge_seq()[k]).source as int) < self.years().len() && ((
                    self.edge_seq()[k]).target as int) < self.years().len() by {
                        assert(self.edge_seq()[k] == old(self).edge_seq()[k]);
                    }
                }
            }
        }
        let ghost mid = *self;
        proof {
            assert(mid.wf());
            assert(mid.years()[idx as int] == year);
            // year-level edge relations agree between the old and the grown graph
            assert forall|k: int, s: int, t: int| true implies (mid.edge_connects(k, s, t) <==> old(
                self,
            ).edge_connects(k, s, t)) by {
                if 0 <= k < mid.edge_seq().len() {
                    assert(old(self).edge_seq()[k] == mid.edge_seq()[k]);
                    assert((old(self).edge_seq()[k].source as int) < old(self).years().len());
                    assert(mid.years()[old(self).edge_seq()[k].source as int] == old(
                        self,
                    ).years()[old(self).edge_seq()[k].source as int]);
                    assert(mid.years()[old(self).edge_seq()[k].target as int] == old(
                        self,
                    ).years()[old(self).edge_seq()[k].target as int]);
                }
            }
        }
        match self.index_of(year - 1) {
            None => {
                proof {
                    assert(!old(self).has_year(year - 1)) by {
                        if old(self).has_year(year - 1) {
                            let i = choose|i: int|
                                0 <= i < old(self).years().len() && old(self).years()[i] == year
                                    - 1;
                            assert(self.years()[i] == year - 1);
                            assert(self.has_year(year - 1));
                        }
                    }
                    assert forall|s: int, t: int| true implies (self.has_edge_between(s, t) <==> old(
                        self,
                    ).has_edge_between(s, t)) by {
                        if self.has_edge_between(s, t) {
                            let k = choose|k: int| self.edge_connects(k, s, t);
                            assert(old(self).edge_connects(k, s, t));
                        }
                        if old(self).has_edge_between(s, t) {
                            let k = choose|k: int| old(self).edge_connects(k, s, t);
                            assert(self.edge_connects(k, s, t));
                        }
                    }
                    assert forall|s: int, t: int| old(self).has_edge_between(s, t) implies self
                        .weight_between(s, t) == old(self).weight_between(s, t) by {
                        let k = choose|k: int| self.edge_connects(k, s, t);
                        let l = choose|l: int| old(self).edge_connects(l, s, t);
                        assert(self.edge_connects(l, s, t));
                        self.lemma_edge_unique(s, t, k, l);
                    }
                }
            }
            Some(p) => {
                proof {
                    assert(mid.years()[p as int] == year - 1);
                }
                match self.find_edge(p, idx) {
                    Some(k) => {
                        self.edges[k].weight = count;
                        proof {
                            assert(self.edge_seq() == mid.edge_seq().update(
                                k as int,
                                Edge { source: p, target: idx, weight: count },
                            ));
                        }
                    }
                    None => {
                        self.edges.push(Edge { source: p, target: idx, weight: count });
                    }
                }
                proof {
                    self.lemma_after_edge_write(
                        mid,
                        *old(self),
                        p,
                        idx,
                        year - 1,
                        year as int,
                        count,
                    );
                }
            }
        }
    }


    /// Take the full year mapping, and add each of its years in ascending
    /// order, so that the edge into a year is established as soon as the
    /// predecessor year has a node.
    #[verifier::rlimit(100)]
    pub fn add_sorted_years(&mut self, year_counts: &Vec<(i32, usize)>)
        requires
            old(self).wf(),
            distinct_input_years(year_counts@),
            forall|j: int| 0 <= j < year_counts@.len() ==> (#[trigger] year_counts@[j]).0 > i32::MIN,
        ensures
            add_sorted_post(*old(self), *final(self), year_counts@),
    {
        let ghost pre = *old(self);
        let ghost input = year_counts@;
        let mut ys: Vec<i32> = Vec::new();
        let mut i: usize = 0;
        while i < year_counts.len()
            invariant
                i <= input.len(),
                input == year_counts@,
                ys@.len() == i,
                forall|k: int| 0 <= k < i ==> ys@[k] == (#[trigger] input[k]).0,
            decreases input.len() - i,
        {
            ys.push(year_counts[i].0);
            i = i + 1;
        }
        proof {
            assert forall|a: int, b: int| 0 <= a < b < ys@.len() implies ys@[a] != ys@[b] by {
                assert(ys@[a] == input[a].0 && ys@[b] == input[b].0);
                assert(input[a].0 != input[b].0);
            }
            assert(distinct_seq(ys@));
            assert forall|y: int| years_contain(ys@, y) <==> input_has_year(input, y) by {
                if years_contain(ys@, y) {
                    let a: int = choose|a: int|
                        0 <= a < ys@.len() && (#[trigger] ys@[a]) as int == y;
                    assert((input[a]).0 as int == y);
                }
                if input_has_year(input, y) {
                    let a: int = choose|a: int|
                        0 <= a < input.len() && (#[trigger] input[a]).0 as int == y;
                    assert((ys@[a]) as int == y);
                }
            }
        }
        let sorted_years = sort_distinct_years(&ys);
        let ghost ss = sorted_years@;
        proof {
            assert forall|y: int| years_contain(ss, y) <==> input_has_year(input, y) by {
                lemma_years_contain_same_members(ss, ys@, y);
            }
            assert(distinct_seq(ss));
        }
        let mut k: usize = 0;
        while k < sorted_years.len()
            invariant
                k <= ss.len(),
                ss == sorted_years@,
                input == year_counts@,
                strictly_ascending(ss),
                distinct_input_years(input),
                forall|j: int| 0 <= j < input.len() ==> (#[trigger] input[j]).0 > i32::MIN,
                forall|y: int| years_contain(ss, y) <==> input_has_year(input, y),
                pre.wf(),
                self.wf(),
                self.years().len() >= pre.years().len(),
                forall|i2: int| 0 <= i2 < pre.years().len() ==> self.years()[i2] == pre.years()[i2],
                forall|a: int, b: int|
                    pre.years().len() <= a < b < self.years().len() ==> self.years()[a]
                        < self.years()[b],
                forall|y: int| #![trigger self.has_year(y)]
                    self.has_year(y) <==> pre.has_year(y) || years_contain(
                        ss.subrange(0, k as int),
                        y,
                    ),
                forall|j: int|
                    0 <= j < k ==> ((pre.has_year((#[trigger] ss[j]) as int - 1)
                        || years_contain(ss, ss[j] as int - 1)) ==> self.has_edge_between(
                        ss[j] as int - 1,
                        ss[j] as int,
                    ) && self.weight_between(ss[j] as int - 1, ss[j] as int) == count_for(
                        input,
                        ss[j] as int,
                    )),
                forall|s: int, t: int|
                    !(years_contain(ss.subrange(0, k as int), t) && s == t - 1) ==> ((
                    self.has_edge_between(s, t) <==> pre.has_edge_between(s, t)) && (
                    pre.has_edge_between(s, t) ==> self.weight_between(s, t)
                        == pre.weight_between(s, t))),
                forall|j: int|
                    0 <= j < k ==> ((!pre.has_year((#[trigger] ss[j]) as int - 1)
                        && !years_contain(ss, ss[j] as int - 1)) ==> ((self.has_edge_between(
                        ss[j] as int - 1,
                        ss[j] as int,
                    ) <==> pre.has_edge_between(ss[j] as int - 1, ss[j] as int)) && (
                    pre.has_edge_between(ss[j] as int - 1, ss[j] as int)
                        ==> self.weight_between(ss[j] as int - 1, ss[j] as int)
                        == pre.weight_between(ss[j] as int - 1, ss[j] as int)))),
            decreases ss.len() - k,
        {
            let y = sorted_years[k];
            proof {
                assert(years_contain(ss, y as int)) by {
                    assert((ss[k as int]) as int == y as int);
                }
                assert(input_has_year(input, y as int));
                let w: int = choose|w: int|
                    0 <= w < input.len() && (#[trigger] input[w]).0 as int == y as int;
                assert(input[w].0 > i32::MIN);
            }
            let count_opt = lookup_count(year_counts, y);
            let ghost before = *self;
            let ghost yi: int = y as int;
            let ghost kk: int = k as int;
            match count_opt {
                Some(count) => {
                    self.add_year(y, count);
                    proof {
                        // node prefix: old places are kept
                        assert forall|i2: int| 0 <= i2 < pre.years().len() implies self.years()[i2]
                            == pre.years()[i2] by {
                            assert(self.years()[i2] == before.years()[i2]);
                        }
                        // a node slot past the old ones carries a year of the
                        // sorted prefix, never an old year
                        assert forall|a: int|
                            pre.years().len() <= a < before.years().len() implies years_contain(
                            ss.subrange(0, kk),
                            before.years()[a] as int,
                        ) by {
                            assert(before.has_year(before.years()[a] as int));
                            if pre.has_year(before.years()[a] as int) {
                                let i0: int = choose|i0: int|
                                    0 <= i0 < pre.years().len() && pre.years()[i0]
                                        == before.years()[a];
                                assert(before.years()[i0] == before.years()[a]);
                                assert(false);
                            }
                        }
                        // new nodes stay in ascending year order
                        assert forall|a: int, b: int|
                            pre.years().len() <= a < b < self.years().len() implies self.years()[a]
                                < self.years()[b] by {
                            if b < before.years().len() {
                                assert(self.years()[a] == before.years()[a] && self.years()[b]
                                    == before.years()[b]);
                            } else {
                                // `b` is the slot just appended for `y`
                                assert(!before.has_year(yi));
                                assert(self.years()[b] == y);
                                assert(self.years()[a] == before.years()[a]);
                                assert(years_contain(
                                    ss.subrange(0, kk),
                                    before.years()[a] as int,
                                ));
                                let j0: int = choose|j0: int|
                                    0 <= j0 < ss.subrange(0, kk).len() && (#[trigger] ss.subrange(
                                        0,
                                        kk,
                                    )[j0]) as int == before.years()[a] as int;
                                assert(ss[j0] == before.years()[a]);
                                assert(ss[j0] < ss[kk]);
                            }
                        }
                        // node set: exactly the old years plus the prefix years
                        assert forall|z: int| #![trigger self.has_year(z)]
                            self.has_year(z) <==> (pre.has_year(z) || years_contain(
                                ss.subrange(0, kk + 1),
                                z,
                            )) by {
                            lemma_prefix_years_contain(ss, kk, z);
                            if self.has_year(z) {
                                let a: int = choose|a: int|
                                    0 <= a < self.years().len() && self.years()[a] == z;
                                if a < before.years().len() {
                                    assert(before.years()[a] == z);
                                    assert(before.has_year(z));
                                } else {
                                    assert(self.years()[a] == y);
                                }
                            }
                            if pre.has_year(z) || years_contain(ss.subrange(0, kk + 1), z) {
                                if before.has_year(z) {
                                    let a: int = choose|a: int|
                                        0 <= a < before.years().len() && before.years()[a] == z;
                                    assert(self.years()[a] == z);
                                } else {
                                    assert((ss[kk]) as int == z);
                                    assert(!before.has_year(yi));
                                    assert(self.years()[before.years().len() as int] == y);
                                }
                            }
                        }
                        // `y`'s predecessor has a node in `before` exactly when
                        // the old graph or the mapping supplies it
                        assert((pre.has_year(yi - 1) || years_contain(ss, yi - 1))
                            ==> before.has_year(yi - 1)) by {
                            assert(before.has_year(yi - 1) <==> (pre.has_year(yi - 1)
                                || years_contain(ss.subrange(0, kk), yi - 1)));
                            if years_contain(ss, yi - 1) {
                                let j0: int = choose|j0: int|
                                    0 <= j0 < ss.len() && (#[trigger] ss[j0]) as int == yi - 1;
                                assert(ss[j0] as int == yi - 1);
                                assert(yi - 1 < yi);
                                if j0 > kk {
                                    assert(ss[kk] < ss[j0]);
                                }
                                assert(j0 < kk);
                                assert((ss.subrange(0, kk)[j0]) as int == yi - 1);
                                assert(years_contain(ss.subrange(0, kk), yi - 1));
                            }
                        }
                        assert((!pre.has_year(yi - 1) && !years_contain(ss, yi - 1))
                            ==> !before.has_year(yi - 1)) by {
                            if !pre.has_year(yi - 1) && !years_contain(ss, yi - 1)
                                && before.has_year(yi - 1) {
                                assert(years_contain(ss.subrange(0, kk), yi - 1));
                                let j0: int = choose|j0: int|
                                    0 <= j0 < ss.subrange(0, kk).len() && (#[trigger] ss.subrange(
                                        0,
                                        kk,
                                    )[j0]) as int == yi - 1;
                                assert(0 <= j0 < kk && kk < ss.len());
                                assert((ss.subrange(0, kk)[j0]) as int == yi - 1);
                                assert((ss[j0]) as int == yi - 1);
                                assert(false);
                            }
                        }
                        // the established edges of earlier steps are kept
                        assert forall|j: int|
                            0 <= j < kk + 1 implies ((pre.has_year((#[trigger] ss[j]) as int - 1)
                                || years_contain(ss, ss[j] as int - 1)) ==> self.has_edge_between(
                                ss[j] as int - 1,
                                ss[j] as int,
                            ) && self.weight_between(ss[j] as int - 1, ss[j] as int) == count_for(
                                input,
                                ss[j] as int,
                            )) by {
                            if j < kk {
                                assert(ss[j] != ss[kk]);
                                assert(!(ss[j] as int - 1 == yi - 1 && ss[j] as int == yi));
                            } else {
                                assert(count as nat == count_for(input, yi));
                            }
                        }
                        // pairs whose later year the prefix does not name keep
                        // their old edge state
                        assert forall|s: int, t: int|
                            !(years_contain(ss.subrange(0, kk + 1), t) && s == t - 1) implies ((
                            self.has_edge_between(s, t) <==> pre.has_edge_between(s, t)) && (
                            pre.has_edge_between(s, t) ==> self.weight_between(s, t)
                                == pre.weight_between(s, t))) by {
                            lemma_prefix_years_contain(ss, kk, t);
                            assert(!(t == yi && s == yi - 1)) by {
                                if t == yi && s == yi - 1 {
                                    assert((ss.subrange(0, kk + 1)[kk]) as int == t);
                                }
                            }
                            assert(!(years_contain(ss.subrange(0, kk), t) && s == t - 1));
                        }
                        // a step year with no predecessor node anywhere keeps
                        // its old edge state as well
                        assert forall|j: int|
                            0 <= j < kk + 1 implies ((!pre.has_year((#[trigger] ss[j]) as int - 1)
                                && !years_contain(ss, ss[j] as int - 1)) ==> ((
                            self.has_edge_between(ss[j] as int - 1, ss[j] as int)
                                <==> pre.has_edge_between(ss[j] as int - 1, ss[j] as int)) && (
                            pre.has_edge_between(ss[j] as int - 1, ss[j] as int)
                                ==> self.weight_between(ss[j] as int - 1, ss[j] as int)
                                == pre.weight_between(ss[j] as int - 1, ss[j] as int)))) by {
                            if !pre.has_year(ss[j] as int - 1) && !years_contain(
                                ss,
                                ss[j] as int - 1,
                            ) {
                                if j < kk {
                                    assert(ss[j] != ss[kk]);
                                    assert(!(ss[j] as int - 1 == yi - 1 && ss[j] as int == yi));
                                } else {
                                    assert(!before.has_year(yi - 1));
                                    assert(!(years_contain(ss.subrange(0, kk), yi)
                                        && yi - 1 == yi - 1)) by {
                                        if years_contain(ss.subrange(0, kk), yi) {
                                            let j0: int = choose|j0: int|
                                                0 <= j0 < ss.subrange(0, kk).len() && (
                                                #[trigger] ss.subrange(0, kk)[j0]) as int == yi;
                                            assert(ss[j0] == ss[kk]);
                                        }
                                    }
                                }
                            }
                        }
                    }
                }
                None => {
                    proof {
                        assert(false);
                    }
                }
            }
            k = k + 1;
            proof {
                assert(k as int == kk + 1);
                assert(ss.subrange(0, k as int) =~= ss.subrange(0, kk + 1));
                assert forall|y2: int| #![trigger self.has_year(y2)]
                    self.has_year(y2) <==> pre.has_year(y2) || years_contain(
                        ss.subrange(0, k as int),
                        y2,
                    ) by {
                    assert(self.has_year(y2) <==> (pre.has_year(y2) || years_contain(
                        ss.subrange(0, kk + 1),
                        y2,
                    )));
                }
            }
        }
        proof {
            assert(ss.subrange(0, ss.len() as int) =~= ss);
            // carry each fact over from the sorted year list to the mapping
            assert forall|j: int|
                0 <= j < input.len() implies ((pre.has_year((#[trigger] input[j]).0 as int - 1)
                    || input_has_year(input, input[j].0 as int - 1)) ==> self.has_edge_between(
                    input[j].0 as int - 1,
                    input[j].0 as int,
                ) && self.weight_between(input[j].0 as int - 1, input[j].0 as int)
                    == input[j].1 as nat) by {
                let yi: int = input[j].0 as int;
                assert(input_has_year(input, yi));
                assert(years_contain(ss, yi));
                let j0: int = choose|j0: int|
                    0 <= j0 < ss.len() && (#[trigger] ss[j0]) as int == yi;
                assert(count_for(input, yi) == input[j].1 as nat) by {
                    let w: int = choose|w: int|
                        0 <= w < input.len() && (#[trigger] input[w]).0 as int == yi;
                    if w != j {
                        assert(input[w].0 == input[j].0);
                    }
                }
            }
            assert forall|j: int|
                0 <= j < input.len() implies ((!pre.has_year((#[trigger] input[j]).0 as int - 1)
                    && !input_has_year(input, input[j].0 as int - 1)) ==> ((self.has_edge_between(
                    input[j].0 as int - 1,
                    input[j].0 as int,
                ) <==> pre.has_edge_between(input[j].0 as int - 1, input[j].0 as int)) && (
                pre.has_edge_between(input[j].0 as int - 1, input[j].0 as int)
                    ==> self.weight_between(input[j].0 as int - 1, input[j].0 as int)
                    == pre.weight_between(input[j].0 as int - 1, input[j].0 as int)))) by {
                let yi: int = input[j].0 as int;
                assert(input_has_year(input, yi));
                assert(years_contain(ss, yi));
                let j0: int = choose|j0: int|
                    0 <= j0 < ss.len() && (#[trigger] ss[j0]) as int == yi;
            }
            assert(add_sorted_post(pre, *self, input));
        }
    }


    /// Walk the node years in ascending order and join every chronologically
    /// adjacent pair of nodes that is not linked yet by an edge of weight
    /// zero. Gap years without a node of their own are bridged over, never
    /// materialized.
    #[verifier::rlimit(60)]
    pub fn connect_all_years(&mut self)
        requires
            old(self).wf(),
        ensures
            connect_post(*old(self), *final(self)),
    {
        let ghost pre = *old(self);
        let mut ys: Vec<i32> = Vec::new();
        let mut i: usize = 0;
        while i < self.nodes.len()
            invariant
                *self == pre,
                pre.wf(),
                i <= pre.years().len(),
                ys@.len() == i,
                forall|k2: int| 0 <= k2 < i ==> ys@[k2] == pre.years()[k2],
            decreases pre.years().len() - i,
        {
            let y = self.nodes[i];
            ys.push(y);
            i = i + 1;
        }
        proof {
            assert(distinct_seq(ys@));
            assert forall|y: int| years_contain(ys@, y) <==> pre.has_year(y) by {
                if years_contain(ys@, y) {
                    let a: int = choose|a: int|
                        0 <= a < ys@.len() && (#[trigger] ys@[a]) as int == y;
                    assert(pre.years()[a] as int == y);
                }
                if pre.has_year(y) {
                    let a: int = choose|a: int|
                        0 <= a < pre.years().len() && pre.years()[a] == y;
                    assert((ys@[a]) as int == y);
                }
            }
        }
        let sorted_years = sort_distinct_years(&ys);
        let ghost ss = sorted_years@;
        proof {
            assert forall|y: int| years_contain(ss, y) <==> pre.has_year(y) by {
                lemma_years_contain_same_members(ss, ys@, y);
            }
        }
        let mut k: usize = 0;
        while k < sorted_years.len()
            invariant
                k <= ss.len(),
                ss == sorted_years@,
                strictly_ascending(ss),
                pre.wf(),
                self.wf(),
                forall|y: int| years_contain(ss, y) <==> pre.has_year(y),
                self.years() == pre.years(),
                forall|s: int, t: int|
                    pre.has_edge_between(s, t) ==> self.has_edge_between(s, t)
                        && self.weight_between(s, t) == pre.weight_between(s, t),
                forall|j: int|
                    1 <= j < k ==> self.has_edge_between(
                        (#[trigger] ss[j - 1]) as int,
                        ss[j] as int,
                    ) && (!pre.has_edge_between(ss[j - 1] as int, ss[j] as int)
                        ==> self.weight_between(ss[j - 1] as int, ss[j] as int) == 0),
                forall|s: int, t: int|
                    self.has_edge_between(s, t) ==> pre.has_edge_between(s, t) || exists|j: int|
                        1 <= j < k && (#[trigger] ss[j - 1]) as int == s && ss[j] as int == t,
            decreases ss.len() - k,
        {
            if k > 0 {
                let a = sorted_years[k - 1];
                let b = sorted_years[k];
                let ghost ai: int = a as int;
                let ghost bi: int = b as int;
                proof {
                    assert(years_contain(ss, ai)) by {
                        assert((ss[k - 1]) as int == ai);
                    }
                    assert(years_contain(ss, bi)) by {
                        assert((ss[k as int]) as int == bi);
                    }
                    assert(ss[k - 1] < ss[k as int]);
                }
                let ia: usize;
                let ib: usize;
                match self.index_of(a) {
                    Some(x) => {
                        ia = x;
                    }
                    None => {
                        proof {
                            assert(false);
                        }
                        ia = 0;
                    }
                }
                match self.index_of(b) {
                    Some(x) => {
                        ib = x;
                    }
                    None => {
                        proof {
                            assert(false);
                        }
                        ib = 0;
                    }
                }
                let ghost before = *self;
                match self.find_edge(ia, ib) {
                    Some(_) => {
                        proof {
                            // the edge is already there; if the old graph did
                            // not have it, an earlier step added it, but the
                            // sorted positions of `a` and `b` rule that out
                            assert(self.has_edge_between(ai, bi)) by {
                                let e: int = choose|e: int|
                                    0 <= e < self.edge_seq().len() && self.edge_seq()[e].source
                                        == ia && self.edge_seq()[e].target == ib;
                                assert(self.edge_connects(e, ai, bi));
                            }
                            if !pre.has_edge_between(ai, bi) {
                                let j: int = choose|j: int|
                                    1 <= j < k && (#[trigger] ss[j - 1]) as int == ai && ss[j] as int
                                        == bi;
                                assert(ss[j] == ss[k as int]);
                                assert(false);
                            }
                        }
                    }
                    None => {
                        self.edges.push(Edge { source: ia, target: ib, weight: 0 });
                        proof {
                            assert(edge_write(before.edge_seq(), self.edge_seq(), ia, ib, 0));
                            self.lemma_after_edge_write(before, before, ia, ib, ai, bi, 0);
                            // the freshly bridged pair was no old edge
                            assert(!pre.has_edge_between(ai, bi)) by {
                                if pre.has_edge_between(ai, bi) {
                                    let e: int = choose|e: int| pre.edge_connects(e, ai, bi);
                                    assert(before.has_edge_between(ai, bi));
                                    let e2: int = choose|e2: int|
                                        before.edge_connects(e2, ai, bi);
                                    assert(before.edge_seq()[e2].source == ia) by {
                                        assert(before.years()[before.edge_seq()[e2].source as int]
                                            == before.years()[ia as int]);
                                    }
                                    assert(before.edge_seq()[e2].target == ib) by {
                                        assert(before.years()[before.edge_seq()[e2].target as int]
                                            == before.years()[ib as int]);
                                    }
                                }
                            }
                        }
                    }
                }
                proof {
                    assert forall|s: int, t: int|
                        pre.has_edge_between(s, t) implies self.has_edge_between(s, t)
                        && self.weight_between(s, t) == pre.weight_between(s, t) by {
                        if !(s == ai && t == bi) {
                            assert(before.has_edge_between(s, t));
                        } else {
                            assert(before.has_edge_between(s, t));
                            assert(self.has_edge_between(ai, bi));
                        }
                    }
                    assert forall|j: int|
                        1 <= j < k + 1 implies self.has_edge_between(
                        (#[trigger] ss[j - 1]) as int,
                        ss[j] as int,
                    ) && (!pre.has_edge_between(ss[j - 1] as int, ss[j] as int)
                        ==> self.weight_between(ss[j - 1] as int, ss[j] as int) == 0) by {
                        if j < k {
                            assert(ss[j] != ss[k as int]);
                            assert(!(ss[j - 1] as int == ai && ss[j] as int == bi));
                        }
                    }
                    assert forall|s: int, t: int|
                        self.has_edge_between(s, t) implies pre.has_edge_between(s, t) || exists|
                            j: int,
                        |
                            1 <= j < k + 1 && (#[trigger] ss[j - 1]) as int == s && ss[j] as int
                                == t by {
                        if s == ai && t == bi {
                            assert((ss[k - 1]) as int == s && ss[k as int] as int == t);
                        } else {
                            assert(before.has_edge_between(s, t));
                        }
                    }
                }
            }
            k = k + 1;
        }
        proof {
            assert forall|s: int, t: int|
                (#[trigger] adjacent_present(pre, s, t)) && !pre.has_edge_between(s, t) implies
                self.has_edge_between(s, t) && self.weight_between(s, t) == 0 by {
                lemma_adjacent_iff_consecutive(pre, ss, s, t);
            }
            assert forall|s: int, t: int|
                self.has_edge_between(s, t) implies pre.has_edge_between(s, t)
                    || adjacent_present(pre, s, t) by {
                lemma_adjacent_iff_consecutive(pre, ss, s, t);
            }
            assert(connect_post(pre, *self));
        }
    }


    /// The weight of the edge from year `s`'s node to year `t`'s node, if
    /// both nodes and the edge exist.
    pub fn edge_weight_between(&self, s: i32, t: i32) -> (r: Option<usize>)
        requires
            self.wf(),
        ensures
            match r {
                Some(w) => self.has_edge_between(s as int, t as int) && w as nat
                    == self.weight_between(s as int, t as int),
                None => !self.has_edge_between(s as int, t as int),
            },
    {
        let si: usize;
        let ti: usize;
        match self.index_of(s) {
            Some(x) => {
                si = x;
            }
            None => {
                proof {
                    if self.has_edge_between(s as int, t as int) {
                        let e: int = choose|e: int| self.edge_connects(e, s as int, t as int);
                        assert(self.has_year(s as int)) by {
                            assert(self.years()[self.edge_seq()[e].source as int] == s);
                        }
                    }
                }
                return None;
            }
        }
        match self.index_of(t) {
            Some(x) => {
                ti = x;
            }
            None => {
                proof {
                    if self.has_edge_between(s as int, t as int) {
                        let e: int = choose|e: int| self.edge_connects(e, s as int, t as int);
                        assert(self.has_year(t as int)) by {
                            assert(self.years()[self.edge_seq()[e].target as int] == t);
                        }
                    }
                }
                return None;
            }
        }
        match self.find_edge(si, ti) {
            Some(e) => {
                proof {
                    assert(self.edge_connects(e as int, s as int, t as int));
                    let c: int = choose|c: int| self.edge_connects(c, s as int, t as int);
                    self.lemma_edge_unique(s as int, t as int, c, e as int);
                }
                Some(self.edges[e].weight)
            }
            None => {
                proof {
                    if self.has_edge_between(s as int, t as int) {
                        let e: int = choose|e: int| self.edge_connects(e, s as int, t as int);
                        assert(self.edge_seq()[e].source == si) by {
                            assert(self.years()[self.edge_seq()[e].source as int]
                                == self.years()[si as int]);
                        }
                        assert(self.edge_seq()[e].target == ti) by {
                            assert(self.years()[self.edge_seq()[e].target as int]
                                == self.years()[ti as int]);
                        }
                    }
                }
                None
            }
        }
    }

    /// Whether some node carries the year `y`.
    pub fn contains_year(&self, y: i32) -> (r: bool)
        requires
            self.wf(),
        ensures
            r == self.has_year(y as int),
    {
        self.index_of(y).is_some()
    }
}

} // verus!
