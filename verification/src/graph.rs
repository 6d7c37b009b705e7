//! Depth-first search over derivation graphs, in which every node points to
//! the nodes it was derived from.
use vstd::prelude::*;

verus! {

/// The nodes that a node points to, for every node.
pub type Graph = Seq<Seq<usize>>;

/// The graph of a list of lists.
pub open spec fn graph_of(adj: Seq<Vec<usize>>) -> Graph {
    Seq::new(adj.len(), |i: int| adj[i]@)
}

/// Whether all edges stay inside the graph.
pub open spec fn closed(g: Graph) -> bool {
    forall|k: int, j: int| 0 <= k < g.len() && 0 <= j < g[k].len() ==> #[trigger] g[k][j] < g.len()
}

/// Depth-first search from `k`: nodes seen so far, and nodes in the order in
/// which they were left. At most `fuel` nested steps are made.
pub open spec fn visit(g: Graph, k: usize, seen: Set<usize>, order: Seq<usize>, fuel: nat) -> (
    Set<usize>,
    Seq<usize>,
)
    decreases fuel, 0int,
{
    if seen.contains(k) || fuel == 0 {
        (seen, order)
    } else {
        let (s, o) = visit_from(g, g[k as int], 0, seen.insert(k), order, (fuel - 1) as nat);
        (s, o.push(k))
    }
}

/// Depth-first search from the nodes of a list, from position `j` on.
pub open spec fn visit_from(
    g: Graph,
    ps: Seq<usize>,
    j: nat,
    seen: Set<usize>,
    order: Seq<usize>,
    fuel: nat,
) -> (Set<usize>, Seq<usize>)
    decreases fuel, ps.len() - j + 1,
{
    if j >= ps.len() {
        (seen, order)
    } else {
        let (s, o) = visit(g, ps[j as int], seen, order, fuel);
        visit_from(g, ps, j + 1, s, o, fuel)
    }
}

/// The nodes that a depth-first search from `k` reaches, in the order in which
/// it leaves them.
pub open spec fn post_order(g: Graph, k: usize) -> Seq<usize> {
    visit(g, k, Set::empty(), Seq::empty(), g.len()).1
}

/// Whether `n` steps along edges can lead from `a` to `b`.
pub open spec fn steps(g: Graph, a: usize, b: usize, n: nat) -> bool
    decreases n,
{
    if n == 0 {
        a == b
    } else {
        exists|j: int|
            0 <= j < g[a as int].len() && steps(g, #[trigger] g[a as int][j], b, (n - 1) as nat)
    }
}

/// Whether edges lead from `a` to `b`, in any number of steps.
pub open spec fn reaches(g: Graph, a: usize, b: usize) -> bool {
    exists|n: nat| steps(g, a, b, n)
}

/// A rank that falls along every edge.
pub open spec fn falls(g: Graph, rank: spec_fn(usize) -> nat) -> bool {
    forall|k: usize, j: int|
        k < g.len() && 0 <= j < g[k as int].len() ==> rank(#[trigger] g[k as int][j]) < rank(k)
}

/// Whether no node can be reached from itself in one step or more.
pub open spec fn acyclic(g: Graph) -> bool {
    exists|rank: spec_fn(usize) -> nat| #[trigger] falls(g, rank)
}

/// Whether every node in the list comes after the nodes it points to.
pub open spec fn topological(g: Graph, order: Seq<usize>) -> bool {
    forall|i: int, j: int|
        0 <= i < order.len() && 0 <= j < g[order[i] as int].len() ==> order.take(i).contains(
            #[trigger] g[order[i] as int][j],
        )
}

/// A walk along edges that ends at a node it has been at before.
pub open spec fn cycle_path(g: Graph, path: Seq<usize>) -> bool {
    &&& path.len() >= 2
    &&& forall|i: int| 0 <= i < path.len() ==> #[trigger] path[i] < g.len()
    &&& forall|i: int| 0 <= i < path.len() - 1 ==> g[#[trigger] path[i] as int].contains(path[i + 1])
    &&& exists|i: int| 0 <= i < path.len() - 1 && #[trigger] path[i] == path.last()
}

/// The nodes of the graph that were not seen yet.
spec fn unseen(g: Graph, seen: Set<usize>) -> Set<usize> {
    Set::new(|k: usize| k < g.len() && !seen.contains(k))
}

proof fn lemma_nodes_finite(n: nat)
    requires
        n <= usize::MAX,
    ensures
        Set::new(|k: usize| k < n).finite(),
        Set::new(|k: usize| k < n).len() == n,
    decreases n,
{
    let s = Set::new(|k: usize| k < n);
    if n == 0 {
        assert(s =~= Set::empty());
    } else {
        lemma_nodes_finite((n - 1) as nat);
        let t = Set::new(|k: usize| k < n - 1);
        assert(s =~= t.insert((n - 1) as usize));
    }
}

proof fn lemma_unseen_finite(g: Graph, seen: Set<usize>)
    requires
        g.len() <= usize::MAX,
    ensures
        unseen(g, seen).finite(),
        unseen(g, seen).len() <= g.len(),
{
    let all = Set::new(|k: usize| k < g.len());
    lemma_nodes_finite(g.len());
    assert(unseen(g, seen).subset_of(all));
    vstd::set_lib::lemma_set_subset_finite(all, unseen(g, seen));
    vstd::set_lib::lemma_len_subset(unseen(g, seen), all);
}

proof fn lemma_unseen_insert(g: Graph, seen: Set<usize>, k: usize)
    requires
        g.len() <= usize::MAX,
        k < g.len(),
        !seen.contains(k),
    ensures
        unseen(g, seen.insert(k)).len() + 1 == unseen(g, seen).len(),
{
    lemma_unseen_finite(g, seen);
    assert(unseen(g, seen.insert(k)) =~= unseen(g, seen).remove(k));
    assert(unseen(g, seen).contains(k));
}

proof fn lemma_unseen_subset(g: Graph, seen: Set<usize>, more: Set<usize>)
    requires
        g.len() <= usize::MAX,
        seen.subset_of(more),
    ensures
        unseen(g, more).len() <= unseen(g, seen).len(),
{
    lemma_unseen_finite(g, seen);
    assert(unseen(g, more).subset_of(unseen(g, seen)));
    vstd::set_lib::lemma_len_subset(unseen(g, more), unseen(g, seen));
}

/// What a part of a search adds: `s1` and `o1` against `s0` and `o0`.
spec fn grows(g: Graph, s0: Set<usize>, o0: Seq<usize>, s1: Set<usize>, o1: Seq<usize>) -> bool {
    &&& s0.subset_of(s1)
    &&& o0.is_prefix_of(o1)
    &&& forall|x: usize| #[trigger]
        o1.contains(x) <==> o0.contains(x) || (s1.contains(x) && !s0.contains(x))
    &&& o1.no_duplicates()
    &&& forall|x: usize, j: int|
        s1.contains(x) && !s0.contains(x) && 0 <= j < g[x as int].len() ==> s1.contains(
            #[trigger] g[x as int][j],
        )
    &&& forall|x: usize| #[trigger] s1.contains(x) ==> s0.contains(x) || x < g.len()
}

spec fn ready(g: Graph, seen: Set<usize>, order: Seq<usize>, fuel: nat) -> bool {
    &&& closed(g)
    &&& g.len() <= usize::MAX
    &&& order.no_duplicates()
    &&& forall|x: usize| #[trigger] order.contains(x) ==> seen.contains(x)
    &&& unseen(g, seen).len() <= fuel
}

proof fn lemma_visit(g: Graph, k: usize, seen: Set<usize>, order: Seq<usize>, fuel: nat)
    requires
        ready(g, seen, order, fuel),
        k < g.len(),
    ensures
        ({
            let (s, o) = visit(g, k, seen, order, fuel);
            &&& grows(g, seen, order, s, o)
            &&& s.contains(k)
            &&& ready(g, s, o, fuel)
            &&& forall|x: usize| #[trigger] s.contains(x) && !seen.contains(x) ==> reaches(g, k, x)
        }),
    decreases fuel, 0int,
{
    lemma_unseen_finite(g, seen);
    if !seen.contains(k) {
        assert(unseen(g, seen).contains(k));
        lemma_unseen_insert(g, seen, k);
        let (s, o) = visit_from(g, g[k as int], 0, seen.insert(k), order, (fuel - 1) as nat);
        lemma_visit_from(g, k, 0, seen.insert(k), order, (fuel - 1) as nat);
        let o1 = o.push(k);
        assert(!order.contains(k));
        assert(!o.contains(k));
        assert(steps(g, k, k, 0));
        assert(o1[o.len() as int] == k);
        assert forall|x: usize| #[trigger] o1.contains(x) <==> o.contains(x) || x == k by {
            if o.contains(x) {
                let i = choose|i: int| 0 <= i < o.len() && o[i] == x;
                assert(o1[i] == x);
            }
        }
        assert(o1.no_duplicates()) by {
            assert forall|i: int| 0 <= i < o.len() implies o[i] != k by {
                assert(o.contains(o[i]));
            }
        }
        lemma_unseen_subset(g, seen, s);
        assert forall|x: usize, j: int|
            s.contains(x) && !seen.contains(x) && 0 <= j < g[x as int].len() implies s.contains(
            #[trigger] g[x as int][j],
        ) by {
            if x == k {
                assert(g[k as int][j] < g.len());
            }
        }
        assert forall|x: usize| #[trigger] s.contains(x) && !seen.contains(x) implies reaches(
            g,
            k,
            x,
        ) by {}
    }
}

proof fn lemma_visit_from(
    g: Graph,
    k: usize,
    j: nat,
    seen: Set<usize>,
    order: Seq<usize>,
    fuel: nat,
)
    requires
        ready(g, seen, order, fuel),
        k < g.len(),
    ensures
        ({
            let (s, o) = visit_from(g, g[k as int], j, seen, order, fuel);
            &&& grows(g, seen, order, s, o)
            &&& forall|i: int| j <= i < g[k as int].len() ==> s.contains(#[trigger] g[k as int][i])
            &&& ready(g, s, o, fuel)
            &&& forall|x: usize| #[trigger] s.contains(x) && !seen.contains(x) ==> reaches(g, k, x)
        }),
    decreases fuel, g[k as int].len() - j + 1,
{
    let ps = g[k as int];
    if j < ps.len() {
        let p = ps[j as int];
        assert(g[k as int][j as int] < g.len());
        let (s, o) = visit(g, p, seen, order, fuel);
        lemma_visit(g, p, seen, order, fuel);
        let (s1, o1) = visit_from(g, ps, j + 1, s, o, fuel);
        lemma_visit_from(g, k, j + 1, s, o, fuel);
        assert(order.is_prefix_of(o1)) by {
            assert forall|i: int| 0 <= i < order.len() implies order[i] == o1[i] by {
                assert(order[i] == o[i]);
                assert(o[i] == o1[i]);
            }
            assert(order =~= o1.subrange(0, order.len() as int));
        }
        assert forall|x: usize| #[trigger] s1.contains(x) && !seen.contains(x) implies reaches(
            g,
            k,
            x,
        ) by {
            if s.contains(x) {
                let n = choose|n: nat| steps(g, p, x, n);
                assert(steps(g, g[k as int][j as int], x, n));
                assert(steps(g, k, x, n + 1));
            }
        }
        assert forall|x: usize, i: int|
            s1.contains(x) && !seen.contains(x) && 0 <= i < g[x as int].len() implies s1.contains(
            #[trigger] g[x as int][i],
        ) by {
            if s.contains(x) {
                assert(s.contains(g[x as int][i]));
            }
        }
    }
}

/// Nodes that are seen but not left yet have a rank above `r`.
spec fn open_above(seen: Set<usize>, order: Seq<usize>, rank: spec_fn(usize) -> nat, r: nat) -> bool {
    forall|x: usize| #[trigger] seen.contains(x) && !order.contains(x) ==> rank(x) > r
}

proof fn lemma_visit_topological(
    g: Graph,
    k: usize,
    seen: Set<usize>,
    order: Seq<usize>,
    fuel: nat,
    rank: spec_fn(usize) -> nat,
)
    requires
        ready(g, seen, order, fuel),
        k < g.len(),
        falls(g, rank),
        topological(g, order),
        open_above(seen, order, rank, rank(k)),
    ensures
        ({
            let (s, o) = visit(g, k, seen, order, fuel);
            &&& topological(g, o)
            &&& o.contains(k)
        }),
    decreases fuel, 0int,
{
    lemma_unseen_finite(g, seen);
    if !seen.contains(k) {
        assert(unseen(g, seen).contains(k));
        lemma_unseen_insert(g, seen, k);
        let f = (fuel - 1) as nat;
        let s0 = seen.insert(k);
        let (s, o) = visit_from(g, g[k as int], 0, s0, order, f);
        lemma_visit_from(g, k, 0, s0, order, f);
        assert(!order.contains(k));
        lemma_visit_from_topological(g, k, 0, s0, order, f, rank);
        let o1 = o.push(k);
        assert(o1[o.len() as int] == k);
        assert forall|i: int, j: int|
            0 <= i < o1.len() && 0 <= j < g[o1[i] as int].len() implies o1.take(i).contains(
            #[trigger] g[o1[i] as int][j],
        ) by {
            if i < o.len() {
                assert(o.take(i).contains(g[o[i] as int][j]));
                assert(o1.take(i) =~= o.take(i));
            } else {
                assert(o.contains(g[k as int][j]));
                assert(o1.take(i) =~= o);
            }
        }
    } else {
        assert(order.contains(k));
    }
}

proof fn lemma_visit_from_topological(
    g: Graph,
    k: usize,
    j: nat,
    seen: Set<usize>,
    order: Seq<usize>,
    fuel: nat,
    rank: spec_fn(usize) -> nat,
)
    requires
        ready(g, seen, order, fuel),
        k < g.len(),
        falls(g, rank),
        topological(g, order),
        forall|x: usize| #[trigger] seen.contains(x) && !order.contains(x) ==> rank(x) >= rank(k),
    ensures
        ({
            let (s, o) = visit_from(g, g[k as int], j, seen, order, fuel);
            &&& topological(g, o)
            &&& forall|i: int| j <= i < g[k as int].len() ==> o.contains(#[trigger] g[k as int][i])
        }),
    decreases fuel, g[k as int].len() - j + 1,
{
    let ps = g[k as int];
    if j < ps.len() {
        let p = ps[j as int];
        assert(g[k as int][j as int] < g.len());
        assert(rank(p) < rank(k));
        let (s, o) = visit(g, p, seen, order, fuel);
        lemma_visit(g, p, seen, order, fuel);
        lemma_visit_topological(g, p, seen, order, fuel, rank);
        assert forall|x: usize| #[trigger] s.contains(x) && !o.contains(x) implies rank(x) >= rank(
            k,
        ) by {
            assert(seen.contains(x));
        }
        lemma_visit_from_topological(g, k, j + 1, s, o, fuel, rank);
        lemma_visit_from(g, k, j + 1, s, o, fuel);
        let (s1, o1) = visit_from(g, ps, j + 1, s, o, fuel);
        assert(o1.contains(p));
    }
}

proof fn lemma_reached_in_closed_set(g: Graph, s: Set<usize>, a: usize, b: usize, n: nat)
    requires
        s.contains(a),
        forall|x: usize, j: int|
            s.contains(x) && 0 <= j < g[x as int].len() ==> s.contains(#[trigger] g[x as int][j]),
        steps(g, a, b, n),
    ensures
        s.contains(b),
    decreases n,
{
    if n > 0 {
        let j = choose|j: int|
            0 <= j < g[a as int].len() && steps(g, #[trigger] g[a as int][j], b, (n - 1) as nat);
        lemma_reached_in_closed_set(g, s, g[a as int][j], b, (n - 1) as nat);
    }
}

/// A depth-first search from `k` lists exactly the nodes that `k` reaches,
/// each once and `k` last; without cycles, every node comes after the nodes
/// it points to.
pub proof fn post_order_lists_reached(g: Graph, k: usize)
    requires
        closed(g),
        g.len() <= usize::MAX,
        k < g.len(),
    ensures
        ({
            let o = post_order(g, k);
            &&& o.no_duplicates()
            &&& forall|x: usize| #[trigger] o.contains(x) <==> reaches(g, k, x)
            &&& forall|i: int| 0 <= i < o.len() ==> #[trigger] o[i] < g.len()
            &&& o.len() > 0
            &&& o.last() == k
            &&& acyclic(g) ==> topological(g, o)
        }),
{
    let s0 = Set::<usize>::empty();
    let o0 = Seq::<usize>::empty();
    lemma_unseen_finite(g, s0);
    lemma_visit(g, k, s0, o0, g.len());
    let (s, o) = visit(g, k, s0, o0, g.len());
    assert forall|x: usize| #[trigger] o.contains(x) <==> reaches(g, k, x) by {
        assert(o.contains(x) <==> s.contains(x));
        if reaches(g, k, x) {
            let n = choose|n: nat| steps(g, k, x, n);
            lemma_reached_in_closed_set(g, s, k, x, n);
        }
    }
    assert forall|i: int| 0 <= i < o.len() implies #[trigger] o[i] < g.len() by {
        assert(o.contains(o[i]));
        assert(s.contains(o[i]));
    }
    if acyclic(g) {
        let rank = choose|rank: spec_fn(usize) -> nat| #[trigger] falls(g, rank);
        lemma_visit_topological(g, k, s0, o0, g.len(), rank);
    }
}

fn visit_node(
    adj: &Vec<Vec<usize>>,
    k: usize,
    marks: &mut Vec<bool>,
    order: &mut Vec<usize>,
    Ghost(fuel): Ghost<nat>,
)
    requires
        k < adj@.len(),
        old(marks)@.len() == adj@.len(),
        ready(graph_of(adj@), marked(old(marks)@), old(order)@, fuel),
    ensures
        final(marks)@.len() == adj@.len(),
        (marked(final(marks)@), final(order)@) == visit(
            graph_of(adj@),
            k,
            marked(old(marks)@),
            old(order)@,
            fuel,
        ),
    decreases fuel,
{
    let ghost g = graph_of(adj@);
    let ghost seen = marked(marks@);
    if marks[k] {
        return;
    }
    proof {
        lemma_unseen_finite(g, seen);
        assert(unseen(g, seen).contains(k));
        lemma_unseen_insert(g, seen, k);
    }
    marks.set(k, true);
    assert(marked(marks@) =~= seen.insert(k));
    let ghost f = (fuel - 1) as nat;
    let ghost goal = visit_from(g, g[k as int], 0, seen.insert(k), order@, f);
    let mut j: usize = 0;
    while j < adj[k].len()
        invariant
            k < adj@.len(),
            fuel > 0,
            f == fuel - 1,
            g == graph_of(adj@),
            marks@.len() == adj@.len(),
            ready(g, marked(marks@), order@, f),
            j <= adj@[k as int]@.len(),
            visit_from(g, g[k as int], j as nat, marked(marks@), order@, f) == goal,
        decreases adj@[k as int]@.len() - j,
    {
        let p: usize = adj[k][j];
        proof {
            assert(g[k as int][j as int] == p);
            lemma_visit(g, p, marked(marks@), order@, f);
        }
        visit_node(adj, p, marks, order, Ghost(f));
        j += 1;
    }
    order.push(k);
}

spec fn marked(marks: Seq<bool>) -> Set<usize> {
    Set::new(|k: usize| k < marks.len() && marks[k as int])
}

fn no_marks(n: usize) -> (r: Vec<bool>)
    ensures
        r@.len() == n,
        marked(r@) == Set::<usize>::empty(),
{
    let mut r: Vec<bool> = Vec::new();
    let mut i: usize = 0;
    while i < n
        invariant
            i <= n,
            r@.len() == i,
            forall|k: int| 0 <= k < i ==> !#[trigger] r@[k],
        decreases n - i,
    {
        r.push(false);
        i += 1;
    }
    assert(marked(r@) =~= Set::<usize>::empty());
    r
}

/// The nodes that `k` reaches, in the order in which a depth-first search
/// leaves them.
pub fn depth_first(adj: &Vec<Vec<usize>>, k: usize) -> (r: Vec<usize>)
    requires
        closed(graph_of(adj@)),
        k < adj@.len(),
    ensures
        r@ == post_order(graph_of(adj@), k),
{
    let mut marks: Vec<bool> = no_marks(adj.len());
    let mut order: Vec<usize> = Vec::new();
    let ghost g = graph_of(adj@);
    proof {
        lemma_unseen_finite(g, Set::empty());
        assert(order@ =~= Seq::empty());
    }
    visit_node(adj, k, &mut marks, &mut order, Ghost(g.len()));
    order
}

// ---------------------------------------------------------------------------
// Cycles.
// ---------------------------------------------------------------------------
/// How far the search for cycles has come with a node.
#[derive(Clone, Copy, PartialEq, Eq, Structural)]
enum Mark {
    Unvisited,
    InProgress,
    Done,
}

spec fn search_state(g: Graph, marks: Seq<Mark>, path: Seq<usize>, order: Seq<usize>) -> bool {
    &&& closed(g)
    &&& g.len() <= usize::MAX
    &&& marks.len() == g.len()
    &&& forall|x: usize| x < g.len() ==> (#[trigger] marks[x as int] == Mark::Done <==> order.contains(x))
    &&& forall|x: usize|
        x < g.len() ==> (#[trigger] marks[x as int] == Mark::InProgress <==> path.contains(x))
    &&& forall|i: int| 0 <= i < path.len() ==> #[trigger] path[i] < g.len()
    &&& forall|i: int| 0 <= i < order.len() ==> #[trigger] order[i] < g.len()
    &&& forall|i: int| 0 <= i < path.len() - 1 ==> g[#[trigger] path[i] as int].contains(path[i + 1])
    &&& topological(g, order)
}

spec fn fresh_nodes(marks: Seq<Mark>) -> Set<usize> {
    Set::new(|k: usize| k < marks.len() && marks[k as int] == Mark::Unvisited)
}

proof fn lemma_fresh_shrinks(marks: Seq<Mark>, k: usize, m: Mark)
    requires
        marks.len() <= usize::MAX,
        k < marks.len(),
        marks[k as int] == Mark::Unvisited,
        m != Mark::Unvisited,
    ensures
        fresh_nodes(marks.update(k as int, m)).len() < fresh_nodes(marks).len(),
{
    lemma_fresh_finite(marks);
    assert(fresh_nodes(marks.update(k as int, m)) =~= fresh_nodes(marks).remove(k));
    assert(fresh_nodes(marks).contains(k));
}

proof fn lemma_fresh_finite(marks: Seq<Mark>)
    requires
        marks.len() <= usize::MAX,
    ensures
        fresh_nodes(marks).finite(),
{
    let all = Set::new(|k: usize| k < marks.len());
    lemma_nodes_finite(marks.len());
    assert(fresh_nodes(marks).subset_of(all));
    vstd::set_lib::lemma_set_subset_finite(all, fresh_nodes(marks));
}

proof fn lemma_fresh_fewer(before: Seq<Mark>, after: Seq<Mark>)
    requires
        before.len() <= usize::MAX,
        after.len() == before.len(),
        forall|x: int|
            0 <= x < before.len() && #[trigger] after[x] == Mark::Unvisited ==> before[x]
                == Mark::Unvisited,
    ensures
        fresh_nodes(after).len() <= fresh_nodes(before).len(),
{
    lemma_fresh_finite(before);
    assert(fresh_nodes(after).subset_of(fresh_nodes(before)));
    vstd::set_lib::lemma_len_subset(fresh_nodes(after), fresh_nodes(before));
}

/// Searches from `k`, with the nodes in progress in `path`. On a cycle it
/// returns true and leaves the walk into it in `path`.
fn search_cycle(
    adj: &Vec<Vec<usize>>,
    k: usize,
    marks: &mut Vec<Mark>,
    path: &mut Vec<usize>,
    order: &mut Ghost<Seq<usize>>,
) -> (r: bool)
    requires
        k < adj@.len(),
        search_state(graph_of(adj@), old(marks)@, old(path)@, old(order)@),
        old(path)@.len() > 0 ==> graph_of(adj@)[old(path)@.last() as int].contains(k),
    ensures
        r ==> cycle_path(graph_of(adj@), final(path)@),
        !r ==> {
            &&& search_state(graph_of(adj@), final(marks)@, final(path)@, final(order)@)
            &&& final(path)@ == old(path)@
            &&& final(order)@.contains(k)
            &&& old(order)@.is_prefix_of(final(order)@)
            &&& forall|x: int|
                0 <= x < adj@.len() && #[trigger] final(marks)@[x] == Mark::Unvisited ==> old(
                    marks,
                )@[x] == Mark::Unvisited
        },
    decreases fresh_nodes(old(marks)@).len(),
{
    let ghost g = graph_of(adj@);
    match marks[k] {
        Mark::Done => {
            return false;
        },
        Mark::InProgress => {
            let ghost before = path@;
            path.push(k);
            proof {
                let i = choose|i: int| 0 <= i < before.len() && before[i] == k;
                assert(path@[i] == path@.last());
                assert forall|i: int| 0 <= i < path@.len() - 1 implies g[#[trigger] path@[
                    i] as int].contains(path@[i + 1]) by {
                    assert(path@[i] == before[i]);
                    if i + 1 < before.len() {
                        assert(path@[i + 1] == before[i + 1]);
                    }
                }
            }
            return true;
        },
        Mark::Unvisited => {},
    }
    let ghost marks0 = marks@;
    let ghost path0 = path@;
    let ghost order0 = order@;
    marks.set(k, Mark::InProgress);
    path.push(k);
    proof {
        lemma_fresh_shrinks(marks0, k, Mark::InProgress);
        assert(path@.last() == k);
        assert(path@[path0.len() as int] == k);
        assert forall|x: usize| x < g.len() implies (#[trigger] marks@[x as int]
            == Mark::InProgress <==> path@.contains(x)) by {
            assert(marks0[x as int] == Mark::InProgress <==> path0.contains(x));
            if path0.contains(x) {
                let i = choose|i: int| 0 <= i < path0.len() && path0[i] == x;
                assert(path@[i] == x);
            }
            if path@.contains(x) && x != k {
                let i = choose|i: int| 0 <= i < path@.len() && path@[i] == x;
                assert(path0[i] == x);
            }
        }
        assert forall|x: usize| x < g.len() implies (#[trigger] marks@[x as int] == Mark::Done
            <==> order@.contains(x)) by {
            assert(marks0[x as int] == Mark::Done <==> order0.contains(x));
        }
        assert forall|i: int| 0 <= i < path@.len() - 1 implies g[#[trigger] path@[
            i] as int].contains(path@[i + 1]) by {
            assert(path@[i] == path0[i]);
            if i + 1 < path0.len() {
                assert(path@[i + 1] == path0[i + 1]);
            }
        }
    }
    let ghost path1 = path@;
    let ghost marks1 = marks@;
    let mut j: usize = 0;
    while j < adj[k].len()
        invariant
            k < adj@.len(),
            g == graph_of(adj@),
            search_state(g, marks@, path@, order@),
            path@ == path1,
            path1 == path0.push(k),
            order0.is_prefix_of(order@),
            j <= adj@[k as int]@.len(),
            forall|i: int| 0 <= i < j ==> order@.contains(#[trigger] g[k as int][i]),
            forall|x: int|
                0 <= x < adj@.len() && #[trigger] marks@[x] == Mark::Unvisited ==> marks1[x]
                    == Mark::Unvisited,
            marks1.len() == g.len(),
            fresh_nodes(marks1).len() < fresh_nodes(old(marks)@).len(),
        decreases adj@[k as int]@.len() - j,
    {
        let p: usize = adj[k][j];
        let ghost before = order@;
        proof {
            assert(g[k as int][j as int] == p);
            assert(g[path@.last() as int].contains(p));
            lemma_fresh_fewer(marks1, marks@);
        }
        if search_cycle(adj, p, marks, path, order) {
            return true;
        }
        proof {
            assert forall|i: int| 0 <= i < j + 1 implies order@.contains(
                #[trigger] g[k as int][i],
            ) by {
                if i < j {
                    lemma_prefix_contains(before, order@, g[k as int][i]);
                }
            }
            lemma_prefix_trans(order0, before, order@);
        }
        j += 1;
    }
    let ghost order2 = order@;
    let ghost marks2 = marks@;
    path.pop();
    marks.set(k, Mark::Done);
    proof {
        *order = Ghost(order2.push(k));
        assert(path@ =~= path0);
        assert(marks2[k as int] == Mark::InProgress) by {
            assert(path1[path0.len() as int] == k);
            assert(path1.contains(k));
        }
        assert(order@[order2.len() as int] == k);
        assert(!path0.contains(k));
        assert forall|x: usize| x < g.len() implies (#[trigger] marks@[x as int]
            == Mark::InProgress <==> path@.contains(x)) by {
            assert(marks2[x as int] == Mark::InProgress <==> path1.contains(x));
            if path0.contains(x) {
                let i = choose|i: int| 0 <= i < path0.len() && path0[i] == x;
                assert(path1[i] == x);
            }
            if path1.contains(x) && x != k {
                let i = choose|i: int| 0 <= i < path1.len() && path1[i] == x;
                assert(path0[i] == x);
            }
        }
        assert forall|x: usize| x < g.len() implies (#[trigger] marks@[x as int] == Mark::Done
            <==> order@.contains(x)) by {
            assert(marks2[x as int] == Mark::Done <==> order2.contains(x));
            if order2.contains(x) {
                lemma_prefix_contains(order2, order@, x);
            }
            if order@.contains(x) && x != k {
                let i = choose|i: int| 0 <= i < order@.len() && order@[i] == x;
                assert(order2[i] == x);
            }
        }
        assert forall|i: int, j: int|
            0 <= i < order@.len() && 0 <= j < g[order@[i] as int].len() implies order@.take(
            i,
        ).contains(#[trigger] g[order@[i] as int][j]) by {
            if i < order2.len() {
                assert(order2.take(i).contains(g[order2[i] as int][j]));
                assert(order@.take(i) =~= order2.take(i));
            } else {
                assert(order2.contains(g[k as int][j]));
                assert(order@.take(i) =~= order2);
            }
        }
        assert(order0.is_prefix_of(order@)) by {
            lemma_prefix_trans(order0, order2, order@);
        }
        assert forall|i: int| 0 <= i < path@.len() - 1 implies g[#[trigger] path@[
            i] as int].contains(path@[i + 1]) by {
            assert(path1[i] == path0[i] && path1[i + 1] == path0[i + 1]);
        }
    }
    false
}

proof fn lemma_prefix_contains(a: Seq<usize>, b: Seq<usize>, x: usize)
    requires
        a.is_prefix_of(b),
        a.contains(x),
    ensures
        b.contains(x),
{
    let i = choose|i: int| 0 <= i < a.len() && a[i] == x;
    assert(b[i] == x);
}

proof fn lemma_prefix_trans(a: Seq<usize>, b: Seq<usize>, c: Seq<usize>)
    requires
        a.is_prefix_of(b),
        b.is_prefix_of(c),
    ensures
        a.is_prefix_of(c),
{
    assert forall|i: int| 0 <= i < a.len() implies a[i] == c[i] by {
        assert(a[i] == b[i] && b[i] == c[i]);
    }
    assert(a =~= c.subrange(0, a.len() as int));
}

/// A walk into a cycle rules out every falling rank.
pub proof fn cycle_is_not_acyclic(g: Graph, path: Seq<usize>)
    requires
        cycle_path(g, path),
    ensures
        !acyclic(g),
{
    if acyclic(g) {
        let rank = choose|rank: spec_fn(usize) -> nat| #[trigger] falls(g, rank);
        let i = choose|i: int| 0 <= i < path.len() - 1 && #[trigger] path[i] == path.last();
        lemma_rank_falls(g, path, rank, i, path.len() - 1);
    }
}

proof fn lemma_rank_falls(
    g: Graph,
    path: Seq<usize>,
    rank: spec_fn(usize) -> nat,
    i: int,
    j: int,
)
    requires
        cycle_path(g, path),
        falls(g, rank),
        0 <= i < j < path.len(),
    ensures
        rank(path[j]) < rank(path[i]),
    decreases j,
{
    let a = path[j - 1];
    assert(g[a as int].contains(path[j - 1 + 1]));
    let k = choose|k: int| 0 <= k < g[a as int].len() && g[a as int][k] == path[j];
    assert(rank(g[a as int][k]) < rank(a));
    if i < j - 1 {
        lemma_rank_falls(g, path, rank, i, j - 1);
    }
}

/// An order of all nodes in which every node comes after those it points to
/// rules out cycles.
pub proof fn topological_is_acyclic(g: Graph, order: Seq<usize>)
    requires
        topological(g, order),
        forall|x: usize| x < g.len() ==> #[trigger] order.contains(x),
    ensures
        acyclic(g),
{
    let rank = |x: usize| order.index_of_first(x)->Some_0 as nat;
    assert forall|k: usize, j: int| k < g.len() && 0 <= j < g[k as int].len() implies rank(
        #[trigger] g[k as int][j],
    ) < rank(k) by {
        assert(order.contains(k));
        order.index_of_first_ensures(k);
        let i = rank(k) as int;
        assert(order[i] == k);
        let p = g[order[i] as int][j];
        assert(order.take(i).contains(p));
        let q = choose|q: int| 0 <= q < order.take(i).len() && order.take(i)[q] == p;
        assert(order[q] == p);
        order.index_of_first_ensures(p);
    }
    assert(falls(g, rank));
}

/// Looks for a cycle: `None` where there is none, else a walk that ends at a
/// node it has been at before.
pub fn find_cycle(adj: &Vec<Vec<usize>>) -> (r: Option<Vec<usize>>)
    requires
        closed(graph_of(adj@)),
    ensures
        match r {
            None => acyclic(graph_of(adj@)),
            Some(path) => cycle_path(graph_of(adj@), path@) && !acyclic(graph_of(adj@)),
        },
{
    let ghost g = graph_of(adj@);
    let mut marks: Vec<Mark> = Vec::new();
    let mut i: usize = 0;
    while i < adj.len()
        invariant
            i <= adj@.len(),
            marks@.len() == i,
            forall|k: int| 0 <= k < i ==> #[trigger] marks@[k] == Mark::Unvisited,
        decreases adj@.len() - i,
    {
        marks.push(Mark::Unvisited);
        i += 1;
    }
    let mut path: Vec<usize> = Vec::new();
    let mut order: Ghost<Seq<usize>> = Ghost(Seq::empty());
    let mut k: usize = 0;
    while k < adj.len()
        invariant
            g == graph_of(adj@),
            k <= adj@.len(),
            search_state(g, marks@, path@, order@),
            path@.len() == 0,
            forall|x: usize| x < k ==> #[trigger] order@.contains(x),
        decreases adj@.len() - k,
    {
        let ghost before = order@;
        if search_cycle(adj, k, &mut marks, &mut path, &mut order) {
            proof {
                cycle_is_not_acyclic(g, path@);
            }
            return Some(path);
        }
        proof {
            assert forall|x: usize| x < k + 1 implies #[trigger] order@.contains(x) by {
                if x < k {
                    lemma_prefix_contains(before, order@, x);
                }
            }
        }
        k += 1;
    }
    proof {
        topological_is_acyclic(g, order@);
    }
    None
}

} // verus!
