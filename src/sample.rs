use vstd::prelude::*;
use crate::graph::{as_pair, pairs_of, EdgeList, GRAPH_LIMIT};
use crate::model::{barabasi_albert_ok, chain_ok, erdos_renyi_ok, tree_ok, watts_strogatz_ok, Probability};
use vstd::arithmetic::div_mod::{lemma_fundamental_div_mod_converse, lemma_small_mod};
use crate::random::uniform_below;

verus! {

/// The path `0 - 1 - ... - (n-1)`, each edge from the lower index to the higher.
pub open spec fn chain_edges(n: int) -> Seq<(int, int)> {
    Seq::new((n - 1) as nat, |i: int| (i, i + 1))
}

/// A chain of `n` nodes. It draws nothing at random.
pub fn sample_chain(n: usize) -> (g: EdgeList)
    requires
        chain_ok(n as int),
    ensures
        g.wf(),
        g.node_count == n,
        g.spec_edges() == chain_edges(n as int),
{
    let mut edges: Vec<(usize, usize)> = Vec::new();
    let mut i: usize = 1;
    while i < n
        invariant
            1 <= i <= n <= GRAPH_LIMIT,
            edges@.len() == i - 1,
            forall|j: int| 0 <= j < i - 1 ==> #[trigger] edges@[j] == (j as usize, (j + 1) as usize),
        decreases n - i,
    {
        edges.push((i - 1, i));
        i = i + 1;
    }
    let g = EdgeList { node_count: n, edges };
    assert(g.spec_edges() =~= chain_edges(n as int));
    g
}

/// Edge `i` attaches node `i + 1` to a node before it: the shape of a
/// random recursive tree on `n` nodes.
pub open spec fn is_recursive_tree(edges: Seq<(int, int)>, n: int) -> bool {
    &&& edges.len() == n - 1
    &&& forall|i: int|
        0 <= i < edges.len() ==> (#[trigger] edges[i]).1 == i + 1 && 0 <= edges[i].0 <= i
}

/// A random recursive tree: each node `v` from `1` on is attached to a
/// node drawn uniformly from `0..v`.
pub fn sample_tree(n: usize, rng: &mut rand_pcg::Pcg32) -> (g: EdgeList)
    requires
        tree_ok(n as int),
    ensures
        g.wf(),
        g.node_count == n,
        is_recursive_tree(g.spec_edges(), n as int),
{
    let mut edges: Vec<(usize, usize)> = Vec::new();
    let mut v: usize = 1;
    while v < n
        invariant
            1 <= v <= n <= GRAPH_LIMIT,
            edges@.len() == v - 1,
            forall|j: int|
                0 <= j < v - 1 ==> (#[trigger] edges@[j]).1 == j + 1 && edges@[j].0 <= j,
        decreases n - v,
    {
        let parent = uniform_below(rng, v as u64) as usize;
        edges.push((parent, v));
        v = v + 1;
    }
    EdgeList { node_count: n, edges }
}

/// `(u, v)` is a pair of distinct nodes among `n`; an undirected pair is
/// written with its lower index first.
pub open spec fn is_node_pair(e: (int, int), n: int, directed: bool) -> bool {
    &&& 0 <= e.0 < n
    &&& 0 <= e.1 < n
    &&& e.0 != e.1
    &&& (directed || e.0 < e.1)
}

pub open spec fn lex_lt(a: (int, int), b: (int, int)) -> bool {
    a.0 < b.0 || (a.0 == b.0 && a.1 < b.1)
}

/// The edges are pairs of distinct nodes, in strictly increasing
/// lexicographic order, hence without repetition.
pub open spec fn is_pair_subsequence(edges: Seq<(int, int)>, n: int, directed: bool) -> bool {
    &&& forall|i: int| 0 <= i < edges.len() ==> is_node_pair(#[trigger] edges[i], n, directed)
    &&& forall|i: int, j: int| 0 <= i < j < edges.len() ==> lex_lt(#[trigger] edges[i], #[trigger] edges[j])
}

/// The number of pairs of distinct nodes among `n`: ordered when directed.
pub open spec fn pair_count(n: int, directed: bool) -> int {
    if directed {
        n * (n - 1)
    } else {
        n * (n - 1) / 2
    }
}

/// The undirected pairs whose lower node is below `u`.
pub open spec fn pairs_below(u: int, n: int) -> int
    decreases u,
{
    if u <= 0 {
        0
    } else {
        pairs_below(u - 1, n) + (n - u)
    }
}

proof fn lemma_pairs_below(u: int, n: int)
    requires
        0 <= u <= n,
    ensures
        pairs_below(u, n) * 2 == u * (2 * n - u - 1),
        pairs_below(u, n) <= u * (n - 1),
    decreases u,
{
    if u > 0 {
        lemma_pairs_below(u - 1, n);
        assert(pairs_below(u, n) * 2 == u * (2 * n - u - 1)) by (nonlinear_arith)
            requires
                pairs_below(u, n) == pairs_below(u - 1, n) + (n - u),
                pairs_below(u - 1, n) * 2 == (u - 1) * (2 * n - (u - 1) - 1),
        ;
        assert(pairs_below(u, n) <= u * (n - 1)) by (nonlinear_arith)
            requires
                pairs_below(u, n) == pairs_below(u - 1, n) + (n - u),
                pairs_below(u - 1, n) <= (u - 1) * (n - 1),
                u >= 1,
        ;
    } else {
        assert(u * (2 * n - u - 1) == 0 && u * (n - 1) == 0) by (nonlinear_arith)
            requires
                u == 0,
        ;
    }
}

/// The pairs that the enumeration has passed before reaching `(u, v)`.
pub open spec fn pairs_before(u: int, v: int, n: int, directed: bool) -> int {
    if directed {
        u * (n - 1) + v - (if v > u { 1int } else { 0 })
    } else {
        pairs_below(u, n) + (v - u - 1)
    }
}

/// A trial decided by a draw below `p.scale`: it succeeds when the draw
/// falls below `p.num`, which happens with probability `p`.
pub fn keeps(draw: u64, p: Probability) -> (r: bool)
    ensures
        r == (draw < p.num),
{
    draw < p.num
}

/// The pairs of distinct nodes among `n`, visited from `(u, v)` on in
/// lexicographic order: ordered pairs when directed, pairs with the lower
/// node first otherwise.
pub open spec fn pairs_from(u: int, v: int, n: int, directed: bool) -> Seq<(int, int)>
    decreases n - u, n - v,
{
    if u < 0 || u >= n {
        Seq::empty()
    } else if v >= n {
        pairs_from(u + 1, if directed { 0 } else { u + 2 }, n, directed)
    } else if v < 0 {
        Seq::empty()
    } else if u == v {
        pairs_from(u, v + 1, n, directed)
    } else {
        seq![(u, v)] + pairs_from(u, v + 1, n, directed)
    }
}

/// All pairs of distinct nodes among `n`, in lexicographic order.
pub open spec fn all_pairs(n: int, directed: bool) -> Seq<(int, int)> {
    pairs_from(0, if directed { 0 } else { 1 }, n, directed)
}

/// The pairs `pairs[i]` whose draw `draws[i]` falls below `p.num`, in order.
pub open spec fn kept_pairs(pairs: Seq<(int, int)>, draws: Seq<u64>, p: Probability) -> Seq<(int, int)>
    decreases pairs.len(),
{
    if pairs.len() == 0 {
        Seq::empty()
    } else {
        let rest = kept_pairs(pairs.drop_last(), draws, p);
        if draws[pairs.len() - 1] < p.num {
            rest.push(pairs.last())
        } else {
            rest
        }
    }
}

/// One value per pair of `all_pairs`, in the same order: a uniform draw
/// below `scale` when `random`, else zero.
fn pair_draws(n: usize, directed: bool, scale: u64, random: bool, rng: &mut rand_pcg::Pcg32) -> (draws: Vec<u64>)
    requires
        scale > 0,
    ensures
        draws@.len() == all_pairs(n as int, directed).len(),
        forall|i: int| 0 <= i < draws@.len() ==> #[trigger] draws@[i] < scale,
{
    let mut draws: Vec<u64> = Vec::new();
    let ghost all = all_pairs(n as int, directed);
    let ghost mut visited: Seq<(int, int)> = Seq::empty();
    assert(all =~= visited + pairs_from(0, if directed { 0 } else { 1 }, n as int, directed));
    let mut u: usize = 0;
    while u < n
        invariant
            scale > 0,
            all == all_pairs(n as int, directed),
            draws@.len() == visited.len(),
            forall|i: int| 0 <= i < draws@.len() ==> #[trigger] draws@[i] < scale,
            u <= n,
            all == visited + pairs_from(u as int, if directed { 0 } else { u as int + 1 }, n as int, directed),
        decreases n - u,
    {
        let mut v: usize = if directed { 0 } else { u + 1 };
        while v < n
            invariant
                scale > 0,
                all == all_pairs(n as int, directed),
                draws@.len() == visited.len(),
                forall|i: int| 0 <= i < draws@.len() ==> #[trigger] draws@[i] < scale,
                u < n,
                v <= n,
                all == visited + pairs_from(u as int, v as int, n as int, directed),
            decreases n - v,
        {
            if u != v {
                assert(visited + pairs_from(u as int, v as int, n as int, directed) =~= visited.push((u as int, v as int))
                    + pairs_from(u as int, v as int + 1, n as int, directed));
                let d = if random {
                    uniform_below(rng, scale)
                } else {
                    0
                };
                draws.push(d);
                proof {
                    visited = visited.push((u as int, v as int));
                }
            }
            v = v + 1;
        }
        u = u + 1;
    }
    assert(visited =~= all);
    draws
}

/// The Erdős–Rényi graph that the draws decide: pair `i` of `all_pairs` is
/// kept when `draws[i]` falls below `p.num`.
pub fn erdos_renyi_from_draws(n: usize, p: Probability, directed: bool, draws: &Vec<u64>) -> (g: EdgeList)
    requires
        erdos_renyi_ok(n as int),
        p.wf(),
        draws@.len() == all_pairs(n as int, directed).len(),
        forall|i: int| 0 <= i < draws@.len() ==> #[trigger] draws@[i] < p.scale,
    ensures
        g.wf(),
        g.node_count == n,
        g.spec_edges() == kept_pairs(all_pairs(n as int, directed), draws@, p),
        is_pair_subsequence(g.spec_edges(), n as int, directed),
        p.is_zero() ==> g.spec_edges().len() == 0,
        p.is_one() ==> g.spec_edges().len() == pair_count(n as int, directed),
{
    let mut edges: Vec<(usize, usize)> = Vec::new();
    let ghost all = all_pairs(n as int, directed);
    let ghost mut visited: Seq<(int, int)> = Seq::empty();
    let total: usize = draws.len();
    let mut c: usize = 0;
    assert(all =~= visited + pairs_from(0, if directed { 0 } else { 1 }, n as int, directed));
    let mut u: usize = 0;
    while u < n
        invariant
            all == all_pairs(n as int, directed),
            draws@.len() == all.len() == total,
            forall|i: int| 0 <= i < draws@.len() ==> #[trigger] draws@[i] < p.scale,
            c == visited.len(),
            all == visited + pairs_from(u as int, if directed { 0 } else { u as int + 1 }, n as int, directed),
            pairs_of(edges@) == kept_pairs(visited, draws@, p),
            0 <= u <= n <= GRAPH_LIMIT,
            erdos_renyi_ok(n as int),
            p.wf(),
            forall|i: int| 0 <= i < edges@.len() ==> is_node_pair(#[trigger] as_pair(edges@[i]), n as int, directed),
            forall|i: int| 0 <= i < edges@.len() ==> (#[trigger] edges@[i]).0 < u,
            forall|i: int, j: int| 0 <= i < j < edges@.len() ==> lex_lt(#[trigger] as_pair(edges@[i]), #[trigger] as_pair(edges@[j])),
            edges@.len() <= pairs_before(u as int, if directed { 0 } else { u as int + 1 }, n as int, directed),
            p.is_zero() ==> edges@.len() == 0,
            p.is_one() ==> edges@.len() == pairs_before(u as int, if directed { 0 } else { u as int + 1 }, n as int, directed),
        decreases n - u,
    {
        proof {
            lemma_pairs_below(u as int, n as int);
            lemma_pairs_below(u + 1, n as int);
        }
        let mut v: usize = if directed { 0 } else { u + 1 };
        while v < n
            invariant
                all == all_pairs(n as int, directed),
                draws@.len() == all.len() == total,
                forall|i: int| 0 <= i < draws@.len() ==> #[trigger] draws@[i] < p.scale,
                c == visited.len(),
                all == visited + pairs_from(u as int, v as int, n as int, directed),
                pairs_of(edges@) == kept_pairs(visited, draws@, p),
                0 <= u < n <= GRAPH_LIMIT,
                directed ==> v <= n,
                !directed ==> u + 1 <= v <= n,
                erdos_renyi_ok(n as int),
                p.wf(),
                pairs_below(u as int, n as int) <= u * (n - 1),
                pairs_below(u + 1, n as int) == pairs_below(u as int, n as int) + (n - u - 1),
                forall|i: int| 0 <= i < edges@.len() ==> is_node_pair(#[trigger] as_pair(edges@[i]), n as int, directed),
                forall|i: int| 0 <= i < edges@.len() ==> (#[trigger] edges@[i]).0 < u || (edges@[i].0 == u && edges@[i].1 < v),
                forall|i: int, j: int| 0 <= i < j < edges@.len() ==> lex_lt(#[trigger] as_pair(edges@[i]), #[trigger] as_pair(edges@[j])),
                edges@.len() <= pairs_before(u as int, v as int, n as int, directed),
                p.is_zero() ==> edges@.len() == 0,
                p.is_one() ==> edges@.len() == pairs_before(u as int, v as int, n as int, directed),
            decreases n - v,
        {
            if u != v {
                let ghost rest = pairs_from(u as int, v as int + 1, n as int, directed);
                assert(visited + pairs_from(u as int, v as int, n as int, directed) =~= visited.push((u as int, v as int)) + rest);
                let ghost old_edges = edges@;
                let keep = keeps(draws[c], p);
                proof {
                    assert(visited.push((u as int, v as int)).drop_last() =~= visited);
                }
                if keep {
                    assert(u * (n - 1) <= (n - 1) * (n - 1) && (n - 1) * (n - 1) + (n - 1) == n * (n - 1))
                        by (nonlinear_arith)
                        requires
                            u < n,
                    ;
                    edges.push((u, v));
                    assert(pairs_of(edges@) =~= pairs_of(old_edges).push((u as int, v as int)));
                }
                proof {
                    visited = visited.push((u as int, v as int));
                }
                c = c + 1;
            }
            v = v + 1;
        }
        assert(u * (n - 1) + (n - 1) == (u + 1) * (n - 1)) by (nonlinear_arith);
        u = u + 1;
    }
    assert(visited =~= all);
    let g = EdgeList { node_count: n, edges };
    proof {
        lemma_pairs_below(n as int, n as int);
        assert(n * (2 * n - n - 1) == n * (n - 1)) by (nonlinear_arith);
        assert(n * (n - 1) <= GRAPH_LIMIT);
        assert forall|i: int| 0 <= i < edges@.len() implies (#[trigger] edges@[i]).0 < n && edges@[i].1 < n by {
            assert(is_node_pair(as_pair(edges@[i]), n as int, directed));
        }
        assert forall|i: int| 0 <= i < g.spec_edges().len() implies is_node_pair(
            #[trigger] g.spec_edges()[i],
            n as int,
            directed,
        ) by {
            assert(is_node_pair(as_pair(edges@[i]), n as int, directed));
        }
        assert forall|i: int, j: int| 0 <= i < j < g.spec_edges().len() implies lex_lt(
            #[trigger] g.spec_edges()[i],
            #[trigger] g.spec_edges()[j],
        ) by {
            assert(lex_lt(as_pair(edges@[i]), as_pair(edges@[j])));
        }
    }
    g
}


/// An Erdős–Rényi graph: every pair of distinct nodes, ordered when
/// directed, is visited in lexicographic order; one uniform value below
/// `p.scale` is drawn for each, and the pair is kept when it falls below
/// `p.num`, that is with probability `p`.
pub fn sample_erdos_renyi(n: usize, p: Probability, directed: bool, rng: &mut rand_pcg::Pcg32) -> (g: EdgeList)
    requires
        erdos_renyi_ok(n as int),
        p.wf(),
    ensures
        g.wf(),
        g.node_count == n,
        exists|draws: Seq<u64>|
            draws.len() == all_pairs(n as int, directed).len() && (forall|i: int| 0 <= i < draws.len() ==> #[trigger] draws[i] < p.scale)
                && g.spec_edges() == kept_pairs(all_pairs(n as int, directed), draws, p),
        is_pair_subsequence(g.spec_edges(), n as int, directed),
        p.is_zero() ==> g.spec_edges().len() == 0,
        p.is_one() ==> g.spec_edges().len() == pair_count(n as int, directed),
{
    let draws = pair_draws(n, directed, p.scale, true, rng);
    erdos_renyi_from_draws(n, p, directed, &draws)
}

/// The complete graph on `n` nodes, each pair once with its lower node first.
fn complete_graph(n: usize, rng: &mut rand_pcg::Pcg32) -> (g: EdgeList)
    requires
        erdos_renyi_ok(n as int),
    ensures
        g.wf(),
        g.node_count == n,
        is_pair_subsequence(g.spec_edges(), n as int, false),
        g.spec_edges().len() == pair_count(n as int, false),
{
    let one = Probability { num: 1, scale: 1 };
    let draws = pair_draws(n, false, 1, false, rng);
    erdos_renyi_from_draws(n, one, false, &draws)
}

/// The ring lattice on `n` nodes where each node is joined to the `k / 2`
/// nodes that follow it around the ring: edge `x` goes from node `x / (k/2)`
/// to the node `x % (k/2) + 1` places further on.
pub open spec fn lattice_edges(n: int, k: int) -> Seq<(int, int)> {
    let h = k / 2;
    Seq::new((n * h) as nat, |x: int| (x / h, (x / h + x % h + 1) % n))
}

/// Edge `x` of the lattice and of every rewiring of it starts at node `x / h`
/// and does not loop back to it.
pub open spec fn keeps_near_ends(edges: Seq<(int, int)>, n: int, h: int) -> bool {
    forall|x: int|
        0 <= x < edges.len() ==> (#[trigger] edges[x]).0 == x / h && 0 <= edges[x].1 < n
            && edges[x].1 != edges[x].0
}

/// The two edges join the same two nodes, in either direction.
pub open spec fn same_link(a: (int, int), b: (int, int)) -> bool {
    a == b || (a.0 == b.1 && a.1 == b.0)
}

/// No two edges join the same two nodes.
pub open spec fn no_repeated_links(edges: Seq<(int, int)>) -> bool {
    forall|i: int, j: int| 0 <= i < j < edges.len() ==> !same_link(#[trigger] edges[i], #[trigger] edges[j])
}

proof fn lemma_mod_window(s: int, n: int)
    requires
        0 <= s < 2 * n,
    ensures
        s % n == (if s < n { s } else { s - n }),
{
    if s < n {
        lemma_small_mod(s as nat, n as nat);
    } else {
        lemma_fundamental_div_mod_converse(s, n, 1, s - n);
    }
}

proof fn lemma_lattice_links_distinct(n: int, k: int, x: int, y: int)
    requires
        watts_strogatz_ok(n, k),
        0 <= x < y < lattice_edges(n, k).len(),
    ensures
        !same_link(lattice_edges(n, k)[x], lattice_edges(n, k)[y]),
{
    let h = k / 2;
    let q1 = x / h;
    let r1 = x % h;
    let q2 = y / h;
    let r2 = y % h;
    assert(0 <= n * h) by (nonlinear_arith)
        requires
            n >= 0,
            h >= 0,
    ;
    vstd::arithmetic::div_mod::lemma_fundamental_div_mod(x, h);
    vstd::arithmetic::div_mod::lemma_fundamental_div_mod(y, h);
    vstd::arithmetic::div_mod::lemma_mod_pos_bound(x, h);
    vstd::arithmetic::div_mod::lemma_mod_pos_bound(y, h);
    vstd::arithmetic::div_mod::lemma_div_pos_is_pos(x, h);
    vstd::arithmetic::div_mod::lemma_div_pos_is_pos(y, h);
    lemma_div_below(x, h, n);
    lemma_div_below(y, h, n);
    lemma_mod_window(q1 + r1 + 1, n);
    lemma_mod_window(q2 + r2 + 1, n);
    if q1 == q2 && r1 == r2 {
        assert(x == y);
    }
}

/// `u` and `w` are joined, in either direction, by one of the edges.
pub open spec fn adjacent(edges: Seq<(int, int)>, u: int, w: int) -> bool {
    exists|i: int| 0 <= i < edges.len() && (edges[i] == (u, w) || edges[i] == (w, u))
}

fn is_adjacent(edges: &Vec<(usize, usize)>, u: usize, w: usize) -> (r: bool)
    ensures
        r == adjacent(pairs_of(edges@), u as int, w as int),
{
    let ghost es = pairs_of(edges@);
    let mut i: usize = 0;
    while i < edges.len()
        invariant
            i <= edges@.len(),
            es == pairs_of(edges@),
            forall|j: int| 0 <= j < i ==> !(es[j] == (u as int, w as int) || es[j] == (w as int, u as int)),
        decreases edges@.len() - i,
    {
        let (a, b) = edges[i];
        if (a == u && b == w) || (a == w && b == u) {
            assert(es[i as int] == (u as int, w as int) || es[i as int] == (w as int, u as int));
            return true;
        }
        i = i + 1;
    }
    false
}

/// The ring lattice of `lattice_edges`.
fn ring_lattice(n: usize, k: usize) -> (edges: Vec<(usize, usize)>)
    requires
        watts_strogatz_ok(n as int, k as int),
    ensures
        pairs_of(edges@) == lattice_edges(n as int, k as int),
        keeps_near_ends(pairs_of(edges@), n as int, k as int / 2),
        no_repeated_links(pairs_of(edges@)),
{
    let h = k / 2;
    let ghost lat = lattice_edges(n as int, k as int);
    assert(n * h <= n * k) by (nonlinear_arith)
        requires
            h <= k,
            n >= 0,
    ;
    let mut edges: Vec<(usize, usize)> = Vec::new();
    let mut i: usize = 0;
    while i < n
        invariant
            watts_strogatz_ok(n as int, k as int),
            h == k / 2,
            n * h <= GRAPH_LIMIT,
            lat == lattice_edges(n as int, k as int),
            i <= n,
            edges@.len() == i * h,
            forall|x: int| 0 <= x < edges@.len() ==> as_pair(#[trigger] edges@[x]) == lat[x],
        decreases n - i,
    {
        let mut j: usize = 1;
        while j <= h
            invariant
                watts_strogatz_ok(n as int, k as int),
                h == k / 2,
                n * h <= GRAPH_LIMIT,
                lat == lattice_edges(n as int, k as int),
                i < n,
                1 <= j <= h + 1,
                edges@.len() == i * h + j - 1,
                forall|x: int| 0 <= x < edges@.len() ==> as_pair(#[trigger] edges@[x]) == lat[x],
            decreases h + 1 - j,
        {
            let t = if j < n - i {
                i + j
            } else {
                j - (n - i)
            };
            let ghost x = i * h + j - 1;
            proof {
                lemma_fundamental_div_mod_converse(x, h as int, i as int, j - 1);
                if j < n - i {
                    lemma_small_mod((i + j) as nat, n as nat);
                } else {
                    lemma_fundamental_div_mod_converse(i + j, n as int, 1, t as int);
                }
                assert(i * h + h <= n * h) by (nonlinear_arith)
                    requires
                        i < n,
                        h >= 0,
                ;
            }
            edges.push((i, t));
            j = j + 1;
        }
        assert(i * h + h == (i + 1) * h) by (nonlinear_arith);
        i = i + 1;
    }
    let ghost es = pairs_of(edges@);
    assert(es =~= lat);
    assert forall|x: int| 0 <= x < es.len() implies (#[trigger] es[x]).0 == x / (h as int) && 0 <= es[x].1 < n
        && es[x].1 != es[x].0 by {
        let q = x / (h as int);
        let r = x % (h as int);
        assert(0 <= r < h);
        assert(0 <= q < n) by {
            lemma_div_below(x, h as int, n as int);
            vstd::arithmetic::div_mod::lemma_div_pos_is_pos(x, h as int);
        }
        if q + r + 1 < n {
            lemma_small_mod((q + r + 1) as nat, n as nat);
        } else {
            lemma_fundamental_div_mod_converse(q + r + 1, n as int, 1, q + r + 1 - n);
        }
    }
    assert forall|x: int, y: int| 0 <= x < y < es.len() implies !same_link(#[trigger] es[x], #[trigger] es[y]) by {
        lemma_lattice_links_distinct(n as int, k as int, x, y);
    }
    edges
}

/// `w` may become the far end of an edge whose near end is `u`: a node
/// other than `u` that no edge joins to `u`.
pub open spec fn is_rewire_target(edges: Seq<(int, int)>, u: int, w: int, n: int) -> bool {
    0 <= w < n && w != u && !adjacent(edges, u, w)
}

/// The nodes that an edge with near end `u` may be moved to, in increasing order.
pub fn rewire_candidates(edges: &Vec<(usize, usize)>, u: usize, n: usize) -> (r: Vec<usize>)
    ensures
        forall|i: int| 0 <= i < r@.len() ==> is_rewire_target(pairs_of(edges@), u as int, #[trigger] r@[i] as int, n as int),
        forall|i: int, j: int| 0 <= i < j < r@.len() ==> #[trigger] r@[i] < #[trigger] r@[j],
        forall|w: int| is_rewire_target(pairs_of(edges@), u as int, w, n as int) ==> exists|i: int| 0 <= i < r@.len() && r@[i] == w,
{
    let mut r: Vec<usize> = Vec::new();
    let mut w: usize = 0;
    while w < n
        invariant
            w <= n,
            forall|i: int| 0 <= i < r@.len() ==> is_rewire_target(pairs_of(edges@), u as int, #[trigger] r@[i] as int, n as int),
            forall|i: int| 0 <= i < r@.len() ==> #[trigger] r@[i] < w,
            forall|i: int, j: int| 0 <= i < j < r@.len() ==> #[trigger] r@[i] < #[trigger] r@[j],
            forall|x: int| 0 <= x < w && is_rewire_target(pairs_of(edges@), u as int, x, n as int) ==> exists|i: int| 0 <= i < r@.len() && r@[i] == x,
        decreases n - w,
    {
        if w != u && !is_adjacent(edges, u, w) {
            let ghost old_r = r@;
            r.push(w);
            assert forall|x: int| 0 <= x < w + 1 && is_rewire_target(pairs_of(edges@), u as int, x, n as int) implies exists|i: int| 0 <= i < r@.len() && r@[i] == x by {
                if x < w {
                    let i = choose|i: int| 0 <= i < old_r.len() && old_r[i] == x;
                    assert(r@[i] == x);
                } else {
                    assert(r@[r@.len() - 1] == x);
                }
            }
        } else {
            assert forall|x: int| 0 <= x < w + 1 && is_rewire_target(pairs_of(edges@), u as int, x, n as int) implies exists|i: int| 0 <= i < r@.len() && r@[i] == x by {
                assert(x < w);
            }
        }
        w = w + 1;
    }
    r
}

/// A Watts–Strogatz graph: the ring lattice, then each lattice edge in turn
/// is, with probability `p`, moved to a far end drawn uniformly among the
/// nodes that are neither its near end nor joined to it. An edge with no such
/// node stays.
pub fn sample_watts_strogatz(n: usize, k: usize, p: Probability, rng: &mut rand_pcg::Pcg32) -> (g: EdgeList)
    requires
        watts_strogatz_ok(n as int, k as int),
        p.wf(),
    ensures
        g.wf(),
        g.node_count == n,
        g.spec_edges().len() == n * (k / 2),
        keeps_near_ends(g.spec_edges(), n as int, k as int / 2),
        no_repeated_links(g.spec_edges()),
        p.is_zero() ==> g.spec_edges() == lattice_edges(n as int, k as int),
{
    let mut edges = ring_lattice(n, k);
    let ghost lat = edges@;
    let ghost h = k as int / 2;
    assert(0 <= n * h <= n * k) by (nonlinear_arith)
        requires
            0 <= h <= k,
            n >= 0,
    ;
    assert(edges@.len() == pairs_of(edges@).len());
    let mut idx: usize = 0;
    while idx < edges.len()
        invariant
            watts_strogatz_ok(n as int, k as int),
            p.wf(),
            h == k / 2,
            n * h <= GRAPH_LIMIT,
            edges@.len() == lat.len() == n * h,
            idx <= edges@.len(),
            keeps_near_ends(pairs_of(edges@), n as int, h),
            no_repeated_links(pairs_of(edges@)),
            p.is_zero() ==> edges@ == lat,
        decreases edges@.len() - idx,
    {
        if keeps(uniform_below(rng, p.scale), p) {
            let u = edges[idx].0;
            let ghost es = pairs_of(edges@);
            assert(es[idx as int].0 == u);
            let candidates = rewire_candidates(&edges, u, n);
            if candidates.len() > 0 {
                let c = uniform_below(rng, candidates.len() as u64) as usize;
                let t = candidates[c];
                edges.set(idx, (u, t));
                proof {
                    let es2 = pairs_of(edges@);
                    assert forall|x: int| 0 <= x < es2.len() implies (#[trigger] es2[x]).0 == x / h && 0 <= es2[x].1 < n
                        && es2[x].1 != es2[x].0 by {
                        if x != idx {
                            assert(es2[x] == es[x]);
                        }
                    }
                    assert forall|x: int, y: int| 0 <= x < y < es2.len() implies !same_link(#[trigger] es2[x], #[trigger] es2[y]) by {
                        if x == idx {
                            assert(es2[y] == es[y]);
                            if same_link(es2[x], es2[y]) {
                                assert(es[y] == (u as int, t as int) || es[y] == (t as int, u as int));
                            }
                        } else if y == idx {
                            assert(es2[x] == es[x]);
                            if same_link(es2[x], es2[y]) {
                                assert(es[x] == (u as int, t as int) || es[x] == (t as int, u as int));
                            }
                        } else {
                            assert(es2[x] == es[x] && es2[y] == es[y]);
                        }
                    }
                }
            }
        }
        idx = idx + 1;
    }
    let g = EdgeList { node_count: n, edges };
    proof {
        let es = g.spec_edges();
        assert forall|i: int| 0 <= i < g.edges@.len() implies (#[trigger] g.edges@[i]).0 < n && g.edges@[i].1 < n by {
            assert(es[i] == as_pair(g.edges@[i]));
            lemma_div_below(i, h as int, n as int);
        }
    }
    g
}

proof fn lemma_div_below(x: int, h: int, n: int)
    requires
        0 <= x < n * h,
        h > 0,
    ensures
        x / h < n,
{
    vstd::arithmetic::div_mod::lemma_fundamental_div_mod(x, h);
    let q = x / h;
    let r = x % h;
    if q >= n {
        assert(h * q >= h * n) by (nonlinear_arith)
            requires
                q >= n,
                h >= 0,
        ;
        assert(h * n == n * h) by (nonlinear_arith);
    }
}

/// The total weight `deg[c]` of the nodes `c` of `s`.
pub open spec fn weight_sum(s: Seq<usize>, deg: Seq<u64>) -> int
    decreases s.len(),
{
    if s.len() == 0 {
        0
    } else {
        weight_sum(s.drop_last(), deg) + deg[s.last() as int]
    }
}

proof fn lemma_weight_concat(a: Seq<usize>, b: Seq<usize>, deg: Seq<u64>)
    ensures
        weight_sum(a + b, deg) == weight_sum(a, deg) + weight_sum(b, deg),
    decreases b.len(),
{
    if b.len() == 0 {
        assert(a + b =~= a);
    } else {
        lemma_weight_concat(a, b.drop_last(), deg);
        assert((a + b).drop_last() =~= a + b.drop_last());
    }
}

proof fn lemma_weight_bounds(s: Seq<usize>, deg: Seq<u64>, hi: int)
    requires
        forall|i: int| 0 <= i < s.len() ==> 1 <= #[trigger] deg[s[i] as int] <= hi,
    ensures
        s.len() <= weight_sum(s, deg) <= s.len() * hi,
    decreases s.len(),
{
    if s.len() > 0 {
        let t = s.drop_last();
        assert forall|i: int| 0 <= i < t.len() implies 1 <= #[trigger] deg[t[i] as int] <= hi by {
            assert(t[i] == s[i]);
        }
        lemma_weight_bounds(t, deg, hi);
        assert(deg[s[s.len() - 1] as int] <= hi);
        assert(t.len() * hi + hi == s.len() * hi) by (nonlinear_arith)
            requires
                t.len() + 1 == s.len(),
        ;
    }
}

proof fn lemma_weight_prefix(s: Seq<usize>, deg: Seq<u64>, i: int)
    requires
        0 <= i < s.len(),
    ensures
        weight_sum(s.subrange(0, i + 1), deg) == weight_sum(s.subrange(0, i), deg) + deg[s[i] as int],
        weight_sum(s.subrange(0, i + 1), deg) + weight_sum(s.subrange(i + 1, s.len() as int), deg)
            == weight_sum(s, deg),
{
    assert(s.subrange(0, i + 1).drop_last() =~= s.subrange(0, i));
    lemma_weight_concat(s.subrange(0, i + 1), s.subrange(i + 1, s.len() as int), deg);
    assert(s.subrange(0, i + 1) + s.subrange(i + 1, s.len() as int) =~= s);
}

proof fn lemma_weight_nonneg(s: Seq<usize>, deg: Seq<u64>)
    ensures
        weight_sum(s, deg) >= 0,
    decreases s.len(),
{
    if s.len() > 0 {
        lemma_weight_nonneg(s.drop_last(), deg);
    }
}

/// The position in `cand` that a draw `r` below the total weight falls on,
/// when each node occupies a stretch as long as its weight.
pub fn pick_weighted(cand: &Vec<usize>, deg: &Vec<u64>, total: u64, r: u64) -> (idx: usize)
    requires
        forall|i: int| 0 <= i < cand@.len() ==> #[trigger] cand@[i] < deg@.len(),
        total == weight_sum(cand@, deg@),
        r < total,
    ensures
        idx < cand@.len(),
        weight_sum(cand@.subrange(0, idx as int), deg@) <= r,
        r < weight_sum(cand@.subrange(0, idx + 1), deg@),
{
    let mut idx: usize = 0;
    let mut acc: u64 = 0;
    assert(cand@.subrange(0, 0) =~= Seq::<usize>::empty());
    while idx < cand.len()
        invariant
            forall|i: int| 0 <= i < cand@.len() ==> #[trigger] cand@[i] < deg@.len(),
            total == weight_sum(cand@, deg@),
            r < total,
            idx <= cand@.len(),
            acc == weight_sum(cand@.subrange(0, idx as int), deg@),
            acc <= r,
        decreases cand@.len() - idx,
    {
        proof {
            lemma_weight_prefix(cand@, deg@, idx as int);
            lemma_weight_nonneg(cand@.subrange(idx + 1, cand@.len() as int), deg@);
        }
        let d = deg[cand[idx]];
        if r < acc + d {
            return idx;
        }
        acc = acc + d;
        idx = idx + 1;
    }
    assert(cand@.subrange(0, idx as int) =~= cand@);
    0
}

/// Position of the first edge that attaches node `v` in a Barabási–Albert
/// graph: after the seed clique on nodes `0..=m` and the `m` edges of each
/// node between.
pub open spec fn growth_base(v: int, m: int) -> int {
    pair_count(m + 1, false) + (v - m - 1) * m
}

/// Edge `j` of those that attach node `v`.
pub open spec fn attached(edges: Seq<(int, int)>, m: int, v: int, j: int) -> (int, int) {
    edges[growth_base(v, m) + j]
}

/// The shape of a Barabási–Albert graph on `n` nodes: first the complete
/// graph on nodes `0..=m`, each pair once with its lower node first; then,
/// for each later node `v` in turn, `m` edges from `v` to distinct earlier nodes.
pub open spec fn is_preferential_growth(edges: Seq<(int, int)>, n: int, m: int) -> bool {
    &&& edges.len() == growth_base(n, m)
    &&& is_pair_subsequence(edges.subrange(0, pair_count(m + 1, false)), m + 1, false)
    &&& forall|v: int, j: int|
        m + 1 <= v < n && 0 <= j < m ==> (#[trigger] attached(edges, m, v, j)).0 == v && 0
            <= attached(edges, m, v, j).1 < v
    &&& forall|v: int, j1: int, j2: int|
        m + 1 <= v < n && 0 <= j1 < j2 < m ==> (#[trigger] attached(edges, m, v, j1)).1
            != (#[trigger] attached(edges, m, v, j2)).1
}

proof fn lemma_growth_base_step(v: int, m: int)
    ensures
        growth_base(v + 1, m) == growth_base(v, m) + m,
{
    assert((v + 1 - m - 1) * m == (v - m - 1) * m + m) by (nonlinear_arith);
}

/// A Barabási–Albert graph: a seed clique on nodes `0..=m`, then each node
/// `v` from `m + 1` on is joined to `m` distinct earlier nodes, drawn one
/// after the other without replacement, each with probability proportional
/// to its degree as it stood when `v` arrived. Edges go from `v` to the
/// node drawn.
pub fn sample_barabasi_albert(n: usize, m: usize, rng: &mut rand_pcg::Pcg32) -> (g: EdgeList)
    requires
        barabasi_albert_ok(n as int, m as int),
    ensures
        g.wf(),
        g.node_count == n,
        is_preferential_growth(g.spec_edges(), n as int, m as int),
{
    assert((m + 1) * m <= n * m && m * m <= n * m) by (nonlinear_arith)
        requires
            m + 1 <= n,
            m >= 0,
    ;
    let seed = complete_graph(m + 1, rng);
    let mut edges = seed.edges;
    let ghost clique = pairs_of(edges@);
    proof {
        lemma_pairs_below(m + 1, m + 1);
        assert((m + 1) * (2 * (m + 1) - (m + 1) - 1) == (m + 1) * m) by (nonlinear_arith);
        assert(growth_base(m + 1, m as int) == pair_count(m + 1, false)) by (nonlinear_arith);
    }
    let mut deg: Vec<u64> = Vec::new();
    let mut i: usize = 0;
    while i <= m
        invariant
            i <= m + 1,
            m < n,
            deg@.len() == i,
            forall|q: int| 0 <= q < i ==> #[trigger] deg@[q] == m,
        decreases m + 1 - i,
    {
        deg.push(m as u64);
        i = i + 1;
    }
    assert(m <= (m + 1) * m) by (nonlinear_arith)
        requires
            m >= 1,
    ;
    let mut v: usize = m + 1;
    while v < n
        invariant
            barabasi_albert_ok(n as int, m as int),
            m + 1 <= v <= n,
            deg@.len() == v,
            forall|q: int| 0 <= q < v ==> 1 <= #[trigger] deg@[q] <= v * m,
            edges@.len() == growth_base(v as int, m as int),
            growth_base(v as int, m as int) <= v * m,
            pairs_of(edges@).subrange(0, pair_count(m + 1, false)) == clique,
            is_pair_subsequence(clique, m + 1, false),
            forall|q: int| 0 <= q < edges@.len() ==> (#[trigger] edges@[q]).0 < v && edges@[q].1 < v,
            forall|w: int, j: int|
                m + 1 <= w < v && 0 <= j < m ==> (#[trigger] attached(pairs_of(edges@), m as int, w, j)).0 == w
                    && 0 <= attached(pairs_of(edges@), m as int, w, j).1 < w,
            forall|w: int, j1: int, j2: int|
                m + 1 <= w < v && 0 <= j1 < j2 < m ==> (#[trigger] attached(pairs_of(edges@), m as int, w, j1)).1
                    != (#[trigger] attached(pairs_of(edges@), m as int, w, j2)).1,
        decreases n - v,
    {
        assert(v * m <= n * m && v * v * m <= GRAPH_LIMIT * GRAPH_LIMIT) by (nonlinear_arith)
            requires
                v <= n,
                n * m <= GRAPH_LIMIT,
                v <= GRAPH_LIMIT,
        ;
        // the nodes not drawn yet in this step
        let mut cand: Vec<usize> = Vec::new();
        let mut c: usize = 0;
        while c < v
            invariant
                c <= v,
                cand@.len() == c,
                forall|q: int| 0 <= q < c ==> #[trigger] cand@[q] == q,
            decreases v - c,
        {
            cand.push(c);
            c = c + 1;
        }
        let mut total: u64 = 0;
        let mut q: usize = 0;
        proof {
            assert(cand@.subrange(0, 0) =~= Seq::<usize>::empty());
            lemma_weight_bounds(cand@, deg@, v * m);
        }
        while q < v
            invariant
                q <= v == cand@.len(),
                forall|x: int| 0 <= x < v ==> #[trigger] cand@[x] == x,
                deg@.len() == v,
                forall|x: int| 0 <= x < v ==> 1 <= #[trigger] deg@[x] <= v * m,
                v * v * m <= GRAPH_LIMIT * GRAPH_LIMIT,
                weight_sum(cand@, deg@) <= v * (v * m),
                total == weight_sum(cand@.subrange(0, q as int), deg@),
            decreases v - q,
        {
            proof {
                lemma_weight_prefix(cand@, deg@, q as int);
                lemma_weight_nonneg(cand@.subrange(q + 1, cand@.len() as int), deg@);
                assert(v * (v * m) == v * v * m) by (nonlinear_arith);
            }
            total = total + deg[q];
            q = q + 1;
        }
        assert(cand@.subrange(0, q as int) =~= cand@);
        assert(v * m + m == (v + 1) * m && (v + 1) * m <= n * m) by (nonlinear_arith)
            requires
                v + 1 <= n,
                m >= 0,
        ;
        let mut next_deg = deg.clone();
        let mut targets: Vec<usize> = Vec::new();
        let ghost start = edges@;
        let mut j: usize = 0;
        while j < m
            invariant
                barabasi_albert_ok(n as int, m as int),
                m + 1 <= v < n,
                j <= m,
                deg@.len() == v,
                next_deg@.len() == v,
                forall|x: int| 0 <= x < v ==> 1 <= #[trigger] deg@[x] <= v * m,
                forall|x: int| 0 <= x < v ==> deg@[x] <= #[trigger] next_deg@[x] <= deg@[x] + j,
                cand@.len() == v - j,
                cand@.no_duplicates(),
                forall|x: int| 0 <= x < cand@.len() ==> #[trigger] cand@[x] < v,
                total == weight_sum(cand@, deg@),
                targets@.len() == j,
                forall|x: int| 0 <= x < j ==> #[trigger] targets@[x] < v,
                forall|x: int, y: int| 0 <= x < j && 0 <= y < cand@.len() ==> #[trigger] targets@[x] != #[trigger] cand@[y],
                forall|x: int, y: int| 0 <= x < y < j ==> #[trigger] targets@[x] != #[trigger] targets@[y],
                edges@.len() == growth_base(v as int, m as int) + j,
                growth_base(v as int, m as int) + m <= (v + 1) * m,
                (v + 1) * m <= GRAPH_LIMIT,
                v * m + m == (v + 1) * m,
                start.len() == growth_base(v as int, m as int),
                forall|x: int| 0 <= x < start.len() ==> #[trigger] edges@[x] == start[x],
                forall|x: int| 0 <= x < j ==> #[trigger] edges@[growth_base(v as int, m as int) + x] == (v, targets@[x]),
            decreases m - j,
        {
            proof {
                lemma_weight_bounds(cand@, deg@, v * m);
            }
            let r = uniform_below(rng, total);
            let idx = pick_weighted(&cand, &deg, total, r);
            let t = cand[idx];
            proof {
                lemma_weight_prefix(cand@, deg@, idx as int);
                lemma_weight_nonneg(cand@.subrange(0, idx as int), deg@);
                lemma_weight_nonneg(cand@.subrange(idx + 1, cand@.len() as int), deg@);
                lemma_weight_concat(cand@.subrange(0, idx as int), cand@.subrange(idx + 1, cand@.len() as int), deg@);
                assert(cand@.remove(idx as int) =~= cand@.subrange(0, idx as int) + cand@.subrange(idx + 1, cand@.len() as int));
            }
            let ghost old_cand = cand@;
            cand.remove(idx);
            total = total - deg[t];
            proof {
                assert forall|x: int, y: int| 0 <= x < y < cand@.len() implies cand@[x] != cand@[y] by {
                    let x2 = if x < idx { x } else { x + 1 };
                    let y2 = if y < idx { y } else { y + 1 };
                    assert(cand@[x] == old_cand[x2]);
                    assert(cand@[y] == old_cand[y2]);
                }
                assert forall|y: int| 0 <= y < cand@.len() implies #[trigger] cand@[y] != t by {
                    let y2 = if y < idx { y } else { y + 1 };
                    assert(cand@[y] == old_cand[y2]);
                }
                assert forall|x: int, y: int| 0 <= x < j && 0 <= y < cand@.len() implies #[trigger] targets@[x] != #[trigger] cand@[y] by {
                    let y2 = if y < idx { y } else { y + 1 };
                    assert(cand@[y] == old_cand[y2]);
                }
                assert forall|y: int| 0 <= y < cand@.len() implies #[trigger] cand@[y] < v by {
                    let y2 = if y < idx { y } else { y + 1 };
                    assert(cand@[y] == old_cand[y2]);
                }
                assert forall|x: int| 0 <= x < j implies #[trigger] targets@[x] != t by {
                    assert(old_cand[idx as int] == t);
                }
            }
            let ghost old_targets = targets@;
            targets.push(t);
            let nd = next_deg[t] + 1;
            next_deg.set(t, nd);
            edges.push((v, t));
            assert forall|x: int, y: int| 0 <= x < y < j + 1 implies #[trigger] targets@[x] != #[trigger] targets@[y] by {
                if y == j {
                    assert(targets@[x] == old_targets[x]);
                }
            }
            j = j + 1;
        }
        deg = next_deg;
        deg.push(m as u64);
        proof {
            assert forall|x: int| 0 <= x < v + 1 implies 1 <= #[trigger] deg@[x] <= (v + 1) * m by {
                assert(v * m + m == (v + 1) * m) by (nonlinear_arith);
                assert(m <= (v + 1) * m) by (nonlinear_arith)
                    requires
                        v >= 0,
                        m >= 0,
                ;
            }
            lemma_growth_base_step(v as int, m as int);
            assert((v + 1) * m <= n * m) by (nonlinear_arith)
                requires
                    v + 1 <= n,
                    m >= 0,
            ;
            let es = pairs_of(edges@);
            let es0 = pairs_of(start);
            assert forall|x: int| 0 <= x < pair_count(m + 1, false) implies es.subrange(0, pair_count(m + 1, false))[x] == clique[x] by {
                assert(es0.subrange(0, pair_count(m + 1, false))[x] == clique[x]);
                assert(edges@[x] == start[x]);
            }
            assert(es.subrange(0, pair_count(m + 1, false)) =~= clique);
            assert forall|w: int, jj: int| m + 1 <= w < v + 1 && 0 <= jj < m implies (#[trigger] attached(es, m as int, w, jj)).0 == w
                && 0 <= attached(es, m as int, w, jj).1 < w by {
                if w < v {
                    lemma_growth_base_step(w, m as int);
                    growth_base_monotone(w + 1, v as int, m as int);
                    assert(attached(es0, m as int, w, jj) == attached(es, m as int, w, jj));
                }
            }
            assert forall|w: int, j1: int, j2: int| m + 1 <= w < v + 1 && 0 <= j1 < j2 < m implies (#[trigger] attached(es, m as int, w, j1)).1
                != (#[trigger] attached(es, m as int, w, j2)).1 by {
                if w < v {
                    lemma_growth_base_step(w, m as int);
                    growth_base_monotone(w + 1, v as int, m as int);
                    assert(attached(es0, m as int, w, j1) == attached(es, m as int, w, j1));
                    assert(attached(es0, m as int, w, j2) == attached(es, m as int, w, j2));
                } else {
                    assert(attached(es, m as int, w, j1) == as_pair(edges@[growth_base(v as int, m as int) + j1]));
                    assert(attached(es, m as int, w, j2) == as_pair(edges@[growth_base(v as int, m as int) + j2]));
                }
            }
            assert forall|x: int| 0 <= x < edges@.len() implies (#[trigger] edges@[x]).0 < v + 1 && edges@[x].1 < v + 1 by {
                if x < start.len() {
                    assert(edges@[x] == start[x]);
                } else {
                    assert(edges@[growth_base(v as int, m as int) + (x - growth_base(v as int, m as int))] == edges@[x]);
                }
            }
        }
        v = v + 1;
    }
    let g = EdgeList { node_count: n, edges };
    assert(g.spec_edges() == pairs_of(edges@));
    g
}

proof fn growth_base_monotone(a: int, b: int, m: int)
    requires
        a <= b,
        m >= 0,
    ensures
        growth_base(a, m) <= growth_base(b, m),
{
    assert((a - m - 1) * m <= (b - m - 1) * m) by (nonlinear_arith)
        requires
            a <= b,
            m >= 0,
    ;
}

} // verus!
