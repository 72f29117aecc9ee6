use vstd::prelude::*;
use crate::model::{
    barabasi_albert_ok, chain_ok, erdos_renyi_ok, probability_of, tree_ok, watts_strogatz_ok, GenError,
    Model, ParamKind,
};
use crate::parse::{parse_count, parse_decimal};
use crate::sample::{attached, growth_base, is_node_pair, is_preferential_growth, is_recursive_tree, pair_count};
use vstd::arithmetic::div_mod::{lemma_fundamental_div_mod, lemma_fundamental_div_mod_converse, lemma_div_pos_is_pos, lemma_mod_pos_bound};

verus! {

/// The token reads as a value of the kind.
pub open spec fn token_reads(tok: Seq<u8>, kind: ParamKind) -> bool {
    match kind {
        ParamKind::Count => parse_count(tok) is Some,
        ParamKind::Probability => parse_decimal(tok) is Some,
    }
}

/// There is one token per parameter and each reads as its parameter's kind.
pub open spec fn all_tokens_read(model: Model, toks: Seq<Seq<u8>>) -> bool {
    &&& toks.len() == model.spec_schema().len()
    &&& forall|i: int| 0 <= i < toks.len() ==> token_reads(#[trigger] toks[i], model.spec_schema()[i])
}

/// The values that the tokens read as meet the model's constraints.
pub open spec fn values_in_range(model: Model, toks: Seq<Seq<u8>>) -> bool {
    match model {
        Model::Chain => chain_ok(parse_count(toks[0])->0 as int),
        Model::Tree => tree_ok(parse_count(toks[0])->0 as int),
        Model::ErdosRenyi => probability_of(parse_decimal(toks[1])->0) is Some && erdos_renyi_ok(
            parse_count(toks[0])->0 as int,
        ),
        Model::BarabasiAlbert => barabasi_albert_ok(
            parse_count(toks[0])->0 as int,
            parse_count(toks[1])->0 as int,
        ),
        Model::WattsStrogatz => probability_of(parse_decimal(toks[2])->0) is Some && watts_strogatz_ok(
            parse_count(toks[0])->0 as int,
            parse_count(toks[1])->0 as int,
        ),
    }
}

/// Binding succeeds exactly when the token count matches the schema, every
/// token reads as its declared kind, and the values meet the model's
/// constraints. Otherwise the error names the first condition broken: the
/// count, then a token that does not read (with its position and kind),
/// then the range.
pub proof fn lemma_bind_outcome(model: Model, toks: Seq<Seq<u8>>)
    ensures
        (model.spec_bind(toks) is Ok) <==> (all_tokens_read(model, toks) && values_in_range(
            model,
            toks,
        )),
        toks.len() != model.spec_schema().len() ==> model.spec_bind(toks) == Err::<
            crate::model::Params,
            GenError,
        >(
            GenError::ArityMismatch {
                expected: model.spec_schema().len() as usize,
                found: toks.len() as usize,
            },
        ),
        toks.len() == model.spec_schema().len() && !all_tokens_read(model, toks) ==> (
        model.spec_bind(toks) matches Err(GenError::ParameterParseError { position, kind })
            && position < toks.len() && kind == model.spec_schema()[position as int]
            && !token_reads(toks[position as int], kind)),
        all_tokens_read(model, toks) && !values_in_range(model, toks) ==> model.spec_bind(toks)
            == Err::<crate::model::Params, GenError>(GenError::ParameterRangeError),
{
    if toks.len() == model.spec_schema().len() {
        let schema = model.spec_schema();
        if !all_tokens_read(model, toks) {
            let i = choose|i: int| 0 <= i < toks.len() && !token_reads(#[trigger] toks[i], schema[i]);
            assert(0 <= i < toks.len());
        } else {
            assert(token_reads(toks[0], schema[0]));
            if toks.len() > 1 {
                assert(token_reads(toks[1], schema[1]));
            }
            if toks.len() > 2 {
                assert(token_reads(toks[2], schema[2]));
            }
        }
    }
}

/// Node `v` is joined to node `0` by following, from `v` down, the edge
/// that attached each node to an earlier one.
pub open spec fn joined_to_root(edges: Seq<(int, int)>, v: int) -> bool
    decreases v,
{
    if v <= 0 {
        v == 0
    } else if v <= edges.len() && 0 <= edges[v - 1].0 < v && edges[v - 1].1 == v {
        joined_to_root(edges, edges[v - 1].0)
    } else {
        false
    }
}

/// A random recursive tree on `n` nodes has `n - 1` edges, every node is
/// joined to node `0`, every edge goes from an earlier node to a later one,
/// and no node is the later end of two edges: it is connected with one edge
/// fewer than nodes, so it has no cycle.
pub proof fn lemma_recursive_tree_is_tree(edges: Seq<(int, int)>, n: int)
    requires
        n >= 1,
        is_recursive_tree(edges, n),
    ensures
        edges.len() == n - 1,
        forall|v: int| 0 <= v < n ==> joined_to_root(edges, v),
        forall|i: int| 0 <= i < edges.len() ==> 0 <= (#[trigger] edges[i]).0 < edges[i].1 < n,
        forall|i: int, j: int|
            0 <= i < j < edges.len() ==> (#[trigger] edges[i]).1 != (#[trigger] edges[j]).1,
{
    assert forall|v: int| 0 <= v < n implies joined_to_root(edges, v) by {
        lemma_joined(edges, n, v);
    }
}

proof fn lemma_joined(edges: Seq<(int, int)>, n: int, v: int)
    requires
        is_recursive_tree(edges, n),
        0 <= v < n,
    ensures
        joined_to_root(edges, v),
    decreases v,
{
    if v > 0 {
        let e = edges[v - 1];
        lemma_joined(edges, n, e.0);
    }
}

/// The later of the two ends of an edge.
pub open spec fn later_end(e: (int, int)) -> int {
    if e.0 < e.1 {
        e.1
    } else {
        e.0
    }
}

/// In a Barabási–Albert graph, for each node `v` beyond the seed clique,
/// the edges whose later end is `v` are exactly the `m` edges that attached
/// `v`: they go from `v` to `m` distinct earlier nodes.
pub proof fn lemma_attachment_edges(edges: Seq<(int, int)>, n: int, m: int, v: int, i: int)
    requires
        1 <= m < n,
        is_preferential_growth(edges, n, m),
        m + 1 <= v < n,
        0 <= i < edges.len(),
    ensures
        later_end(edges[i]) == v <==> growth_base(v, m) <= i < growth_base(v, m) + m,
{
    let clique = pair_count(m + 1, false);
    assert(growth_base(v, m) >= clique) by (nonlinear_arith)
        requires
            v >= m + 1,
            m >= 1,
            growth_base(v, m) == clique + (v - m - 1) * m,
    ;
    if i < clique {
        let head = edges.subrange(0, clique);
        assert(head[i] == edges[i]);
        assert(is_node_pair(head[i], m + 1, false));
    } else {
        let j = i - clique;
        let q = j / m;
        let r = j % m;
        lemma_fundamental_div_mod(j, m);
        lemma_mod_pos_bound(j, m);
        lemma_div_pos_is_pos(j, m);
        let w = m + 1 + q;
        assert(m * q == q * m) by (nonlinear_arith);
        assert(growth_base(w, m) + r == i);
        if q >= n - m - 1 {
            assert(q * m >= (n - m - 1) * m) by (nonlinear_arith)
                requires
                    q >= n - m - 1,
                    m >= 1,
            ;
        }
        assert(w < n);
        assert(attached(edges, m, w, r) == edges[i]);
        if growth_base(v, m) <= i < growth_base(v, m) + m {
            lemma_fundamental_div_mod_converse(j, m, v - m - 1, i - growth_base(v, m));
        }
        if w == v {
            assert(growth_base(v, m) <= i < growth_base(v, m) + m);
        }
    }
}

} // verus!
