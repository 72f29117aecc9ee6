use vstd::prelude::*;
use vstd::string::StringSliceAdditionalSpecFns;
use crate::graph::{digraph_edges, digraph_node_count, ungraph_edges, ungraph_node_count, EdgeList};
use crate::model::{GenError, Model, Params};
use crate::parse::{spec_model_name, spec_tokens, GraphSpec};
use crate::sample::{
    chain_edges, is_pair_subsequence, is_preferential_growth, is_recursive_tree, keeps_near_ends,
    lattice_edges, no_repeated_links, pair_count, sample_barabasi_albert, sample_chain, sample_erdos_renyi, sample_tree,
    sample_watts_strogatz,
};

verus! {

/// The models on offer, in registry order.
pub open spec fn all_models() -> Seq<Model> {
    seq![Model::BarabasiAlbert, Model::Chain, Model::ErdosRenyi, Model::Tree, Model::WattsStrogatz]
}

/// What a specification string (as UTF-8 bytes) binds to: its model is
/// looked up by name, then its tokens are bound to that model.
pub open spec fn spec_build(s: Seq<u8>) -> Result<Params, GenError> {
    match crate::model::spec_model_named(spec_model_name(s)) {
        None => Err(GenError::UnknownModel),
        Some(m) => m.spec_bind(spec_tokens(s)),
    }
}

/// What a draw of the model with parameters `p` looks like, whatever the
/// random source gave.
pub open spec fn is_sample_of(p: Params, directed: bool, node_count: int, edges: Seq<(int, int)>) -> bool {
    match p {
        Params::Chain { n } => node_count == n && edges == chain_edges(n as int),
        Params::Tree { n } => node_count == n && is_recursive_tree(edges, n as int),
        Params::ErdosRenyi { n, p } => {
            &&& node_count == n
            &&& is_pair_subsequence(edges, n as int, directed)
            &&& p.is_zero() ==> edges.len() == 0
            &&& p.is_one() ==> edges.len() == pair_count(n as int, directed)
        },
        Params::BarabasiAlbert { n, m } => node_count == n && is_preferential_growth(edges, n as int, m as int),
        Params::WattsStrogatz { n, k, p } => {
            &&& node_count == n
            &&& edges.len() == n * (k / 2)
            &&& keeps_near_ends(edges, n as int, k as int / 2)
            &&& no_repeated_links(edges)
            &&& p.is_zero() ==> edges == lattice_edges(n as int, k as int)
        },
    }
}

impl Params {
    /// Draws one graph of the model, with the edge policy of `directed`.
    pub fn sample_edges(&self, directed: bool, rng: &mut rand_pcg::Pcg32) -> (g: EdgeList)
        requires
            self.wf(),
        ensures
            g.wf(),
            is_sample_of(*self, directed, g.node_count as int, g.spec_edges()),
    {
        match *self {
            Params::Chain { n } => sample_chain(n),
            Params::Tree { n } => sample_tree(n, rng),
            Params::ErdosRenyi { n, p } => sample_erdos_renyi(n, p, directed, rng),
            Params::BarabasiAlbert { n, m } => sample_barabasi_albert(n, m, rng),
            Params::WattsStrogatz { n, k, p } => sample_watts_strogatz(n, k, p, rng),
        }
    }
}

/// Takes a specification apart and binds it: the model named, then its tokens.
pub fn build_params(s: &str) -> (r: Result<Params, GenError>)
    ensures
        r == spec_build(s.spec_bytes()),
        r matches Ok(p) ==> p.wf(),
{
    let spec = GraphSpec::parse(s.as_bytes());
    match Model::from_name(&spec.name) {
        None => Err(GenError::UnknownModel),
        Some(m) => m.bind(&spec.tokens),
    }
}

/// A generator of directed graphs: a model with checked parameters. Each
/// call of `sample` is an independent draw that cannot fail.
pub struct DirectedGenerator {
    params: Params,
}

impl DirectedGenerator {
    #[verifier::type_invariant]
    spec fn inv(&self) -> bool {
        self.params.wf()
    }

    pub closed spec fn spec_params(&self) -> Params {
        self.params
    }

    /// Wraps parameters that satisfy their model's constraints.
    pub fn new(params: Params) -> (r: DirectedGenerator)
        requires
            params.wf(),
        ensures
            r.spec_params() == params,
    {
        DirectedGenerator { params }
    }

    pub fn params(&self) -> (r: Params)
        ensures
            r == self.spec_params(),
            r.wf(),
    {
        proof {
            use_type_invariant(self);
        }
        self.params
    }

    /// Draws one graph as a node count and a list of edges.
    pub fn sample_edges(&self, rng: &mut rand_pcg::Pcg32) -> (g: EdgeList)
        ensures
            g.wf(),
            is_sample_of(self.spec_params(), true, g.node_count as int, g.spec_edges()),
    {
        proof {
            use_type_invariant(self);
        }
        self.params.sample_edges(true, rng)
    }

    /// Draws one directed graph.
    pub fn sample(&self, rng: &mut rand_pcg::Pcg32) -> (g: petgraph::Graph<(), (), petgraph::Directed>)
        ensures
            is_sample_of(self.spec_params(), true, digraph_node_count(g) as int, digraph_edges(g)),
    {
        self.sample_edges(rng).to_directed()
    }
}

/// A generator of undirected graphs: a model with checked parameters. Each
/// call of `sample` is an independent draw that cannot fail.
pub struct UndirectedGenerator {
    params: Params,
}

impl UndirectedGenerator {
    #[verifier::type_invariant]
    spec fn inv(&self) -> bool {
        self.params.wf()
    }

    pub closed spec fn spec_params(&self) -> Params {
        self.params
    }

    /// Wraps parameters that satisfy their model's constraints.
    pub fn new(params: Params) -> (r: UndirectedGenerator)
        requires
            params.wf(),
        ensures
            r.spec_params() == params,
    {
        UndirectedGenerator { params }
    }

    pub fn params(&self) -> (r: Params)
        ensures
            r == self.spec_params(),
            r.wf(),
    {
        proof {
            use_type_invariant(self);
        }
        self.params
    }

    /// Draws one graph as a node count and a list of edges.
    pub fn sample_edges(&self, rng: &mut rand_pcg::Pcg32) -> (g: EdgeList)
        ensures
            g.wf(),
            is_sample_of(self.spec_params(), false, g.node_count as int, g.spec_edges()),
    {
        proof {
            use_type_invariant(self);
        }
        self.params.sample_edges(false, rng)
    }

    /// Draws one undirected graph.
    pub fn sample(&self, rng: &mut rand_pcg::Pcg32) -> (g: petgraph::Graph<(), (), petgraph::Undirected>)
        ensures
            is_sample_of(self.spec_params(), false, ungraph_node_count(g) as int, ungraph_edges(g)),
    {
        self.sample_edges(rng).to_undirected()
    }
}

/// The model descriptors that build directed generators.
pub fn iter_directed_generator_factories() -> (r: Vec<Model>)
    ensures
        r@ == all_models(),
{
    let r = vec![Model::BarabasiAlbert, Model::Chain, Model::ErdosRenyi, Model::Tree, Model::WattsStrogatz];
    assert(r@ =~= all_models());
    r
}

/// The model descriptors that build undirected generators.
pub fn iter_undirected_generator_factories() -> (r: Vec<Model>)
    ensures
        r@ == all_models(),
{
    let r = vec![Model::BarabasiAlbert, Model::Chain, Model::ErdosRenyi, Model::Tree, Model::WattsStrogatz];
    assert(r@ =~= all_models());
    r
}

/// Builds a directed generator from a specification such as `"chain/3"`.
pub fn directed_generator_factory_from_str(s: &str) -> (r: Result<DirectedGenerator, GenError>)
    ensures
        match r {
            Ok(g) => spec_build(s.spec_bytes()) == Ok::<Params, GenError>(g.spec_params()),
            Err(e) => spec_build(s.spec_bytes()) == Err::<Params, GenError>(e),
        },
{
    match build_params(s) {
        Ok(p) => Ok(DirectedGenerator::new(p)),
        Err(e) => Err(e),
    }
}

/// Builds an undirected generator from a specification such as `"tree/20"`.
pub fn undirected_generator_factory_from_str(s: &str) -> (r: Result<UndirectedGenerator, GenError>)
    ensures
        match r {
            Ok(g) => spec_build(s.spec_bytes()) == Ok::<Params, GenError>(g.spec_params()),
            Err(e) => spec_build(s.spec_bytes()) == Err::<Params, GenError>(e),
        },
{
    match build_params(s) {
        Ok(p) => Ok(UndirectedGenerator::new(p)),
        Err(e) => Err(e),
    }
}

} // verus!
