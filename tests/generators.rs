use crusti_g2io::generators::build_params;
use crusti_g2io::parse::{parse_decimal_token, parse_u64};
use crusti_g2io::sample::{erdos_renyi_from_draws, keeps, pick_weighted, rewire_candidates};
use crusti_g2io::{
    directed_generator_factory_from_str, iter_directed_generator_factories,
    iter_undirected_generator_factories, undirected_generator_factory_from_str, GenError,
    GeneratorFactory, GraphSpec, Model, ParamKind, Params, Probability,
};
use rand::SeedableRng;
use rand_pcg::Pcg32;
use std::collections::BTreeSet;

fn rng(seed: u64) -> Pcg32 {
    Pcg32::seed_from_u64(seed)
}

fn directed_edges(g: &petgraph::Graph<(), (), petgraph::Directed>) -> Vec<(usize, usize)> {
    g.raw_edges().iter().map(|e| (e.source().index(), e.target().index())).collect()
}

fn undirected_edges(g: &petgraph::Graph<(), (), petgraph::Undirected>) -> Vec<(usize, usize)> {
    g.raw_edges().iter().map(|e| (e.source().index(), e.target().index())).collect()
}

fn find(parent: &mut Vec<usize>, x: usize) -> usize {
    let mut r = x;
    while parent[r] != r {
        r = parent[r];
    }
    r
}

#[test]
fn test_generator_ok() {
    assert!(directed_generator_factory_from_str("chain/1").is_ok());
}

#[test]
fn test_unknown_generator() {
    assert!(directed_generator_factory_from_str("foo/1").is_err());
}

#[test]
fn test_generator_no_params() {
    assert!(directed_generator_factory_from_str("chain").is_err());
}

#[test]
fn doc_examples_bind() {
    assert!(directed_generator_factory_from_str("ba/100,5").is_ok());
    assert!(directed_generator_factory_from_str("chain/3").is_ok());
    assert!(directed_generator_factory_from_str("chain/1,2,3").is_err());
    assert!(undirected_generator_factory_from_str("chain/3").is_ok());
    assert!(undirected_generator_factory_from_str("chain/1,2,3").is_err());
    assert!(undirected_generator_factory_from_str("foo/3").is_err());
}

#[test]
fn chain_five_is_a_path() {
    let g = directed_generator_factory_from_str("chain/5").unwrap();
    let graph = g.sample(&mut rng(1));
    assert_eq!(graph.node_count(), 5);
    assert_eq!(directed_edges(&graph), vec![(0, 1), (1, 2), (2, 3), (3, 4)]);
}

#[test]
fn erdos_renyi_p_zero_has_no_edges() {
    for seed in 0..5 {
        let d = directed_generator_factory_from_str("erdos_renyi/10,0").unwrap();
        let g = d.sample(&mut rng(seed));
        assert_eq!(g.node_count(), 10);
        assert_eq!(g.edge_count(), 0);
        let u = undirected_generator_factory_from_str("er/10,0.0").unwrap();
        let g = u.sample(&mut rng(seed));
        assert_eq!(g.node_count(), 10);
        assert_eq!(g.edge_count(), 0);
    }
}

#[test]
fn erdos_renyi_p_one_is_complete() {
    for seed in 0..5 {
        let d = directed_generator_factory_from_str("erdos_renyi/10,1").unwrap();
        let g = d.sample(&mut rng(seed));
        assert_eq!(g.edge_count(), 90);
        let set: BTreeSet<(usize, usize)> = directed_edges(&g).into_iter().collect();
        assert_eq!(set.len(), 90);
        assert!(set.iter().all(|&(a, b)| a != b && a < 10 && b < 10));
        let u = undirected_generator_factory_from_str("erdos_renyi/10,1.0").unwrap();
        let g = u.sample(&mut rng(seed));
        assert_eq!(g.edge_count(), 45);
        let set: BTreeSet<(usize, usize)> = undirected_edges(&g).into_iter().collect();
        assert_eq!(set.len(), 45);
        assert!(set.iter().all(|&(a, b)| a < b && b < 10));
    }
}

#[test]
fn erdos_renyi_half_draws_distinct_ordered_pairs() {
    let d = directed_generator_factory_from_str("er/30,0.5").unwrap();
    let edges = directed_edges(&d.sample(&mut rng(3)));
    assert!(edges.windows(2).all(|w| w[0] < w[1]));
    assert!(edges.iter().all(|&(a, b)| a != b && a < 30 && b < 30));
    assert!(edges.len() > 0 && edges.len() < 870);
}

#[test]
fn barabasi_albert_fifty_two() {
    for seed in 0..3 {
        let d = directed_generator_factory_from_str("barabasi_albert/50,2").unwrap();
        let g = d.sample(&mut rng(seed));
        assert_eq!(g.node_count(), 50);
        let edges = directed_edges(&g);
        assert_eq!(edges.len(), 3 + 47 * 2);
        assert_eq!(&edges[..3], &[(0, 1), (0, 2), (1, 2)]);
        for v in 3..50 {
            let out: Vec<usize> = edges.iter().filter(|e| e.0 == v).map(|e| e.1).collect();
            assert_eq!(out.len(), 2);
            assert!(out[0] != out[1]);
            assert!(out.iter().all(|&t| t < v));
        }
    }
}

#[test]
fn tree_twenty_is_a_tree() {
    for seed in 0..5 {
        let u = undirected_generator_factory_from_str("tree/20").unwrap();
        let g = u.sample(&mut rng(seed));
        assert_eq!(g.node_count(), 20);
        let edges = undirected_edges(&g);
        assert_eq!(edges.len(), 19);
        let mut parent: Vec<usize> = (0..20).collect();
        for &(a, b) in &edges {
            assert!(a < b);
            let (ra, rb) = (find(&mut parent, a), find(&mut parent, b));
            assert_ne!(ra, rb, "an edge closes a cycle");
            parent[ra] = rb;
        }
        let root = find(&mut parent, 0);
        assert!((0..20).all(|v| find(&mut parent, v) == root));
    }
}

#[test]
fn watts_strogatz_p_zero_is_the_ring_lattice() {
    for seed in 0..3 {
        let u = undirected_generator_factory_from_str("watts_strogatz/20,4,0").unwrap();
        let g = u.sample(&mut rng(seed));
        let edges = undirected_edges(&g);
        assert_eq!(edges.len(), 40);
        let mut expected = Vec::new();
        for i in 0..20 {
            for j in 1..=2 {
                expected.push((i, (i + j) % 20));
            }
        }
        assert_eq!(edges, expected);
    }
}

#[test]
fn watts_strogatz_rewired_keeps_shape() {
    let u = undirected_generator_factory_from_str("ws/20,4,1").unwrap();
    let edges = undirected_edges(&u.sample(&mut rng(11)));
    assert_eq!(edges.len(), 40);
    for (x, &(a, b)) in edges.iter().enumerate() {
        assert_eq!(a, x / 2);
        assert!(a != b && b < 20);
    }
}

#[test]
fn independent_sources_give_different_graphs() {
    let d = directed_generator_factory_from_str("erdos_renyi/30,0.5").unwrap();
    let g1 = directed_edges(&d.sample(&mut rng(1)));
    let g2 = directed_edges(&d.sample(&mut rng(2)));
    assert_ne!(g1, g2);
    let mut r = rng(5);
    let a = directed_edges(&d.sample(&mut r));
    let b = directed_edges(&d.sample(&mut r));
    assert_ne!(a, b);
}

#[test]
fn error_kinds() {
    assert!(matches!(
        directed_generator_factory_from_str("chain"),
        Err(GenError::ArityMismatch { expected: 1, found: 0 })
    ));
    assert!(matches!(
        directed_generator_factory_from_str("barabasi_albert/5,10"),
        Err(GenError::ParameterRangeError)
    ));
    assert!(matches!(directed_generator_factory_from_str("foo/3"), Err(GenError::UnknownModel)));
    assert!(matches!(
        directed_generator_factory_from_str("chain/x"),
        Err(GenError::ParameterParseError { position: 0, kind: ParamKind::Count })
    ));
    assert!(matches!(
        undirected_generator_factory_from_str("er/10,abc"),
        Err(GenError::ParameterParseError { position: 1, kind: ParamKind::Probability })
    ));
    assert!(matches!(
        undirected_generator_factory_from_str("ws/20,4,-0.5"),
        Err(GenError::ParameterParseError { position: 2, kind: ParamKind::Probability })
    ));
    assert!(matches!(undirected_generator_factory_from_str("er/10,1.5"), Err(GenError::ParameterRangeError)));
    assert!(matches!(undirected_generator_factory_from_str("ws/20,3,0.1"), Err(GenError::ParameterRangeError)));
    assert!(matches!(undirected_generator_factory_from_str("ws/4,4,0.1"), Err(GenError::ParameterRangeError)));
    assert!(matches!(undirected_generator_factory_from_str("chain/0"), Err(GenError::ParameterRangeError)));
    assert!(matches!(undirected_generator_factory_from_str("tree/0"), Err(GenError::ParameterRangeError)));
    assert!(matches!(undirected_generator_factory_from_str("ba/5,0"), Err(GenError::ParameterRangeError)));
    assert!(matches!(
        undirected_generator_factory_from_str("chain/"),
        Err(GenError::ParameterParseError { position: 0, kind: ParamKind::Count })
    ));
    assert!(matches!(
        undirected_generator_factory_from_str("ws/20,4"),
        Err(GenError::ArityMismatch { expected: 3, found: 2 })
    ));
}

#[test]
fn binding_reads_values() {
    assert_eq!(build_params("ba/100,5"), Ok(Params::BarabasiAlbert { n: 100, m: 5 }));
    assert_eq!(
        build_params("erdos_renyi/10,0.25"),
        Ok(Params::ErdosRenyi { n: 10, p: Probability { num: 25, scale: 100 } })
    );
    assert_eq!(
        build_params("er/7,.5"),
        Ok(Params::ErdosRenyi { n: 7, p: Probability { num: 5, scale: 10 } })
    );
    assert_eq!(
        build_params("ws/10,2,1."),
        Ok(Params::WattsStrogatz { n: 10, k: 2, p: Probability { num: 1, scale: 1 } })
    );
    let g = directed_generator_factory_from_str("tree/8").unwrap();
    assert_eq!(g.params(), Params::Tree { n: 8 });
}

#[test]
fn graph_too_large_is_refused() {
    assert!(matches!(build_params("chain/4294967296"), Err(GenError::ParameterRangeError)));
    assert!(matches!(build_params("er/70000,0.1"), Err(GenError::ParameterRangeError)));
    assert!(matches!(
        build_params("chain/99999999999999999999"),
        Err(GenError::ParameterParseError { position: 0, kind: ParamKind::Count })
    ));
}

#[test]
fn spec_strings_split() {
    let s = GraphSpec::parse(b"ws/20,4,0.1");
    assert_eq!(s.name, b"ws".to_vec());
    assert_eq!(s.tokens, vec![b"20".to_vec(), b"4".to_vec(), b"0.1".to_vec()]);
    let s = GraphSpec::parse(b"chain");
    assert_eq!(s.name, b"chain".to_vec());
    assert!(s.tokens.is_empty());
    let s = GraphSpec::parse(b"a/b/c,,d");
    assert_eq!(s.name, b"a".to_vec());
    assert_eq!(s.tokens, vec![b"b/c".to_vec(), vec![], b"d".to_vec()]);
}

#[test]
fn numbers_read() {
    assert_eq!(parse_u64(&b"18446744073709551615".to_vec()), Some(u64::MAX));
    assert_eq!(parse_u64(&b"18446744073709551616".to_vec()), None);
    assert_eq!(parse_u64(&b"".to_vec()), None);
    assert_eq!(parse_u64(&b"+3".to_vec()), None);
    assert_eq!(parse_decimal_token(&b"0.125".to_vec()), Some((0, 125, 1000)));
    assert_eq!(parse_decimal_token(&b"2".to_vec()), Some((2, 0, 1)));
    assert_eq!(parse_decimal_token(&b".".to_vec()), None);
    assert_eq!(parse_decimal_token(&b"1e-3".to_vec()), None);
    assert_eq!(parse_decimal_token(&b"0.1234567890123456789".to_vec()), None);
}

#[test]
fn registries_list_the_five_models() {
    let all = vec![Model::BarabasiAlbert, Model::Chain, Model::ErdosRenyi, Model::Tree, Model::WattsStrogatz];
    assert_eq!(iter_directed_generator_factories(), all);
    assert_eq!(iter_undirected_generator_factories(), all);
    assert_eq!(Model::Chain.name(), b"chain".to_vec());
    assert_eq!(Model::WattsStrogatz.schema(), vec![ParamKind::Count, ParamKind::Count, ParamKind::Probability]);
    assert_eq!(Model::from_name(&b"er".to_vec()), Some(Model::ErdosRenyi));
    let toks = vec![b"6".to_vec()];
    assert_eq!(Model::Tree.try_with_params(&toks), Ok(Params::Tree { n: 6 }));
}

#[test]
fn tree_parents_come_earlier() {
    let d = directed_generator_factory_from_str("tree/50").unwrap();
    let edges = directed_edges(&d.sample(&mut rng(9)));
    for (i, &(p, c)) in edges.iter().enumerate() {
        assert_eq!(c, i + 1);
        assert!(p < c);
    }
}

#[test]
fn erdos_renyi_keeps_the_pairs_whose_draw_is_low() {
    let half = Probability { num: 1, scale: 2 };
    let g = erdos_renyi_from_draws(3, half, true, &vec![0, 1, 0, 1, 1, 0]);
    assert_eq!(g.node_count, 3);
    assert_eq!(g.edges, vec![(0, 1), (1, 0), (2, 1)]);
    let g = erdos_renyi_from_draws(3, half, false, &vec![1, 0, 0]);
    assert_eq!(g.edges, vec![(0, 2), (1, 2)]);
    let none = Probability { num: 0, scale: 1 };
    assert!(erdos_renyi_from_draws(4, none, false, &vec![0; 6]).edges.is_empty());
}

#[test]
fn keeps_compares_the_draw() {
    let p = Probability { num: 3, scale: 10 };
    assert!(keeps(0, p));
    assert!(keeps(2, p));
    assert!(!keeps(3, p));
    assert!(!keeps(9, p));
}

#[test]
fn weighted_pick_follows_the_weights() {
    let cand = vec![0usize, 1, 2];
    let deg = vec![2u64, 1, 3];
    let picks: Vec<usize> = (0..6).map(|r| pick_weighted(&cand, &deg, 6, r)).collect();
    assert_eq!(picks, vec![0, 0, 1, 2, 2, 2]);
}

#[test]
fn rewire_candidates_skip_neighbours() {
    let edges = vec![(0usize, 1usize), (1, 2)];
    assert_eq!(rewire_candidates(&edges, 0, 4), vec![2, 3]);
    assert_eq!(rewire_candidates(&edges, 1, 4), vec![3]);
    assert_eq!(rewire_candidates(&vec![(0, 1), (0, 2)], 0, 3), Vec::<usize>::new());
}

#[test]
fn watts_strogatz_bound_counts_drawn_edges() {
    assert!(build_params("ws/2147483648,2,0.5").is_ok());
    assert!(matches!(build_params("ws/2147483648,4,0.5"), Err(GenError::ParameterRangeError)));
}
