use graphc::graph::{get_ktuples, BigGraph, Graph};

const PETERSEN_VERTICES: u8 = 10;
fn petersen_edges() -> Vec<(u8, u8)> {
    vec![
        (0, 1),
        (1, 2),
        (2, 3),
        (3, 4),
        (4, 0),
        (5, 8),
        (5, 9),
        (6, 7),
        (6, 9),
        (7, 8),
        (0, 5),
        (1, 6),
        (2, 8),
        (3, 9),
        (4, 7),
    ]
}

const MORITA_RANK4_VERTICES: u8 = 6;
fn morita_rank4_edges() -> Vec<(u8, u8)> {
    vec![
        (0, 1),
        (0, 3),
        (0, 5),
        (1, 4),
        (1, 5),
        (2, 3),
        (2, 4),
        (2, 5),
        (3, 4),
    ]
}

const BENZEN_RANK4_VERTICES: u8 = 6;
fn benzen_rank4_edges() -> Vec<(u8, u8)> {
    vec![
        (0, 1),
        (0, 1),
        (0, 4),
        (1, 5),
        (2, 3),
        (2, 4),
        (2, 4),
        (3, 5),
        (3, 5),
    ]
}

const BENZEN_LOOP_RANK4_VERTICES: u8 = 5;
fn benzen_loop_rank4_edges() -> Vec<(u8, u8)> {
    vec![
        (0, 0),
        (0, 3),
        (0, 4),
        (1, 2),
        (1, 3),
        (1, 3),
        (2, 4),
        (2, 4),
    ]
}

#[test]
fn test_subforest_petersen() {
    let graph: Graph = Graph::new(PETERSEN_VERTICES, petersen_edges());

    let subforests_number_size1: usize = graph.subforests(1, 1).len();
    let expected_subforests_number_size1: usize = 15;
    assert_eq!(subforests_number_size1, expected_subforests_number_size1);

    let subforests_number_size3: usize = graph.subforests(3, 3).len();
    let expected_subforests_number_size3: usize = 2730 / 6;
    assert_eq!(subforests_number_size3, expected_subforests_number_size3);
}

#[test]
fn test_subforest_morita_rank4() {
    let graph: Graph = Graph::new(MORITA_RANK4_VERTICES, morita_rank4_edges());

    let subforests_number_size1: usize = graph.subforests(1, 1).len();
    let expected_subforests_number_size1: usize = 9;
    assert_eq!(subforests_number_size1, expected_subforests_number_size1);

    let subforests_number_size3: usize = graph.subforests(3, 3).len();
    let expected_subforests_number_size3: usize = 82;
    assert_eq!(subforests_number_size3, expected_subforests_number_size3);
}

#[test]
fn test_subforest_benzen_rank4() {
    let graph: Graph = Graph::new(BENZEN_RANK4_VERTICES, benzen_rank4_edges());

    let subforests_number_size1: usize = graph.subforests(1, 1).len();
    let expected_subforests_number_size1: usize = 9;
    assert_eq!(subforests_number_size1, expected_subforests_number_size1);

    let subforests_number_size2: usize = graph.subforests(2, 2).len();
    let expected_subforests_number_size2: usize = 33;
    assert_eq!(subforests_number_size2, expected_subforests_number_size2);
}

#[test]
fn test_contract_edge_petersen() {
    let edges = vec![
        (0, 1),
        (1, 2),
        (2, 3),
        (3, 4),
        (4, 0),
        (5, 8),
        (6, 7),
        (6, 5),
        (7, 8),
        (0, 5),
        (1, 6),
        (2, 8),
        (3, 5),
        (4, 7),
    ];

    let contractedpetersen: Graph = Graph::new(9, edges);
    let g: Graph = Graph::new(PETERSEN_VERTICES, petersen_edges());
    let gg: Graph = g.contract_edge((5, 9));

    assert!(gg.num_vertices > 0);

    let mut a = contractedpetersen.edges.clone();
    a.sort_unstable();
    let mut b = gg.edges.clone();
    b.sort_unstable();

    assert_eq!(a, b);

    assert!(contractedpetersen.is_isomorphic_to(&gg));
}

#[test]
fn test_contract_edge_morita_rank4() {
    let edges = vec![
        (0, 1),
        (0, 3),
        (0, 1),
        (1, 4),
        (2, 3),
        (2, 4),
        (2, 1),
        (3, 4),
    ];

    let contractedmorita: Graph = Graph::new(5, edges);
    let g: Graph = Graph::new(MORITA_RANK4_VERTICES, morita_rank4_edges());
    let gg: Graph = g.contract_edge((1, 5));

    assert!(gg.num_vertices > 0);

    let mut a = contractedmorita.edges.clone();
    a.sort_unstable();
    let mut b = gg.edges.clone();
    b.sort_unstable();

    assert_eq!(a, b);

    assert!(contractedmorita.is_isomorphic_to(&gg));
}

#[test]
fn test_contract_edge_benzen_rank4() {
    let edges: Vec<(u8, u8)> = vec![
        (0, 1),
        (0, 1),
        (0, 3),
        (1, 4),
        (2, 3),
        (2, 3),
        (2, 4),
        (2, 4),
    ];
    let contractedbenzen: Graph = Graph::new(5, edges);
    let g: Graph = Graph::new(BENZEN_RANK4_VERTICES, benzen_rank4_edges());
    let gg: Graph = g.contract_edge((2, 3));

    assert!(gg.num_vertices > 0);

    let mut a = contractedbenzen.edges.clone();
    a.sort_unstable();
    let mut b = gg.edges.clone();
    b.sort_unstable();

    assert_eq!(a, b);

    assert!(contractedbenzen.is_isomorphic_to(&gg));
}

#[test]
fn test_contract_neighborhood_petersen() {
    let petersen: Graph = Graph::new(PETERSEN_VERTICES, petersen_edges());
    let contrpetersen: Graph = petersen.contract_edge((5, 9));
    let contrpetersenbipart: Graph = contrpetersen.to_bipartite();
    let petersenbipart: Graph = petersen.to_bipartite().contract_neighborhood(10).0;

    for ed in petersen.edges.iter() {
        let gg: Graph = petersen.contract_edge(*ed).to_bipartite();
        for i in 10..24 {
            let g: Graph = petersen.to_bipartite().contract_neighborhood(i).0;
            assert!(g.is_isomorphic_to(&gg));
        }
    }

    assert!(petersenbipart.is_isomorphic_to(&contrpetersenbipart));
}

#[test]
fn test_contract_neighborhood_morita_rank4() {
    let morita: Graph = Graph::new(MORITA_RANK4_VERTICES, morita_rank4_edges());
    let contrmorita: Graph = morita.contract_edge((2, 3));
    let contrmoritabipart: Graph = contrmorita.to_bipartite();
    let moritabipart: Graph = morita.to_bipartite().contract_neighborhood(10).0;

    assert!(moritabipart.is_isomorphic_to(&contrmoritabipart));
}

#[test]
fn test_contract_neighborhood_benzen_rank4() {
    let benzen: Graph = Graph::new(BENZEN_RANK4_VERTICES, benzen_rank4_edges());
    let contrbenzen: Graph = benzen.contract_edge((2, 3));
    let contrbenzenbipart: Graph = contrbenzen.to_bipartite();
    let benzenbipart: Graph = benzen.to_bipartite().contract_neighborhood(10).0;

    assert_eq!(benzenbipart.edges, contrbenzenbipart.edges);
    assert_eq!(benzenbipart.adj, contrbenzenbipart.adj);

    let benzenloop: Graph = benzen.to_bipartite().contract_neighborhood(6).0;
    let bloop: Graph =
        Graph::new(BENZEN_LOOP_RANK4_VERTICES, benzen_loop_rank4_edges()).to_bipartite();
    assert_eq!(benzenloop.edges, bloop.edges);
    assert_eq!(benzenloop.adj, bloop.adj);

    assert!(benzenbipart.is_isomorphic_to(&contrbenzenbipart));
}

#[test]
fn test_contract_multiple_neighborhoods_petersen() {
    let petersen: Graph = Graph::new(PETERSEN_VERTICES, petersen_edges());
    let contrpetersen: Graph = petersen
        .contract_edge((6, 9))
        .contract_edge((3, 4))
        .contract_edge((1, 2))
        .to_bipartite();
    let bipartpetersen: Graph = Graph::new(PETERSEN_VERTICES, petersen_edges()).to_bipartite();
    let contrbipartpetersen: Graph =
        bipartpetersen.contract_multiple_neighborhoods(&vec![18, 13, 11]);

    assert!(contrbipartpetersen.is_isomorphic_to(&contrpetersen));
}

#[test]
fn test_contract_multiple_neighborhoods_morita_rank4() {
    let morita: Graph = Graph::new(MORITA_RANK4_VERTICES, morita_rank4_edges());
    let contrmorita: Graph = morita
        .contract_edge((2, 5))
        .contract_edge((1, 4))
        .contract_edge((0, 3))
        .to_bipartite();
    let bipartmorita: Graph =
        Graph::new(MORITA_RANK4_VERTICES, morita_rank4_edges()).to_bipartite();
    let contrbipartmorita: Graph = bipartmorita.contract_multiple_neighborhoods(&vec![7, 9, 13]);

    assert!(contrbipartmorita.is_isomorphic_to(&contrmorita));
}

#[test]
fn test_contract_multiple_neighborhoods_benzen_rank4() {
    let benzen: Graph = Graph::new(BENZEN_RANK4_VERTICES, benzen_rank4_edges());
    let contrbenzen: Graph = benzen
        .contract_edge((1, 5))
        .contract_edge((0, 4))
        .contract_edge((2, 3))
        .to_bipartite();
    let bipartbenzen: Graph =
        Graph::new(BENZEN_RANK4_VERTICES, benzen_rank4_edges()).to_bipartite();
    let contrbipartbenzen: Graph = bipartbenzen.contract_multiple_neighborhoods(&vec![8, 9, 10]);

    assert!(contrbipartbenzen.is_isomorphic_to(&contrbenzen));
}

#[test]
fn test_count_double_edges_petersen() {
    let petersen: Graph = Graph::new(PETERSEN_VERTICES, petersen_edges()).to_bipartite();
    assert_eq!(petersen.count_double_edges(), 0);
}

#[test]
fn test_count_double_edges_morita_rank4() {
    let morita: Graph = Graph::new(MORITA_RANK4_VERTICES, morita_rank4_edges()).to_bipartite();
    assert_eq!(morita.count_double_edges(), 0);
}

#[test]
fn test_count_double_edges_benzen_rank4() {
    let benzen: Graph = Graph::new(BENZEN_RANK4_VERTICES, benzen_rank4_edges()).to_bipartite();
    assert_eq!(benzen.count_double_edges(), 3);
}

#[test]
fn test_vertices_valency2_petersen() {
    let petersen: Graph = Graph::new(PETERSEN_VERTICES, petersen_edges()).to_bipartite();
    assert_eq!(petersen.vertices_valency2().len(), 15);
}

#[test]
fn test_vertices_valency2_morita_rank4() {
    let morita: Graph = Graph::new(MORITA_RANK4_VERTICES, morita_rank4_edges()).to_bipartite();
    assert_eq!(morita.vertices_valency2().len(), 9);
}

#[test]
fn test_vertices_valency2_benzen_rank4() {
    let benzen: Graph = Graph::new(BENZEN_RANK4_VERTICES, benzen_rank4_edges()).to_bipartite();
    assert_eq!(benzen.vertices_valency2().len(), 9);
}

#[test]
fn test_vertices_valency3_petersen() {
    let petersen: Graph = Graph::new(PETERSEN_VERTICES, petersen_edges()).to_bipartite();
    assert_eq!(petersen.vertices_valency3().len(), PETERSEN_VERTICES as usize);
}

#[test]
fn test_vertices_valency3_morita_rank4() {
    let morita: Graph = Graph::new(MORITA_RANK4_VERTICES, morita_rank4_edges()).to_bipartite();
    assert_eq!(morita.vertices_valency3().len(), MORITA_RANK4_VERTICES as usize);
}

#[test]
fn test_vertices_valency3_benzen_rank4() {
    let benzen: Graph = Graph::new(BENZEN_RANK4_VERTICES, benzen_rank4_edges()).to_bipartite();
    assert_eq!(benzen.vertices_valency3().len(), BENZEN_RANK4_VERTICES as usize);
}

#[test]
fn test_connected_components_petersen() {
    let petersen: Graph = Graph::new(PETERSEN_VERTICES, petersen_edges()).to_bipartite();
    assert_eq!(petersen.connected_components().0, 1);
}

#[test]
fn test_connected_components_morita_rank4() {
    let morita: Graph = Graph::new(MORITA_RANK4_VERTICES, morita_rank4_edges()).to_bipartite();
    assert_eq!(morita.connected_components().0, 1);
}

#[test]
fn test_connected_components_benzen_rank4() {
    let benzen: Graph = Graph::new(BENZEN_RANK4_VERTICES, benzen_rank4_edges()).to_bipartite();
    assert_eq!(benzen.connected_components().0, 1);
}

#[test]
fn test_connected_components_4components() {
    let edges = vec![(1, 4), (0, 4), (4, 1), (2, 3), (6, 7)];
    let g = Graph::new(8, edges);
    assert_eq!(g.connected_components().0, 4);
}

#[test]
fn test_connected_components_4components_biggraph() {
    let edges = vec![(1, 4), (0, 4), (4, 1), (2, 3), (6, 7)];
    let g = BigGraph::new(8, edges);
    assert_eq!(g.connected_components().0, 4);
}

#[test]
fn test_is_3edge_connected_petersen() {
    let petersen: Graph = Graph::new(PETERSEN_VERTICES, petersen_edges()).to_bipartite();
    assert!(petersen.is_3edge_connected());
    assert!(petersen.is_k_edge_connected(3, true));
}

#[test]
fn test_is_3edge_connected_morita_rank4() {
    let morita: Graph = Graph::new(MORITA_RANK4_VERTICES, morita_rank4_edges()).to_bipartite();
    assert!(morita.is_3edge_connected());
    assert!(morita.is_k_edge_connected(3, true));
}

#[test]
fn test_is_3edge_connected_benzen_rank4() {
    let benzen: Graph = Graph::new(BENZEN_RANK4_VERTICES, benzen_rank4_edges()).to_bipartite();
    assert!(!benzen.is_3edge_connected());
    assert!(!benzen.is_k_edge_connected(3, true));
}

#[test]
fn test_girth_petersen() {
    let petersen: Graph = Graph::new(PETERSEN_VERTICES, petersen_edges()).to_bipartite();
    assert_eq!(petersen.girth(), 5);
}

#[test]
fn test_girth_morita_rank4() {
    let morita: Graph = Graph::new(MORITA_RANK4_VERTICES, morita_rank4_edges()).to_bipartite();
    assert_eq!(morita.girth(), 3);
}

#[test]
fn test_girth_benzen_rank4() {
    let benzen: Graph = Graph::new(BENZEN_RANK4_VERTICES, benzen_rank4_edges()).to_bipartite();
    assert_eq!(benzen.girth(), 2);
}

#[test]
fn test_find_ktuples() {
    let arr = &[1, 2, 3, 4, 5, 6];
    let res = &[
        [1, 2, 3],
        [1, 2, 4],
        [1, 2, 5],
        [1, 2, 6],
        [1, 3, 4],
        [1, 3, 5],
        [1, 3, 6],
        [1, 4, 5],
        [1, 4, 6],
        [1, 5, 6],
        [2, 3, 4],
        [2, 3, 5],
        [2, 3, 6],
        [2, 4, 5],
        [2, 4, 6],
        [2, 5, 6],
        [3, 4, 5],
        [3, 4, 6],
        [3, 5, 6],
        [4, 5, 6],
    ];
    assert_eq!(get_ktuples(arr, 3), res);
    assert_eq!(get_ktuples(arr, 6), [arr]);
}

#[test]
fn test_sign_of_transposition() {
    assert_eq!(graphc::perm::sign(&[1, 0]), -1);
    assert_eq!(graphc::perm::sign(&[0, 1, 2]), 1);
    assert_eq!(graphc::perm::sign(&[1, 2, 0]), 1);
    assert_eq!(graphc::perm::sign(&[0, 2, 1]), -1);
}

#[test]
fn test_subforests_include_empty_forest() {
    let g = Graph::new(2, vec![(0, 1)]);
    assert_eq!(g.subforests(0, 1), vec![vec![], vec![(0, 1)]]);
    assert_eq!(g.subforests(0, 0), vec![Vec::<(u8, u8)>::new()]);
    assert_eq!(g.subforests(1, 1), vec![vec![(0, 1)]]);
}

#[test]
fn test_is_3vertex_connected_petersen() {
    let petersen: Graph = Graph::new(PETERSEN_VERTICES, petersen_edges()).to_bipartite();
    assert!(petersen.is_3vertex_connected());
}

#[test]
fn test_is_3vertex_connected_two_edge_cut() {
    // two triangles joined by two edges: removing those two edges disconnects it
    let g = Graph::new(6, vec![(0, 1), (1, 2), (2, 0), (3, 4), (4, 5), (5, 3), (0, 3), (1, 4)]).to_bipartite();
    assert!(!g.is_3vertex_connected());
    assert!(!g.is_3edge_connected());
}

#[test]
fn test_connected_components_labels_in_order() {
    let edges = vec![(1, 4), (0, 4), (4, 1), (2, 3), (6, 7)];
    let g = Graph::new(8, edges);
    assert_eq!(g.connected_components(), (4, vec![1, 1, 2, 2, 1, 3, 4, 4]));
}

#[test]
fn test_is_valid_g6_order_limit() {
    assert!(graphc::g6::is_valid_g6("A_"));
    assert!(!graphc::g6::is_valid_g6("~"));
    assert!(graphc::g6::is_valid_g6("?"));
}

#[test]
fn test_is_k_edge_connected_needs_connected() {
    let g = Graph::new(2, vec![]);
    assert!(!g.is_k_edge_connected(1, false));
    assert!(!g.is_k_edge_connected(3, true));
    let petersen: Graph = Graph::new(PETERSEN_VERTICES, petersen_edges()).to_bipartite();
    assert!(petersen.is_k_edge_connected(1, false));
}

#[test]
fn test_contract_edge_isolated_loop_at_last_vertex() {
    let g = Graph::new(3, vec![(0, 1), (2, 2)]);
    let h = g.contract_edge((2, 2));
    assert_eq!(h.num_vertices, 2);
    assert_eq!(h.edges, vec![(0, 1)]);
}

#[test]
fn test_simplify_benzen_entries() {
    let b = Graph::new(BENZEN_RANK4_VERTICES, benzen_rank4_edges()).to_bipartite();
    let (g, entries) = b.simplify(false);
    assert_eq!(entries, vec![((0, 4), 8), ((1, 5), 9), ((2, 3), 10)]);
    assert_eq!(g.num_vertices, 6);
    assert_eq!(g.edges, vec![(0, 4), (1, 5), (2, 3)]);
    let (g2, entries2) = b.simplify(true);
    assert_eq!(entries2, vec![((0, 1), 6), ((0, 4), 8), ((1, 5), 9), ((2, 3), 10), ((2, 4), 11), ((3, 5), 13)]);
    assert_eq!(g2.edges, vec![(0, 1), (0, 4), (1, 5), (2, 3), (2, 4), (3, 5)]);
}

#[test]
fn test_girth_in_range_petersen_contracted_edge() {
    let g: Graph = Graph::new(PETERSEN_VERTICES, petersen_edges()).to_bipartite();
    assert!(graphc::girth::girth_in_range(&g, 1 << 10, 1, 255));
    assert!(graphc::girth::girth_in_range(&g, 1 << 10, 4, 4));
    assert!(!graphc::girth::girth_in_range(&g, 1 << 10, 5, 5));
}

#[test]
fn test_permute_composition_and_identity() {
    let g = Graph::new(PETERSEN_VERTICES, petersen_edges());
    let p: Vec<u8> = vec![1, 2, 3, 4, 5, 6, 7, 8, 9, 0];
    let q: Vec<u8> = vec![9, 8, 7, 6, 5, 4, 3, 2, 1, 0];
    let twice = g.permute(&p).permute(&q);
    let once = g.permute(&graphc::perm::compose(&p, &q));
    assert_eq!(twice.edges, once.edges);
    assert_eq!(twice.adj, once.adj);
    let id: Vec<u8> = (0..PETERSEN_VERTICES).collect();
    assert_eq!(g.permute(&id).adj, g.adj);
    assert_eq!(g.permute(&id).edges, g.edges);
}

#[test]
fn test_permute_mask_composition() {
    let p: Vec<u8> = vec![1, 2, 3, 4, 5, 6, 7, 8, 9, 0];
    let q: Vec<u8> = vec![9, 8, 7, 6, 5, 4, 3, 2, 1, 0];
    let mask: u64 = 0b10_0110_0001;
    let twice = graphc::perm::permute_mask(graphc::perm::permute_mask(mask, &p), &q);
    let once = graphc::perm::permute_mask(mask, &graphc::perm::compose(&p, &q));
    assert_eq!(twice, once);
    assert_eq!(twice.count_ones(), mask.count_ones());
}

#[test]
fn test_is_bipartite_form() {
    let petersen: Graph = Graph::new(PETERSEN_VERTICES, petersen_edges()).to_bipartite();
    assert!(petersen.is_bipartite_form());
    let square = Graph::new(4, vec![(0, 1), (1, 2), (2, 3), (3, 0)]);
    assert!(!square.is_bipartite_form());
}

#[test]
fn test_permute_mask_keeps_popcount() {
    let p: Vec<u8> = vec![5, 0, 3, 1, 4, 2];
    let mask: u64 = 0b101101;
    let image = graphc::perm::permute_mask(mask, &p);
    assert_eq!(image, 0b101110);
    assert_eq!(image.count_ones(), mask.count_ones());
}

#[test]
fn test_bipartite_loop_is_single_neighbour() {
    let triangle = Graph::new(3, vec![(0, 1), (1, 2), (0, 2)]);
    assert!(!triangle.to_bipartite().contains_loop());
    let looped = Graph::new(3, vec![(0, 1), (1, 2), (0, 2), (1, 1)]);
    let b = looped.to_bipartite();
    assert!(b.contains_loop());
    assert_eq!(b.adj[5], 1 << 1);
}

#[test]
fn test_girth_of_complete_graph() {
    let k4 = Graph::new(4, vec![(0, 1), (0, 2), (0, 3), (1, 2), (1, 3), (2, 3)]).to_bipartite();
    assert_eq!(k4.girth(), 3);
}

#[test]
fn test_from_g6_empty_graph() {
    let g = Graph::from_g6("?");
    assert_eq!(g.num_vertices, 0);
    assert!(g.edges.is_empty());
    assert!(g.adj.is_empty());
    assert_eq!(Graph::new(0, vec![]).to_g6(), "?");
}

#[test]
fn test_is_isomorphic_to_refuses_other_graphs() {
    let petersen = Graph::new(PETERSEN_VERTICES, petersen_edges());
    let cycle = Graph::new(10, (0..10u8).map(|i| (i, (i + 1) % 10)).collect());
    assert!(!petersen.is_isomorphic_to(&cycle));
    let path = Graph::new(3, vec![(0, 1), (1, 2)]);
    let star = Graph::new(3, vec![(1, 0), (1, 2)]);
    let triangle = Graph::new(3, vec![(0, 1), (1, 2), (0, 2)]);
    assert!(path.is_isomorphic_to(&star));
    assert!(!path.is_isomorphic_to(&triangle));
}

#[test]
fn test_automorphisms_of_the_petersen_graph() {
    let petersen = Graph::new(PETERSEN_VERTICES, petersen_edges());
    let autos = petersen.automorphisms();
    assert_eq!(autos.len(), 120);
    assert_eq!(autos[0], (0..10u8).collect::<Vec<u8>>());
    let (c, base, others) = petersen.canonical_label();
    assert_eq!(others.len(), 119);
    assert_eq!(c.edges, petersen.permute(&base).edges);
}

#[test]
fn test_canonical_label_of_relabelled_graph() {
    let petersen = Graph::new(PETERSEN_VERTICES, petersen_edges());
    let q: Vec<u8> = vec![3, 7, 1, 9, 0, 4, 8, 2, 6, 5];
    let other = petersen.permute(&q);
    assert_eq!(petersen.canonical_label().0.adj, other.canonical_label().0.adj);
}

#[test]
fn test_check_keys_fit_and_contract_ready() {
    let pb = Graph::new(PETERSEN_VERTICES, petersen_edges()).to_bipartite();
    assert!(pb.check_keys_fit());
    let fg = graphc::forested_graph::ForestedGraph::new(&pb, 2, true);
    assert!(fg.check_contract_ready());
}

#[test]
fn test_girth_filtration_column_petersen_edge() {
    let pb = Graph::new(PETERSEN_VERTICES, petersen_edges()).to_bipartite();
    let fg = graphc::forested_graph::ForestedGraph::new(&pb, 1, false);
    assert_eq!(fg.subforests().len(), 1);
    let (mat, loops, mult) =
        graphc::filtration::girth_filtration_column(fg.graph(), fg.subforests()).unwrap();
    let mut expected = vec![0usize; 20];
    expected[4] = 1;
    assert_eq!(mat, expected);
    assert_eq!(loops, vec![0usize; 20]);
    assert_eq!(mult, vec![0usize; 20]);
}

#[test]
fn test_girth_filtration_column_theta() {
    let theta = Graph::new(2, vec![(0, 1), (0, 1), (0, 1)]).to_bipartite();
    let fg = graphc::forested_graph::ForestedGraph::new(&theta, 1, true);
    assert_eq!(fg.subforests().len(), 1);
    assert_eq!(graphc::forested_graph::ForestedGraph::new(&theta, 1, false).subforests().len(), 0);
    assert_eq!(fg.graph().edges, theta.canonical_label().0.edges);
    let (mat, loops, mult) =
        graphc::filtration::girth_filtration_column(fg.graph(), fg.subforests()).unwrap();
    let mut expected = vec![0usize; 20];
    expected[1] = 1;
    assert_eq!(mat, expected);
    let mut expected_loops = vec![0usize; 20];
    expected_loops[2] = 1;
    assert_eq!(loops, expected_loops);
    assert_eq!(mult, vec![0usize; 20]);
}

#[test]
fn test_isomorphic_contractions_share_rows() {
    let pb = Graph::new(PETERSEN_VERTICES, petersen_edges()).to_bipartite();
    let (h1, _) = pb.contract_neighborhood(10);
    let (h2, _) = pb.contract_neighborhood(17);
    assert!(h1.is_isomorphic_to(&h2));
    assert_eq!(h1.canonical_label().0.adj, h2.canonical_label().0.adj);
    assert_eq!(h1.canonical_label().0.to_g6(), h2.canonical_label().0.to_g6());
}

#[test]
fn test_inverse_twice_gives_back() {
    let p: Vec<u8> = vec![3, 0, 4, 1, 2];
    let inv = graphc::perm::inverse(&p);
    assert_eq!(inv, vec![1, 3, 4, 0, 2]);
    assert_eq!(graphc::perm::inverse(&inv), p);
}
