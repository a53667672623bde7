use graphc::crt::{crt_combine, extended_euclid as extended_euclid_i32};
use graphc::forested_graph::{ForestedGraph, GraphTable};
use graphc::graph::Graph;
use graphc::modular::{extended_euclid, mod_inverse, multp, Rows};
use graphc::registry::{push_hex, read_registry, registry_graph};
use graphc::sms::{count_statistics, divide_cols, gcd, prune_matrix};
use graphc::support;
use graphc::vectors::{
    format_typed_basis, format_vector, missing_elements, parse_typed_basis, parse_vector, scale_to_basis,
    support,
};

fn petersen() -> Graph {
    Graph::new(
        10,
        vec![
            (0, 1),
            (1, 2),
            (2, 3),
            (3, 4),
            (4, 0),
            (5, 8),
            (5, 9),
            (6, 7),
            (6, 9),
            (7, 8),
            (0, 5),
            (1, 6),
            (2, 8),
            (3, 9),
            (4, 7),
        ],
    )
}

fn pair(a: &str, b: &str) -> (String, String) {
    (a.to_string(), b.to_string())
}

#[test]
fn simple_elim() {
    let v = vec![vec![1, 0, 1], vec![0, 2, 1], vec![0, 1, 1]];
    let mut rows = Rows::new(v, 11);
    rows.eliminate();
    assert_eq!(rows.rows, vec![vec![1, 0, 0], vec![0, 1, 0], vec![0, 0, 1]]);
}

#[test]
fn modular_inverse_and_product() {
    assert_eq!(extended_euclid(11, 3), (1, -1, 4));
    assert_eq!(mod_inverse(3, 11), Some(4));
    assert_eq!(mod_inverse(4, 8), None);
    assert_eq!(multp(7, 5, 11), 2);
    for a in 1..11u16 {
        let inv = mod_inverse(a, 11).unwrap();
        assert_eq!((a as u32 * inv as u32) % 11, 1);
    }
}

#[test]
fn row_operations() {
    let mut rows = Rows::new(vec![vec![1, 2, 3], vec![4, 5, 6]], 7);
    rows.multiply_row(0, 3);
    assert_eq!(rows.rows[0], vec![3, 6, 2]);
    rows.add_row((0, 2), 1);
    assert_eq!(rows.rows[1], vec![3, 3, 3]);
}

#[test]
fn euclid_and_gcd() {
    assert_eq!(extended_euclid_i32(240, 46), (2, -9, 47));
    assert_eq!(gcd(12, -18), 6);
    assert_eq!(gcd(0, 0), 0);
    assert_eq!(gcd(0, 5), 5);
    assert_eq!(gcd(-7, 0), 7);
}

#[test]
fn crt_combines_residues() {
    let (g, x, y) = extended_euclid_i32(3, 5);
    assert_eq!((g, x, y), (1, 2, -1));
    let u = crt_combine(&[1, 0, 2], &[2, 4, 0], 3, x, 5, y);
    assert_eq!(u, vec![7, 9, 5]);
    for (k, &a) in u.iter().enumerate() {
        assert_eq!(a % 3, [1, 0, 2][k]);
        assert_eq!(a % 5, [2, 4, 0][k]);
    }
}

#[test]
fn prune_rows_with_single_entries() {
    let mut m: Vec<([u32; 2], i32)> = vec![([1, 1], 1), ([1, 2], 2), ([2, 2], 3), ([3, 1], 4), ([3, 3], 5)];
    let mut sep = Some(2u32);
    let (dims, indices) = prune_matrix::<0>(&mut m, [3, 3], &mut sep);
    assert_eq!(dims, [2, 2]);
    assert_eq!(m, vec![([1, 1], 1), ([2, 1], 4), ([2, 2], 5)]);
    assert_eq!(indices[0], vec![0, u32::MAX, 1]);
    assert_eq!(indices[1], vec![0, u32::MAX, 1]);
    assert_eq!(sep, Some(1));
}

#[test]
fn prune_columns_with_single_entries() {
    let mut m: Vec<([u32; 2], i32)> = vec![([1, 1], 1), ([1, 2], 2), ([2, 2], 3)];
    let mut sep = None;
    let (dims, indices) = prune_matrix::<1>(&mut m, [2, 3], &mut sep);
    assert_eq!(dims, [1, 1]);
    assert_eq!(indices[1], vec![u32::MAX, 0, u32::MAX]);
    assert_eq!(indices[0], vec![u32::MAX, 0]);
    assert_eq!(m, vec![([1, 1], 3)]);
    assert_eq!(sep, None);
}

#[test]
fn divide_columns_by_gcd() {
    let mut m: Vec<([u32; 2], i32)> = vec![([1, 1], 4), ([2, 1], -6), ([1, 2], 3)];
    divide_cols(&mut m, [2, 2]);
    assert_eq!(m, vec![([1, 1], 2), ([2, 1], -3), ([1, 2], 1)]);
}

#[test]
fn column_statistics() {
    let m: Vec<([u32; 2], i32)> = vec![([1, 1], 1), ([2, 1], 1), ([1, 2], 1)];
    assert_eq!(count_statistics(&m, [2, 3]), (1, 0, 0, 2));
    assert_eq!(count_statistics(&m, [2, 2]), (1, 1, 0, 2));
    assert_eq!(count_statistics(&Vec::new(), [0, 0]), (0, 0, 0, 0));
}

#[test]
fn graph_table_rows() {
    let items = vec![
        ("A".to_string(), vec![3, 1]),
        ("B".to_string(), vec![2]),
        ("A".to_string(), vec![1, 5]),
    ];
    let table = GraphTable::new(&items);
    assert_eq!(table.num_graphs(), 2);
    assert_eq!(table.size(), 4);
    assert_eq!(table.get_index("A", 1), Some(0));
    assert_eq!(table.get_index("A", 3), Some(1));
    assert_eq!(table.get_index("A", 5), Some(2));
    assert_eq!(table.get_index("B", 2), Some(3));
    assert_eq!(table.get_index("A", 2), None);
    assert_eq!(table.get_index("C", 1), None);
}

#[test]
fn petersen_single_edge_forests() {
    let g = petersen().to_bipartite();
    let fg = ForestedGraph::new(&g, 1, true);
    assert_eq!(fg.subforests().len(), 1);
    let du = fg.d_unmark();
    assert_eq!(du.smaller_forests(), &[0]);
    assert_eq!(du.columns(), &[vec![(0, 1)]]);
    assert_eq!(du.matrix_entries(2, 5), vec![(5, 2, 1)]);
    let dc = fg.d_contract();
    assert_eq!(dc.contracted_graphs().len(), 1);
    assert_eq!(dc.contracted_graphs()[0].1, vec![0]);
    assert_eq!(dc.columns(), &[vec![((0, 0), 1)]]);
}

#[test]
fn unmark_filter_keeps_columns() {
    let g = petersen().to_bipartite();
    let fg = ForestedGraph::new(&g, 1, true);
    let du = fg.d_unmark().filter(|f| f != 0);
    assert!(du.smaller_forests().is_empty());
    assert_eq!(du.columns().len(), 1);
    assert!(du.matrix_entries(0, 0).is_empty());
}

#[test]
fn forested_graph_with_given_forests() {
    let g = petersen().to_bipartite();
    let fg = ForestedGraph::with_subforests(&g, &[vec![10, 11], vec![12]]);
    let expected: Vec<u64> = vec![(1 << 10) | (1 << 11), 1 << 12];
    assert_eq!(fg.subforests(), expected.as_slice());
    let kept = fg.filter(|f| f.count_ones() == 1);
    assert_eq!(kept.subforests(), &[1 << 12]);
}

#[test]
fn g6_round_trip() {
    let g = petersen();
    let text = g.to_g6();
    let h = Graph::from_g6(&text);
    assert_eq!(h.num_vertices, 10);
    let mut a = g.edges.clone();
    a.sort_unstable();
    assert_eq!(h.edges, a);
    assert!(g.is_isomorphic_to(&h));
}

#[test]
fn parse_and_format_vectors() {
    assert_eq!(parse_vector(" [1, -2,  3] "), Some(vec![1, -2, 3]));
    assert_eq!(parse_vector("[1, x]"), None);
    assert_eq!(parse_vector("[9223372036854775808]"), None);
    assert_eq!(parse_vector("[-9223372036854775808]"), Some(vec![i64::MIN]));
    assert_eq!(support::parse_vector("[1 2 +3]"), Some(vec![1, 2, 3]));
    assert_eq!(format_vector(&[1, -2, 3]), "[1, -2, 3]");
    assert_eq!(format_vector(&[]), "[]");
    assert_eq!(format_vector(&[i64::MIN]), "[-9223372036854775808]");
    let v = vec![0, 17, -40];
    assert_eq!(parse_vector(&format_vector(&v)), Some(v));
}

#[test]
fn parse_and_format_bases() {
    let basis = parse_typed_basis("a x y\nb z\n").unwrap();
    assert_eq!(basis, vec![pair("a", "x"), pair("a", "y"), pair("b", "z")]);
    assert_eq!(format_typed_basis(&basis), "a x y\nb z");
    assert_eq!(parse_typed_basis("a x\n\nb y"), None);
    assert_eq!(parse_typed_basis(&format_typed_basis(&basis)), Some(basis));
}

#[test]
fn scale_and_support() {
    let basis = vec![pair("a", "x"), pair("b", "y")];
    let expanded = vec![pair("b", "y"), pair("c", "z"), pair("a", "x")];
    assert_eq!(scale_to_basis(&basis, &[3, 4], &expanded), vec![4, 0, 3]);
    assert_eq!(missing_elements(&basis, &expanded[..1]), vec![pair("a", "x")]);
    assert!(missing_elements(&basis, &expanded).is_empty());
    let (c, b) = support(&[pair("a", "x"), pair("b", "y"), pair("c", "z")], &[0, 5, -1]);
    assert_eq!(c, vec![5, -1]);
    assert_eq!(b, vec![pair("b", "y"), pair("c", "z")]);
}

#[test]
fn registry_reading() {
    let (graphs, indices, forests) = read_registry("G 1F A\n\nH\nI +ff\n").unwrap();
    assert_eq!(graphs, vec!["G".to_string(), "H".to_string(), "I".to_string()]);
    assert_eq!(indices, vec![0, 2, 2, 3]);
    assert_eq!(forests, vec![0x1F, 0xA, 0xFF]);
    assert_eq!(read_registry("G zz\n"), None);
    assert_eq!(registry_graph(&indices, 0), 0);
    assert_eq!(registry_graph(&indices, 2), 2);
    let mut s = String::new();
    push_hex(&mut s, 255);
    push_hex(&mut s, 0);
    assert_eq!(s, "FF0");
}

#[test]
fn elim_dependent_rows_leave_zero_row() {
    let mut rows = Rows::new(vec![vec![2, 4], vec![1, 2]], 7);
    rows.eliminate();
    assert_eq!(rows.rows, vec![vec![1, 2], vec![0, 0]]);
}

#[test]
fn full_complex_of_petersen_single_edge() {
    let g = petersen().to_bipartite();
    let fg = ForestedGraph::new(&g, 1, true);
    let fgs = vec![fg];
    let (dims, entries) = graphc::complex::full_complex_entries(&fgs, false).unwrap();
    assert_eq!(dims, [2, 1]);
    assert_eq!(entries, vec![(0, 0, 1), (1, 0, 1)]);
    let (tdims, tentries) = graphc::complex::full_complex_entries(&fgs, true).unwrap();
    assert_eq!(tdims, [1, 2]);
    assert_eq!(tentries, vec![(0, 0, 1), (0, 1, 1)]);
}

#[test]
fn full_complex_of_nothing() {
    let (dims, entries) = graphc::complex::full_complex_entries(&[], false).unwrap();
    assert_eq!(dims, [0, 0]);
    assert!(entries.is_empty());
}

#[test]
fn complex_of_petersen_single_edge() {
    let g = petersen().to_bipartite();
    let fgs = vec![ForestedGraph::new(&g, 1, true)];
    let (dims, entries) = graphc::complex::complex_entries(&fgs, true, true, 1, 255).unwrap();
    assert_eq!(dims, [2, 1]);
    assert_eq!(entries, vec![(0, 0, 1), (1, 0, 1)]);
    let (dims, entries) = graphc::complex::complex_entries(&fgs, true, false, 1, 255).unwrap();
    assert_eq!(dims, [1, 1]);
    assert_eq!(entries, vec![(0, 0, 1)]);
    let (dims, entries) = graphc::complex::complex_entries(&fgs, false, true, 1, 255).unwrap();
    assert_eq!(dims, [1, 1]);
    assert_eq!(entries, vec![(0, 0, 1)]);
    let (dims, entries) = graphc::complex::complex_entries(&fgs, false, false, 1, 255).unwrap();
    assert_eq!(dims, [0, 0]);
    assert!(entries.is_empty());
}

#[test]
fn complex_of_petersen_with_girth_filter() {
    let g = petersen().to_bipartite();
    let fgs = vec![ForestedGraph::new(&g, 1, true)];
    // contracting an edge of the Petersen graph leaves girth 4
    let (dims, _) = graphc::complex::complex_entries(&fgs, true, true, 5, 255).unwrap();
    assert_eq!(dims[1], 0);
    let (dims, _) = graphc::complex::complex_entries(&fgs, true, true, 4, 4).unwrap();
    assert_eq!(dims[1], 1);
}

#[test]
fn table_size_counts_graph_forest_pairs() {
    let items = vec![
        ("A?".to_string(), vec![1u64, 2]),
        ("B?".to_string(), vec![2u64]),
        ("A?".to_string(), vec![2u64, 3]),
    ];
    let table = GraphTable::new(&items);
    assert_eq!(table.size(), 4);
    let mut rows = vec![
        table.get_index("A?", 1).unwrap(),
        table.get_index("A?", 2).unwrap(),
        table.get_index("A?", 3).unwrap(),
        table.get_index("B?", 2).unwrap(),
    ];
    rows.sort();
    assert_eq!(rows, vec![0, 1, 2, 3]);
    assert_eq!(table.get_index("B?", 1), None);
}

#[test]
fn euler_characteristics_alternating_sums() {
    let dims = vec![vec![1], vec![2, 3], vec![4, 5, 6]];
    assert_eq!(graphc::euler::euler_characteristics(&dims), vec![0, 2, 2]);
    assert_eq!(graphc::euler::euler_characteristics(&vec![vec![1]]), vec![0]);
}

#[test]
fn forest_size_counts_by_edges() {
    let forests = vec![0b1u64, 0b11, 0b101, 0, 0b1000];
    assert_eq!(graphc::euler::forest_size_counts(&forests, 4), vec![1, 2, 2, 0]);
}
