use simcluster::cluster::{cluster_graph, components, select_representative};
use simcluster::export::{edge_list_lines, weight_to_text};
use simcluster::features::{select_features, select_table, TableError};
use simcluster::graph::{build_similarity_graph, SimilarityGraph};

const ONE: i64 = 1_000_000;

fn labels(names: &[&str]) -> Vec<String> {
    names.iter().map(|s| s.to_string()).collect()
}

fn square(n: usize, entries: &[(usize, usize, i64)]) -> Vec<Vec<i64>> {
    let mut m = vec![vec![0i64; n]; n];
    for &(i, j, s) in entries {
        m[i][j] = s;
        m[j][i] = s;
    }
    m
}

fn pairs(g: &SimilarityGraph) -> Vec<(usize, usize, i64)> {
    (0..g.edge_count())
        .map(|k| {
            let e = g.edge(k);
            (e.source, e.target, e.weight)
        })
        .collect()
}

/// Cosine similarity over the shared leading positions, in millionths.
fn cosine_micro(u: &[f64], v: &[f64]) -> i64 {
    let dot: f64 = u.iter().zip(v).map(|(x, y)| x * y).sum();
    let nu: f64 = u.iter().map(|x| x * x).sum::<f64>().sqrt();
    let nv: f64 = v.iter().map(|x| x * x).sum::<f64>().sqrt();
    if nu > 0.0 && nv > 0.0 {
        (dot / (nu * nv) * 1e6).round() as i64
    } else {
        0
    }
}

fn score_matrix(vectors: &[Vec<f64>]) -> Vec<Vec<i64>> {
    let n = vectors.len();
    let mut m = vec![vec![0i64; n]; n];
    for i in 0..n {
        for j in 0..n {
            m[i][j] = cosine_micro(&vectors[i], &vectors[j]);
        }
    }
    m
}

#[test]
fn scenario_identical_and_orthogonal_vectors() {
    let vectors = vec![vec![1.0, 0.0], vec![1.0, 0.0], vec![0.0, 1.0]];
    let scores = score_matrix(&vectors);
    let g = build_similarity_graph(labels(&["A", "B", "C"]), &scores, 990_000);
    assert_eq!(g.node_count(), 3);
    assert_eq!(pairs(&g), vec![(0, 1, ONE)]);
    assert_eq!(components(&g), vec![vec![0, 1], vec![2]]);
    assert_eq!(select_representative(&g, &vec![0, 1]), Some(0));
    assert_eq!(select_representative(&g, &vec![2]), Some(2));
    assert_eq!(cluster_graph(&g), vec!["A".to_string(), "C".to_string()]);
    assert_eq!(
        edge_list_lines(&g),
        vec!["Source,Target,Weight".to_string(), "A, B, 1.000000".to_string()]
    );
}

#[test]
fn zero_vector_stays_isolated_for_positive_threshold() {
    let vectors = vec![vec![0.0, 0.0], vec![1.0, 2.0], vec![2.0, 4.0]];
    let scores = score_matrix(&vectors);
    assert_eq!(scores[0][1], 0);
    assert_eq!(scores[0][2], 0);
    for t in [1, 500_000, 990_000] {
        let g = build_similarity_graph(labels(&["D", "E", "F"]), &scores, t);
        assert_eq!(g.degree(0), 0);
        assert_eq!(components(&g), vec![vec![0], vec![1, 2]]);
    }
    let g = build_similarity_graph(labels(&["D", "E", "F"]), &scores, 0);
    assert_eq!(g.degree(0), 2);
    assert_eq!(components(&g), vec![vec![0, 1, 2]]);
}

#[test]
fn export_two_edges_gives_three_lines() {
    let scores = square(3, &[(0, 1, ONE), (1, 2, 500_000), (0, 2, 100_000)]);
    let g = build_similarity_graph(labels(&["A", "B", "C"]), &scores, 500_000);
    let mut lines = edge_list_lines(&g);
    assert_eq!(lines.len(), 3);
    assert_eq!(lines[0], "Source,Target,Weight");
    lines.sort();
    assert_eq!(
        lines,
        vec![
            "A, B, 1.000000".to_string(),
            "B, C, 0.500000".to_string(),
            "Source,Target,Weight".to_string(),
        ]
    );
}

#[test]
fn raising_threshold_never_adds_edges() {
    let scores = square(
        4,
        &[(0, 1, 900_000), (0, 2, 700_000), (0, 3, -200_000), (1, 2, 800_000), (1, 3, 850_000), (2, 3, 300_000)],
    );
    let thresholds = [-1_000_000, -200_000, 0, 300_000, 750_000, 850_000, 900_000, 950_000];
    for w in thresholds.windows(2) {
        let low = pairs(&build_similarity_graph(labels(&["a", "b", "c", "d"]), &scores, w[0]));
        let high = pairs(&build_similarity_graph(labels(&["a", "b", "c", "d"]), &scores, w[1]));
        assert!(high.iter().all(|e| low.contains(e)));
        assert!(high.len() <= low.len());
    }
    let all = pairs(&build_similarity_graph(labels(&["a", "b", "c", "d"]), &scores, -1_000_000));
    assert_eq!(all.len(), 6);
    let none = pairs(&build_similarity_graph(labels(&["a", "b", "c", "d"]), &scores, 2 * ONE));
    assert!(none.is_empty());
}

#[test]
fn builder_reads_only_pairs_above_diagonal() {
    let mut scores = vec![vec![0i64; 3]; 3];
    scores[0][1] = ONE;
    scores[1][0] = -ONE;
    scores[2][2] = ONE;
    let g = build_similarity_graph(labels(&["x", "y", "z"]), &scores, 500_000);
    assert_eq!(pairs(&g), vec![(0, 1, ONE)]);
}

#[test]
fn components_cover_every_node_once() {
    let scores = square(6, &[(0, 3, ONE), (3, 5, ONE), (1, 4, ONE)]);
    let g = build_similarity_graph(labels(&["a", "b", "c", "d", "e", "f"]), &scores, ONE);
    let c = components(&g);
    assert_eq!(c, vec![vec![0, 3, 5], vec![1, 4], vec![2]]);
    let mut all: Vec<usize> = c.iter().flatten().copied().collect();
    all.sort();
    assert_eq!(all, vec![0, 1, 2, 3, 4, 5]);
}

#[test]
fn components_join_through_chains() {
    let scores = square(4, &[(0, 1, ONE), (1, 2, ONE), (2, 3, ONE)]);
    let g = build_similarity_graph(labels(&["a", "b", "c", "d"]), &scores, ONE);
    assert_eq!(components(&g), vec![vec![0, 1, 2, 3]]);
}

#[test]
fn components_twice_agree() {
    let scores = square(5, &[(0, 4, ONE), (2, 3, ONE)]);
    let g = build_similarity_graph(labels(&["a", "b", "c", "d", "e"]), &scores, ONE);
    assert_eq!(components(&g), components(&g));
}

#[test]
fn isolated_nodes_are_singleton_clusters() {
    let scores = square(3, &[]);
    let g = build_similarity_graph(labels(&["p", "q", "r"]), &scores, 500_000);
    assert_eq!(g.edge_count(), 0);
    assert_eq!(components(&g), vec![vec![0], vec![1], vec![2]]);
    assert_eq!(cluster_graph(&g), labels(&["p", "q", "r"]));
}

#[test]
fn empty_graph_has_no_clusters() {
    let g = build_similarity_graph(Vec::new(), &Vec::new(), 0);
    assert!(components(&g).is_empty());
    assert!(cluster_graph(&g).is_empty());
    assert_eq!(edge_list_lines(&g), vec!["Source,Target,Weight".to_string()]);
}

#[test]
fn representative_has_highest_degree() {
    // A star around node 2, plus the edge 0-1.
    let scores = square(5, &[(0, 1, ONE), (0, 2, ONE), (1, 2, ONE), (2, 3, ONE), (2, 4, ONE)]);
    let g = build_similarity_graph(labels(&["a", "b", "hub", "d", "e"]), &scores, ONE);
    assert_eq!(g.degree(2), 4);
    assert_eq!(g.degree(0), 2);
    assert_eq!(select_representative(&g, &vec![0, 1, 2, 3, 4]), Some(2));
    assert_eq!(cluster_graph(&g), vec!["hub".to_string()]);
}

#[test]
fn representative_tie_goes_to_first_listed() {
    let scores = square(4, &[(0, 1, ONE), (2, 3, ONE)]);
    let g = build_similarity_graph(labels(&["a", "b", "c", "d"]), &scores, ONE);
    assert_eq!(select_representative(&g, &vec![1, 0]), Some(1));
    assert_eq!(select_representative(&g, &vec![3, 2, 1]), Some(3));
    assert_eq!(select_representative(&g, &vec![]), None);
}

#[test]
fn representative_is_member_of_cluster() {
    let scores = square(5, &[(0, 2, ONE), (2, 4, ONE), (1, 3, ONE)]);
    let g = build_similarity_graph(labels(&["a", "b", "c", "d", "e"]), &scores, ONE);
    for c in components(&g) {
        let r = select_representative(&g, &c).unwrap();
        assert!(c.contains(&r));
    }
}

#[test]
fn weights_are_written_with_six_decimals() {
    assert_eq!(weight_to_text(0), "0.000000");
    assert_eq!(weight_to_text(ONE), "1.000000");
    assert_eq!(weight_to_text(500_000), "0.500000");
    assert_eq!(weight_to_text(-500_000), "-0.500000");
    assert_eq!(weight_to_text(-1), "-0.000001");
    assert_eq!(weight_to_text(123_456_789), "123.456789");
    assert_eq!(weight_to_text(-2_000_007), "-2.000007");
    assert_eq!(weight_to_text(i64::MIN), "-9223372036854.775808");
    assert_eq!(weight_to_text(i64::MAX), "9223372036854.775807");
}

#[test]
fn export_uses_labels_and_weights() {
    let scores = square(2, &[(0, 1, -250_000)]);
    let g = build_similarity_graph(labels(&["Viet Nam", "Chad"]), &scores, -500_000);
    assert_eq!(
        edge_list_lines(&g),
        vec!["Source,Target,Weight".to_string(), "Viet Nam, Chad, -0.250000".to_string()]
    );
}

#[test]
fn features_skip_missing_cells() {
    let row: Vec<Option<f64>> = vec![None, Some(65.0), None, Some(0.5), Some(1200.0)];
    assert_eq!(select_features(&row, &vec![1, 3, 4]), vec![65.0, 0.5, 1200.0]);
    assert_eq!(select_features(&row, &vec![4, 0, 1, 9]), vec![1200.0, 65.0]);
    assert_eq!(select_features(&row, &vec![2, 2]), Vec::<f64>::new());
    assert_eq!(select_features(&row, &vec![]), Vec::<f64>::new());
}

#[test]
fn table_keeps_row_order_and_drops_missing_cells() {
    let rows: Vec<Vec<Option<f64>>> = vec![
        vec![None, Some(1.0), Some(2.0)],
        vec![None, None, Some(3.0)],
        vec![None, Some(4.0)],
    ];
    let table = select_table(&rows, &vec![1, 2]).unwrap();
    assert_eq!(table, vec![vec![1.0, 2.0], vec![3.0], vec![4.0]]);
}

#[test]
fn table_without_rows_or_columns_is_rejected() {
    let rows: Vec<Vec<Option<f64>>> = vec![vec![Some(1.0)]];
    assert_eq!(select_table(&rows, &vec![]), Err(TableError::EmptyInput));
    let empty: Vec<Vec<Option<f64>>> = Vec::new();
    assert_eq!(select_table(&empty, &vec![0]), Err(TableError::EmptyInput));
}
