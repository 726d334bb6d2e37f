use hnsw_db::distance::{CosineSimilarity, Distance};
use hnsw_db::hnsw::{HnswIndex, VectorNode};
use hnsw_db::storage::write_prefix;

#[derive(Clone, Debug, PartialEq)]
struct Embedding(Vec<f32>);

/// Maps an `f32` to an integer with the same strict order (both zeros meet,
/// NaN ranks lowest).
fn order_key(x: f32) -> i64 {
    if x.is_nan() {
        return i64::MIN;
    }
    let bits = x.to_bits();
    if bits >> 31 == 1 {
        -((bits & 0x7fff_ffff) as i64)
    } else {
        bits as i64
    }
}

fn cosine(a: &[f32], b: &[f32]) -> f32 {
    let dot: f32 = a.iter().zip(b).map(|(x, y)| x * y).sum();
    let na: f32 = a.iter().map(|x| x * x).sum::<f32>().sqrt();
    let nb: f32 = b.iter().map(|x| x * x).sum::<f32>().sqrt();
    if na == 0.0 || nb == 0.0 {
        return 0.0;
    }
    dot / (na * nb)
}

impl Distance<Embedding> for CosineSimilarity {
    fn similarity(a: Embedding, b: Embedding) -> i64 {
        Self::calculate(&a, &b)
    }

    fn calculate(a: &Embedding, b: &Embedding) -> i64 {
        order_key(cosine(&a.0, &b.0))
    }
}

/// Negated squared Euclidean distance on integer points: exact scores.
struct NegSquared;

impl Distance<Vec<i64>> for NegSquared {
    fn similarity(a: Vec<i64>, b: Vec<i64>) -> i64 {
        Self::calculate(&a, &b)
    }

    fn calculate(a: &Vec<i64>, b: &Vec<i64>) -> i64 {
        -a.iter().zip(b).map(|(x, y)| (x - y) * (x - y)).sum::<i64>()
    }
}

type CosineIndex = HnswIndex<Embedding, CosineSimilarity>;

fn emb(v: &[f32]) -> Embedding {
    Embedding(v.to_vec())
}

struct Lcg(u64);

impl Lcg {
    fn next(&mut self) -> u64 {
        self.0 = self.0.wrapping_mul(6364136223846793005).wrapping_add(1442695040888963407);
        self.0 >> 33
    }
    fn unit(&mut self) -> f32 {
        (self.next() % 2_000_001) as f32 / 1_000_000.0 - 1.0
    }
    /// A geometric layer with decay `1 / m`.
    fn layer(&mut self, m: u64) -> usize {
        let mut l = 0;
        while self.next() % m == 0 && l < 8 {
            l += 1;
        }
        l
    }
}

fn random_unit(rng: &mut Lcg, dim: usize) -> Vec<f32> {
    let v: Vec<f32> = (0..dim).map(|_| rng.unit()).collect();
    let n = v.iter().map(|x| x * x).sum::<f32>().sqrt();
    v.iter().map(|x| x / n).collect()
}

fn check_structure<V, D: Distance<V>>(index: &HnswIndex<V, D>) {
    let n = index.nodes.len();
    assert_eq!(index.entry_point.is_none(), n == 0);
    let mut top = 0;
    for (i, node) in index.nodes.iter().enumerate() {
        assert_eq!(node.id, i);
        assert!(!node.neighbors.is_empty());
        top = top.max(node.neighbors.len() - 1);
        for (l, adj) in node.neighbors.iter().enumerate() {
            assert!(adj.len() <= index.m, "node {} layer {} has {} neighbours", i, l, adj.len());
            let mut sorted = adj.clone();
            sorted.sort();
            sorted.dedup();
            assert_eq!(sorted.len(), adj.len(), "node {} layer {} repeats an id", i, l);
            for &x in adj {
                assert_ne!(x, i);
                assert!(x < n);
                assert!(l < index.nodes[x].neighbors.len());
            }
        }
    }
    if let Some(e) = index.entry_point {
        assert_eq!(index.nodes[e].neighbors.len() - 1, index.max_layer);
        assert_eq!(index.max_layer, top);
    } else {
        assert_eq!(index.max_layer, 0);
    }
}

#[test]
fn new_node_has_empty_layers() {
    let node = VectorNode::new(7, emb(&[1.0, 2.0]), 3);
    assert_eq!(node.id, 7);
    assert_eq!(node.vector, emb(&[1.0, 2.0]));
    assert_eq!(node.neighbors.len(), 4);
    assert!(node.neighbors.iter().all(|l| l.is_empty()));
}

#[test]
fn empty_index_query_returns_nothing() {
    let index: CosineIndex = HnswIndex::new(16);
    assert_eq!(index.discover_nearest(&emb(&[1.0, 0.0])), None);
    assert_eq!(index.max_layer, 0);
    assert_eq!(index.m, 16);
}

#[test]
fn single_vector_is_found() {
    let mut index: CosineIndex = HnswIndex::new(16);
    index.insert(emb(&[1.0, 0.0]), 0);
    assert_eq!(index.discover_nearest(&emb(&[0.9, 0.1])), Some(0));
    assert_eq!(index.entry_point, Some(0));
}

#[test]
fn single_node_answers_any_query() {
    let mut index: CosineIndex = HnswIndex::new(4);
    index.insert(emb(&[0.3, -0.7, 0.2]), 2);
    for q in [[1.0, 0.0, 0.0], [0.0, 0.0, 0.0], [-5.0, 2.0, 1.0]] {
        assert_eq!(index.discover_nearest(&emb(&q)), Some(0));
    }
    assert_eq!(index.max_layer, 2);
}

fn three_axes() -> CosineIndex {
    let mut index: CosineIndex = HnswIndex::new(16);
    index.insert(emb(&[1.0, 0.0]), 0);
    index.insert(emb(&[0.0, 1.0]), 0);
    index.insert(emb(&[-1.0, 0.0]), 0);
    index
}

#[test]
fn query_near_first_axis() {
    assert_eq!(three_axes().discover_nearest(&emb(&[0.99, 0.01])), Some(0));
}

#[test]
fn query_near_second_axis() {
    assert_eq!(three_axes().discover_nearest(&emb(&[0.01, 0.99])), Some(1));
}

#[test]
fn three_axes_are_linked_both_ways() {
    let index = three_axes();
    assert_eq!(index.nodes[0].neighbors[0], vec![1, 2]);
    assert_eq!(index.nodes[1].neighbors[0], vec![0, 2]);
    assert_eq!(index.nodes[2].neighbors[0], vec![0, 1]);
    check_structure(&index);
}

#[test]
fn entry_point_follows_tallest_node() {
    let mut index: CosineIndex = HnswIndex::new(16);
    index.insert(emb(&[1.0, 0.0]), 1);
    assert_eq!((index.entry_point, index.max_layer), (Some(0), 1));
    index.insert(emb(&[0.0, 1.0]), 0);
    assert_eq!((index.entry_point, index.max_layer), (Some(0), 1));
    index.insert(emb(&[1.0, 1.0]), 1);
    assert_eq!((index.entry_point, index.max_layer), (Some(0), 1));
    index.insert(emb(&[-1.0, 1.0]), 3);
    assert_eq!((index.entry_point, index.max_layer), (Some(3), 3));
    check_structure(&index);
}

#[test]
fn fifty_inserts_keep_degree_cap() {
    let mut rng = Lcg(42);
    let mut index: CosineIndex = HnswIndex::new(4);
    for i in 0..50 {
        let layer = rng.layer(4);
        index.insert(Embedding(random_unit(&mut rng, 8)), layer);
        assert_eq!(index.nodes.len(), i + 1);
        assert_eq!(index.nodes[i].id, i);
        assert_eq!(index.nodes[i].neighbors.len(), layer + 1);
    }
    check_structure(&index);
}

#[test]
fn ids_follow_insertion_order() {
    let mut rng = Lcg(7);
    let mut index: CosineIndex = HnswIndex::new(16);
    let mut inserted = Vec::new();
    for _ in 0..30 {
        let v = random_unit(&mut rng, 4);
        inserted.push(v.clone());
        index.insert(Embedding(v), rng.layer(16));
    }
    for (i, v) in inserted.iter().enumerate() {
        assert_eq!(index.nodes[i].id, i);
        assert_eq!(&index.nodes[i].vector.0, v);
    }
}

#[test]
fn query_equal_to_stored_vector_scores_high() {
    let mut index: CosineIndex = HnswIndex::new(16);
    let vs = [[1.0, 0.0], [0.6, 0.8], [0.0, 1.0], [-0.6, 0.8], [-1.0, 0.0]];
    for v in vs {
        index.insert(emb(&v), 0);
    }
    for v in vs {
        let id = index.discover_nearest(&emb(&v)).unwrap();
        assert!(cosine(&index.nodes[id].vector.0, &v) >= 1.0 - 1e-6);
    }
}

#[test]
fn greedy_search_never_worsens_seed() {
    let mut rng = Lcg(99);
    let mut index: CosineIndex = HnswIndex::new(4);
    for _ in 0..40 {
        index.insert(Embedding(random_unit(&mut rng, 6)), 0);
    }
    for _ in 0..20 {
        let q = Embedding(random_unit(&mut rng, 6));
        for seed in 0..index.nodes.len() {
            let r = index.search_layer(&q, seed, 0);
            let s_seed = CosineSimilarity::calculate(&q, &index.nodes[seed].vector);
            let s_r = CosineSimilarity::calculate(&q, &index.nodes[r].vector);
            assert!(s_r >= s_seed);
            for &x in &index.nodes[r].neighbors[0] {
                assert!(CosineSimilarity::calculate(&q, &index.nodes[x].vector) <= s_r);
            }
        }
    }
}

#[test]
fn greedy_search_stops_at_local_best_under_tight_cap() {
    let mut index: HnswIndex<Vec<i64>, NegSquared> = HnswIndex::new(2);
    for x in 0..6 {
        index.insert(vec![x * 10], 0);
    }
    check_structure(&index);
    // pruning dropped the back-edges toward 40 and 50, so the walk ends at 30
    assert_eq!(index.nodes[0].neighbors[0], vec![1, 2]);
    assert_eq!(index.search_layer(&vec![52], 0, 0), 3);
}

#[test]
fn greedy_search_out_of_range_seed_is_returned() {
    let index = three_axes();
    assert_eq!(index.search_layer(&emb(&[1.0, 0.0]), 17, 0), 17);
}

#[test]
fn greedy_search_walks_a_line() {
    let mut index: HnswIndex<Vec<i64>, NegSquared> = HnswIndex::new(16);
    for x in 0..6 {
        index.insert(vec![x * 10], 0);
    }
    check_structure(&index);
    assert_eq!(index.search_layer(&vec![52], 0, 0), 5);
    assert_eq!(index.discover_nearest(&vec![-3]), Some(0));
    assert_eq!(index.discover_nearest(&vec![31]), Some(3));
}

#[test]
fn pruning_keeps_closest_neighbours() {
    let mut index: HnswIndex<Vec<i64>, NegSquared> = HnswIndex::new(2);
    index.insert(vec![0], 0);
    index.insert(vec![10], 0);
    index.insert(vec![3], 0);
    index.insert(vec![1], 0);
    check_structure(&index);
    // node 0 saw 1, 2, 3 arrive and keeps the two closest to 0, closest first
    assert_eq!(index.nodes[0].neighbors[0], vec![3, 2]);
    for node in &index.nodes {
        assert!(node.neighbors[0].len() <= 2);
    }
}

#[test]
fn expander_starts_at_seed_and_respects_cap() {
    let mut index: HnswIndex<Vec<i64>, NegSquared> = HnswIndex::new(3);
    for x in [0, 5, 9, 14, 20, 21, 30] {
        index.insert(vec![x], 0);
    }
    for seed in 0..index.nodes.len() {
        let r = index.find_neighbors_for_layer(&vec![12], seed, 0);
        assert_eq!(r[0], seed);
        assert!(!r.is_empty() && r.len() <= 3);
        let mut sorted = r.clone();
        sorted.sort();
        sorted.dedup();
        assert_eq!(sorted.len(), r.len());
        for k in 1..r.len() {
            assert!((0..k).any(|j| index.nodes[r[j]].neighbors[0].contains(&r[k])));
        }
    }
}

#[test]
fn expander_takes_whole_small_component() {
    let mut index: HnswIndex<Vec<i64>, NegSquared> = HnswIndex::new(16);
    for x in [0, 5, 9] {
        index.insert(vec![x], 0);
    }
    let mut r = index.find_neighbors_for_layer(&vec![100], 0, 0);
    assert_eq!(r[0], 0);
    r.sort();
    assert_eq!(r, vec![0, 1, 2]);
}

#[test]
fn zero_cap_keeps_no_edges() {
    let mut index: HnswIndex<Vec<i64>, NegSquared> = HnswIndex::new(0);
    for x in 0..4 {
        index.insert(vec![x], 0);
    }
    check_structure(&index);
    assert!(index.nodes.iter().all(|n| n.neighbors[0].is_empty()));
    assert_eq!(index.discover_nearest(&vec![3]), Some(0));
}

#[test]
fn zero_vector_scores_zero() {
    let z = emb(&[0.0, 0.0]);
    let a = emb(&[1.0, 0.0]);
    assert_eq!(CosineSimilarity::calculate(&z, &a), 0);
    assert_eq!(CosineSimilarity::calculate(&a, &a), order_key(1.0));
    assert!(CosineSimilarity::calculate(&a, &emb(&[-1.0, 0.0])) < 0);
}

#[test]
fn snapshot_prefix_is_written() {
    let encoded: Vec<u8> = (0..200u32).map(|i| (i * 7 % 251) as u8).collect();
    let mut region = vec![0xAAu8; 1 << 20];
    write_prefix(&encoded, &mut region);
    assert!(encoded.len() < region.len());
    assert_eq!(&region[..encoded.len()], &encoded[..]);
    assert!(region[encoded.len()..].iter().all(|&b| b == 0xAA));
}

#[test]
fn snapshot_fills_exact_region() {
    let encoded = vec![1u8, 2, 3];
    let mut region = vec![9u8; 3];
    write_prefix(&encoded, &mut region);
    assert_eq!(region, vec![1, 2, 3]);
    let mut empty_region: Vec<u8> = vec![];
    write_prefix(&[], &mut empty_region);
    assert!(empty_region.is_empty());
}

#[test]
fn built_index_is_well_formed() {
    let mut rng = Lcg(5);
    let mut index: CosineIndex = HnswIndex::new(3);
    assert!(index.is_well_formed());
    for _ in 0..25 {
        let layer = rng.layer(3);
        index.insert(Embedding(random_unit(&mut rng, 5)), layer);
        assert!(index.is_well_formed());
    }
}

fn small_line() -> HnswIndex<Vec<i64>, NegSquared> {
    let mut index = HnswIndex::new(2);
    for x in 0..4 {
        index.insert(vec![x], 0);
    }
    index
}

#[test]
fn self_loop_is_not_well_formed() {
    let mut index = small_line();
    index.nodes[1].neighbors[0] = vec![1];
    assert!(!index.is_well_formed());
}

#[test]
fn overfull_list_is_not_well_formed() {
    let mut index = small_line();
    index.nodes[0].neighbors[0] = vec![1, 2, 3];
    assert!(!index.is_well_formed());
}

#[test]
fn dangling_edge_is_not_well_formed() {
    let mut index = small_line();
    index.nodes[0].neighbors[0] = vec![9];
    assert!(!index.is_well_formed());
}

#[test]
fn edge_to_missing_layer_is_not_well_formed() {
    let mut index = small_line();
    index.nodes[0].neighbors.push(vec![1]);
    index.max_layer = 1;
    index.entry_point = Some(0);
    assert!(!index.is_well_formed());
    index.nodes[0].neighbors[1] = vec![];
    assert!(index.is_well_formed());
}

#[test]
fn wrong_id_or_entry_is_not_well_formed() {
    let mut index = small_line();
    index.nodes[2].id = 5;
    assert!(!index.is_well_formed());
    let mut index = small_line();
    index.entry_point = None;
    assert!(!index.is_well_formed());
    let mut index = small_line();
    index.max_layer = 1;
    assert!(!index.is_well_formed());
}

#[test]
fn back_edges_stay_when_neighbours_have_room() {
    let mut rng = Lcg(11);
    let mut index: CosineIndex = HnswIndex::new(6);
    for _ in 0..40 {
        let before: Vec<Vec<Vec<usize>>> = index.nodes.iter().map(|n| n.neighbors.clone()).collect();
        let id = index.nodes.len();
        let layer = rng.layer(6);
        index.insert(Embedding(random_unit(&mut rng, 4)), layer);
        for (l, adj) in index.nodes[id].neighbors.iter().enumerate() {
            for &b in adj {
                assert!(b < id);
                if before[b][l].len() < index.m {
                    let mut grown = before[b][l].clone();
                    grown.push(id);
                    assert_eq!(index.nodes[b].neighbors[l], grown);
                }
            }
        }
        for (k, lists) in before.iter().enumerate() {
            for (l, old) in lists.iter().enumerate() {
                let now = &index.nodes[k].neighbors[l];
                assert!(now.iter().all(|x| old.contains(x) || *x == id));
            }
        }
    }
    check_structure(&index);
}

#[test]
fn nan_never_outranks_a_number() {
    let a = emb(&[1.0, 0.0]);
    let nan = emb(&[f32::NAN, 0.0]);
    assert!(CosineSimilarity::calculate(&a, &nan) < CosineSimilarity::calculate(&a, &emb(&[-1.0, 0.0])));
}
