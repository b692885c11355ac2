use lsm_vec::hash_code::HashCode;
use lsm_vec::scalar::Scalar;
use lsm_vec::simhash::SimHashSampler;
use rand::rngs::StdRng;
use rand::SeedableRng;
use rand_distr::{Distribution, StandardNormal};

/// A sampler with the random projections that its dots are taken with.
struct Projected {
    sampler: SimHashSampler,
    projections: Vec<Vec<f32>>,
}

impl Projected {
    fn new(dimension: usize, num_bits: usize, seed: u64) -> Self {
        let mut rng = StdRng::seed_from_u64(seed);
        let projections = (0..num_bits)
            .map(|_| (0..dimension).map(|_| StandardNormal.sample(&mut rng)).collect())
            .collect();
        Projected { sampler: SimHashSampler::new(dimension, num_bits), projections }
    }

    fn dots(&self, vector: &[f32]) -> Vec<Scalar> {
        self.projections
            .iter()
            .map(|p| {
                let dot: f32 = vector.iter().zip(p.iter()).map(|(x, y)| x * y).sum();
                Scalar::from_bits(dot.to_bits())
            })
            .collect()
    }

    fn compute_hash(&self, vector: &[f32]) -> HashCode {
        self.sampler.compute_hash(&self.dots(vector))
    }

    fn compute_and_store(&mut self, id: u64, vector: &[f32]) {
        let dots = self.dots(vector);
        self.sampler.compute_and_store(id, &dots);
    }

    fn threshold(&self, epsilon: f64) -> usize {
        let share = (self.sampler.num_bits() as f64 * (0.5 + epsilon * 0.1)) as usize;
        self.sampler.threshold(share)
    }
}

fn scalars(values: &[f32]) -> Vec<Scalar> {
    values.iter().map(|v| Scalar::from_bits(v.to_bits())).collect()
}

#[test]
fn test_hash_computation() {
    let sampler = Projected::new(4, 64, 42);

    let v1 = vec![1.0, 0.0, 0.0, 0.0];
    let h1 = sampler.compute_hash(&v1);
    assert_eq!(h1.len(), 64);

    let h1_again = sampler.compute_hash(&v1);
    assert_eq!(h1, h1_again);
}

#[test]
fn test_similar_vectors_high_collision() {
    let sampler = Projected::new(4, 64, 42);

    let v1 = vec![1.0, 0.0, 0.0, 0.0];
    let v2 = vec![0.99, 0.01, 0.0, 0.0];

    let h1 = sampler.compute_hash(&v1);
    let h2 = sampler.compute_hash(&v2);

    let collisions = SimHashSampler::collision_count(&h1, &h2);
    assert!(collisions > 32, "Expected high collision count for similar vectors");
}

#[test]
fn test_orthogonal_vectors_low_collision() {
    let sampler = Projected::new(4, 64, 42);

    let v1 = vec![1.0, 0.0, 0.0, 0.0];
    let v2 = vec![0.0, 1.0, 0.0, 0.0];

    let h1 = sampler.compute_hash(&v1);
    let h2 = sampler.compute_hash(&v2);

    let collisions = SimHashSampler::collision_count(&h1, &h2);
    assert!(
        (20..45).contains(&collisions),
        "Expected ~50% collision for orthogonal vectors, got {}",
        collisions
    );
}

#[test]
fn test_store_and_retrieve() {
    let mut sampler = Projected::new(4, 64, 42);

    let v = vec![1.0, 2.0, 3.0, 4.0];
    sampler.compute_and_store(0, &v);

    assert!(sampler.sampler.get_hash(0).is_some());
    assert!(sampler.sampler.get_hash(1).is_none());

    sampler.sampler.remove_hash(0);
    assert!(sampler.sampler.get_hash(0).is_none());
}

#[test]
fn test_filter_candidates() {
    let mut sampler = Projected::new(4, 64, 42);

    let v_query = vec![1.0, 0.0, 0.0, 0.0];
    let v_similar = vec![0.9, 0.1, 0.0, 0.0];
    let v_different = vec![0.0, 0.0, 0.0, 1.0];

    sampler.compute_and_store(1, &v_similar);
    sampler.compute_and_store(2, &v_different);

    let query_hash = sampler.compute_hash(&v_query);
    let threshold = sampler.threshold(0.1);

    let candidates = vec![1, 2, 3];
    let filtered = sampler.sampler.filter_candidates(&query_hash, &candidates, threshold);

    assert!(filtered.contains(&1));
    assert!(filtered.contains(&3));
}

#[test]
fn bits_follow_the_signs_of_the_dots() {
    let sampler = SimHashSampler::new(2, 5);
    let code = sampler.compute_hash(&scalars(&[1.0, -1.0, 0.0, -0.0, f32::NAN]));
    let same = sampler.compute_hash(&scalars(&[7.0, -0.5, 2.0, 3.0, -1.0]));
    let opposite = sampler.compute_hash(&scalars(&[-1.0, 1.0, -1.0, -1.0, 1.0]));
    assert_eq!(code, same);
    assert_eq!(SimHashSampler::collision_count(&code, &same), 5);
    assert_eq!(SimHashSampler::collision_count(&code, &opposite), 0);
}

#[test]
fn collisions_are_symmetric_and_full_only_for_equal_codes() {
    let sampler = SimHashSampler::new(2, 4);
    let a = sampler.compute_hash(&scalars(&[1.0, 1.0, -1.0, -1.0]));
    let b = sampler.compute_hash(&scalars(&[1.0, -1.0, -1.0, -1.0]));
    assert_eq!(SimHashSampler::collision_count(&a, &b), 3);
    assert_eq!(SimHashSampler::collision_count(&b, &a), 3);
    assert_eq!(SimHashSampler::collision_count(&a, &a.clone()), 4);
    assert_eq!(a.clone(), a);
}

#[test]
fn thresholds_are_above_chance() {
    let sampler = SimHashSampler::new(4, 64);
    assert_eq!(sampler.threshold(32), 33);
    assert_eq!(sampler.threshold(33), 33);
    assert_eq!(sampler.threshold(40), 40);
    assert_eq!(SimHashSampler::new(4, 0).threshold(0), 1);
    assert_eq!(SimHashSampler::new(4, 7).threshold(0), 4);
}

#[test]
fn filter_keeps_order_and_counts_exactly() {
    let mut sampler = SimHashSampler::new(2, 4);
    let query = sampler.compute_hash(&scalars(&[1.0, 1.0, 1.0, 1.0]));
    sampler.compute_and_store(10, &scalars(&[1.0, 1.0, 1.0, -1.0]));
    sampler.compute_and_store(11, &scalars(&[1.0, 1.0, -1.0, -1.0]));
    sampler.compute_and_store(12, &scalars(&[-1.0, -1.0, -1.0, -1.0]));
    assert_eq!(sampler.filter_candidates(&query, &[12, 11, 10, 99], 3), vec![10, 99]);
    assert_eq!(sampler.filter_candidates(&query, &[12, 11, 10, 99], 2), vec![11, 10, 99]);
    assert_eq!(sampler.filter_candidates(&query, &[12, 12], 0), vec![12, 12]);
}

#[test]
fn codes_are_counted() {
    let mut sampler = SimHashSampler::new(2, 1);
    assert!(sampler.is_empty());
    assert_eq!(sampler.dimension(), 2);
    assert_eq!(sampler.num_bits(), 1);
    sampler.compute_and_store(3, &scalars(&[1.0]));
    sampler.compute_and_store(3, &scalars(&[-1.0]));
    assert_eq!(sampler.len(), 1);
    assert_eq!(sampler.get_hash(3), Some(sampler.compute_hash(&scalars(&[-1.0]))));
    let code = sampler.compute_hash(&scalars(&[1.0]));
    sampler.store_hash(4, code);
    assert_eq!(sampler.len(), 2);
    sampler.remove_hash(3);
    sampler.remove_hash(4);
    assert!(sampler.is_empty());
}

#[test]
fn complements_share_the_rest() {
    let projected = Projected::new(4, 64, 42);
    let a = projected.compute_hash(&[1.0, 2.0, -0.5, 0.25]);
    let b = projected.compute_hash(&[0.3, -1.0, 0.5, 2.0]);
    let opposite = projected.compute_hash(&[-0.3, 1.0, -0.5, -2.0]);
    let shared = SimHashSampler::collision_count(&a, &b);
    assert_eq!(shared + SimHashSampler::collision_count(&a, &opposite), 64);
}
