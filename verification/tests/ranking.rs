use mad_doc::document::MadDocument;
use mad_doc::ranking::rank_by_score;
use mad_doc::u64_to_dec;

/// Cosine similarity over 32-bit floats, zero on mismatched or zero-norm
/// vectors, as the similarity search defines it.
fn cosine(a: &[f32], b: &[f32]) -> f32 {
    if a.len() != b.len() {
        return 0.0;
    }
    let dot: f32 = a.iter().zip(b.iter()).map(|(x, y)| x * y).sum();
    let na: f32 = a.iter().map(|x| x * x).sum::<f32>().sqrt();
    let nb: f32 = b.iter().map(|x| x * x).sum::<f32>().sqrt();
    if na == 0.0 || nb == 0.0 {
        0.0
    } else {
        dot / (na * nb)
    }
}

/// An order-preserving map from finite floats to unsigned keys.
fn score_key(x: f32) -> u64 {
    let b = x.to_bits();
    let k = if b & 0x8000_0000 != 0 { !b } else { b | 0x8000_0000 };
    k as u64
}

#[test]
fn ranking_orders_by_score_then_insertion() {
    let scores: Vec<u64> = vec![5, 9, 9, 1];
    let r = rank_by_score(&scores, 4);
    assert_eq!(r, vec![1, 2, 0, 3]);
}

#[test]
fn ranking_truncates_to_top_k() {
    let scores: Vec<u64> = vec![3, 7, 5];
    assert_eq!(rank_by_score(&scores, 2), vec![1, 2]);
    assert_eq!(rank_by_score(&scores, 0), Vec::<usize>::new());
}

#[test]
fn ranking_returns_all_when_top_k_exceeds_count() {
    let scores: Vec<u64> = vec![3, 7];
    assert_eq!(rank_by_score(&scores, 10), vec![1, 0]);
    assert_eq!(rank_by_score(&Vec::new(), 3), Vec::<usize>::new());
}

#[test]
fn similarity_ranks_aligned_vectors_first() {
    let mut doc = MadDocument::new("t", "a", 0);
    let a: Vec<f32> = vec![1.0, 0.0];
    let b: Vec<f32> = vec![1.0, 0.0];
    let c: Vec<f32> = vec![0.0, 1.0];
    for (id, v) in [("a", &a), ("b", &b), ("c", &c)] {
        let bits: Vec<u32> = v.iter().map(|x| x.to_bits()).collect();
        doc.add_vector_embedding(id, id, bits);
    }
    let query: Vec<f32> = vec![1.0, 0.0];
    let scores: Vec<u64> = doc
        .vectors()
        .iter()
        .map(|ve| {
            let comps: Vec<f32> = ve.embedding.iter().map(|bits| f32::from_bits(*bits)).collect();
            score_key(cosine(&query, &comps))
        })
        .collect();
    let ranked = rank_by_score(&scores, 3);
    // a and b score 1.0 and rank above c at 0.0; the tie goes to a
    assert_eq!(ranked, vec![0, 1, 2]);
    let top_one = rank_by_score(&scores, 1);
    assert_eq!(top_one, vec![0]);
    assert_eq!(doc.vectors()[top_one[0]].id, "a");
}

#[test]
fn mismatched_dimensions_score_zero() {
    let q: Vec<f32> = vec![1.0, 0.0];
    let other: Vec<f32> = vec![1.0, 0.0, 0.0];
    assert_eq!(cosine(&q, &other), 0.0);
    let zero: Vec<f32> = vec![0.0, 0.0];
    assert_eq!(cosine(&q, &zero), 0.0);
}

#[test]
fn decimal_rendering_is_exact() {
    assert_eq!(u64_to_dec(0), "0");
    assert_eq!(u64_to_dec(7), "7");
    assert_eq!(u64_to_dec(1234567890), "1234567890");
    assert_eq!(u64_to_dec(u64::MAX), "18446744073709551615");
}
