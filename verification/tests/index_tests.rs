use annflat::{AnnFlatError, Hit, Index, Matrix, Metric};

// Scoring lives with the caller of the index (the scores are floating
// point); these helpers score the way the front end does.

fn dot(a: &[f32], b: &[f32]) -> f32 {
    let mut s = 0.0_f32;
    for (x, y) in a.iter().zip(b.iter()) {
        s += x * y;
    }
    s
}

fn neg_l2(a: &[f32], b: &[f32]) -> f32 {
    let mut s = 0.0_f32;
    for (x, y) in a.iter().zip(b.iter()) {
        let d = x - y;
        s += d * d;
    }
    -s.sqrt()
}

fn normalize(v: &mut [f32]) {
    let mut sq = 0.0_f32;
    for &x in v.iter() {
        sq += x * x;
    }
    let n = sq.sqrt();
    if n > 1e-12 {
        for x in v.iter_mut() {
            *x /= n;
        }
    } else {
        for x in v.iter_mut() {
            *x = 0.0;
        }
    }
}

fn put(idx: &mut Index<f32>, id: &str, v: &[f32]) -> Result<(), AnnFlatError> {
    let mut v = v.to_vec();
    if idx.metric() == Metric::Cosine {
        normalize(&mut v);
    }
    idx.add(id.to_string(), &v)
}

fn scores_for(idx: &Index<f32>, query: &[f32]) -> Vec<u32> {
    let mut q = query.to_vec();
    if idx.metric() == Metric::Cosine {
        normalize(&mut q);
    }
    (0..idx.len())
        .map(|i| {
            let row = idx.row(i);
            let s = match idx.metric() {
                Metric::Cosine | Metric::Dot => dot(&q, row),
                Metric::L2 => neg_l2(&q, row),
            };
            s.to_bits()
        })
        .collect()
}

fn find(idx: &Index<f32>, query: &[f32], k: usize) -> Result<Vec<Hit>, AnnFlatError> {
    let scores = scores_for(idx, query);
    idx.search(query, k, &scores)
}

fn score(h: &Hit) -> f32 {
    f32::from_bits(h.score_bits)
}

fn rows(cols: usize, rows: &[&[f32]]) -> Matrix<f32> {
    Matrix::from_rows(cols, rows.iter().map(|r| r.to_vec()).collect()).unwrap()
}

#[test]
fn empty_search_rejected() {
    let idx: Index<f32> = Index::new(Metric::Cosine);
    assert!(find(&idx, &[1.0, 2.0], 1).is_err());
}

#[test]
fn cosine_search_finds_self() {
    let mut idx = Index::new(Metric::Cosine);
    put(&mut idx, "a", &[1.0, 0.0]).unwrap();
    put(&mut idx, "b", &[0.0, 1.0]).unwrap();
    put(&mut idx, "c", &[0.6, 0.8]).unwrap();
    let hits = find(&idx, &[1.0, 0.0], 3).unwrap();
    assert_eq!(hits[0].id, "a");
    assert!((score(&hits[0]) - 1.0).abs() < 1e-4);
}

#[test]
fn l2_search_smaller_distance_first() {
    let mut idx = Index::new(Metric::L2);
    put(&mut idx, "near", &[1.0, 1.0]).unwrap();
    put(&mut idx, "far", &[10.0, 10.0]).unwrap();
    let hits = find(&idx, &[1.0, 1.1], 2).unwrap();
    assert_eq!(hits[0].id, "near");
    // Score is -distance, so near is closer to 0.
    assert!(score(&hits[0]) > score(&hits[1]));
}

#[test]
fn dot_search() {
    let mut idx = Index::new(Metric::Dot);
    put(&mut idx, "a", &[1.0, 1.0]).unwrap();
    put(&mut idx, "b", &[2.0, 2.0]).unwrap();
    let hits = find(&idx, &[1.0, 1.0], 2).unwrap();
    // b . q = 4, a . q = 2.
    assert_eq!(hits[0].id, "b");
    assert!((score(&hits[0]) - 4.0).abs() < 1e-6);
}

#[test]
fn dim_mismatch_on_add() {
    let mut idx = Index::new(Metric::Cosine);
    put(&mut idx, "a", &[1.0, 0.0]).unwrap();
    assert!(put(&mut idx, "b", &[1.0]).is_err());
}

#[test]
fn dim_mismatch_on_search() {
    let mut idx = Index::new(Metric::Cosine);
    put(&mut idx, "a", &[1.0, 0.0]).unwrap();
    assert!(find(&idx, &[1.0], 1).is_err());
}

#[test]
fn k_zero_rejected() {
    let mut idx = Index::new(Metric::Cosine);
    put(&mut idx, "a", &[1.0, 0.0]).unwrap();
    assert!(matches!(find(&idx, &[1.0, 0.0], 0), Err(AnnFlatError::KZero)));
}

#[test]
fn k_too_large_rejected() {
    let mut idx = Index::new(Metric::Cosine);
    put(&mut idx, "a", &[1.0, 0.0]).unwrap();
    assert!(matches!(find(&idx, &[1.0, 0.0], 5), Err(AnnFlatError::KTooLarge { .. })));
}

#[test]
fn add_batch_works() {
    let mut idx: Index<f32> = Index::new(Metric::Cosine);
    let m = rows(2, &[&[1.0_f32, 0.0], &[0.0, 1.0], &[0.5, 0.5]]);
    idx.add_batch(vec!["a".to_string(), "b".to_string(), "c".to_string()], &m).unwrap();
    assert_eq!(idx.len(), 3);
}

#[test]
fn add_batch_length_mismatch() {
    let mut idx: Index<f32> = Index::new(Metric::Cosine);
    let m = rows(2, &[&[1.0_f32, 0.0], &[0.0, 1.0]]);
    let r = idx.add_batch(vec!["a".to_string()], &m);
    assert!(matches!(r, Err(AnnFlatError::BatchLengthMismatch { .. })));
}

#[test]
fn search_batch_serial_and_parallel_match() {
    let mut idx = Index::new(Metric::Cosine);
    for i in 0..50 {
        put(&mut idx, &format!("d{i}"), &[i as f32, 1.0, 2.0]).unwrap();
    }
    let q = rows(3, &[&[1.0_f32, 1.0, 2.0], &[25.0, 1.0, 2.0]]);
    let scores: Vec<Vec<u32>> = (0..q.nrows()).map(|i| scores_for(&idx, q.row(i))).collect();
    let s = idx.search_batch(&q, 5, &scores).unwrap();
    let p: Vec<Vec<Hit>> = (0..q.nrows()).map(|i| find(&idx, q.row(i), 5).unwrap()).collect();
    let ids = |v: &Vec<Vec<Hit>>| -> Vec<Vec<(String, u32)>> {
        v.iter().map(|hs| hs.iter().map(|h| (h.id.clone(), h.score_bits)).collect()).collect()
    };
    assert_eq!(ids(&s), ids(&p));
    assert_eq!(s.len(), 2);
    assert_eq!(s[0].len(), 5);
}

#[test]
fn metric_get() {
    let idx: Index<f32> = Index::new(Metric::L2);
    assert_eq!(idx.metric(), Metric::L2);
}

#[test]
fn empty_index_dim_is_none() {
    let idx: Index<f32> = Index::new(Metric::Cosine);
    assert!(idx.dim().is_none());
    assert!(idx.is_empty());
}

#[test]
fn cosine_normalizes_at_insert() {
    let mut idx = Index::new(Metric::Cosine);
    // Insert a non-unit vector. It is normalized before it is stored.
    put(&mut idx, "a", &[3.0, 4.0]).unwrap();
    // Search with [1, 0]; cosine is 3/5 = 0.6.
    let hits = find(&idx, &[1.0, 0.0], 1).unwrap();
    assert!((score(&hits[0]) - 0.6).abs() < 1e-4);
}
