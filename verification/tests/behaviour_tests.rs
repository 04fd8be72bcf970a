use annflat::{score_key, AnnFlatError, Hit, Index, Matrix, Metric};

fn bits(xs: &[f32]) -> Vec<u32> {
    xs.iter().map(|x| x.to_bits()).collect()
}

fn index_of(metric: Metric, entries: &[(&str, &[f32])]) -> Index<f32> {
    let mut idx = Index::new(metric);
    for (id, v) in entries {
        idx.add(id.to_string(), v).unwrap();
    }
    idx
}

fn ids(hits: &[Hit]) -> Vec<&str> {
    hits.iter().map(|h| h.id.as_str()).collect()
}

#[test]
fn add_fixes_dimension_and_appends() {
    let mut idx: Index<f32> = Index::new(Metric::Dot);
    assert_eq!(idx.dim(), None);
    idx.add("a".to_string(), &[1.0, 2.0, 3.0]).unwrap();
    assert_eq!(idx.dim(), Some(3));
    idx.add("b".to_string(), &[4.0, 5.0, 6.0]).unwrap();
    assert_eq!(idx.len(), 2);
    assert_eq!(idx.id(1), "b");
    assert_eq!(idx.row(1), &[4.0, 5.0, 6.0]);
}

#[test]
fn add_refused_leaves_index_unchanged() {
    let mut idx = index_of(Metric::Dot, &[("a", &[1.0, 2.0])]);
    let r = idx.add("b".to_string(), &[1.0, 2.0, 3.0]);
    assert_eq!(r, Err(AnnFlatError::DimMismatch { expected: 2, got: 3 }));
    assert_eq!(idx.len(), 1);
    assert_eq!(idx.dim(), Some(2));
}

#[test]
fn search_errors_in_order() {
    let idx = index_of(Metric::Dot, &[("a", &[1.0, 0.0]), ("b", &[0.0, 1.0])]);
    let s = bits(&[1.0, 2.0]);
    assert_eq!(idx.search(&[1.0], 0, &s).unwrap_err(), AnnFlatError::KZero);
    assert_eq!(idx.search(&[1.0], 3, &s).unwrap_err(), AnnFlatError::KTooLarge { k: 3, n: 2 });
    assert_eq!(idx.search(&[1.0], 2, &s).unwrap_err(), AnnFlatError::DimMismatch { expected: 2, got: 1 });
    let empty: Index<f32> = Index::new(Metric::Dot);
    assert_eq!(empty.search(&[1.0], 1, &[]).unwrap_err(), AnnFlatError::KTooLarge { k: 1, n: 0 });
}

#[test]
fn search_reports_best_first_ties_by_id() {
    let idx = index_of(
        Metric::Dot,
        &[("zeta", &[0.0]), ("beta", &[0.0]), ("alpha", &[0.0]), ("gamma", &[0.0])],
    );
    let s = bits(&[5.0, 7.0, 5.0, 1.0]);
    let hits = idx.search(&[0.0], 3, &s).unwrap();
    assert_eq!(ids(&hits), vec!["beta", "alpha", "zeta"]);
    assert_eq!(f32::from_bits(hits[0].score_bits), 7.0);
}

#[test]
fn equal_scores_keep_the_earlier_entry() {
    let idx = index_of(Metric::Dot, &[("b", &[0.0]), ("a", &[0.0]), ("c", &[0.0])]);
    let s = bits(&[2.0, 2.0, 2.0]);
    let hits = idx.search(&[0.0], 2, &s).unwrap();
    // The first two entries are kept, then listed by id.
    assert_eq!(ids(&hits), vec!["a", "b"]);
}

#[test]
fn zeros_of_both_signs_tie() {
    let idx = index_of(Metric::Dot, &[("b", &[0.0]), ("a", &[0.0])]);
    let s = bits(&[0.0, -0.0]);
    let hits = idx.search(&[0.0], 2, &s).unwrap();
    assert_eq!(ids(&hits), vec!["a", "b"]);
}

#[test]
fn negative_and_infinite_scores_order() {
    let idx = index_of(
        Metric::L2,
        &[("a", &[0.0]), ("b", &[0.0]), ("c", &[0.0]), ("d", &[0.0]), ("e", &[0.0])],
    );
    let s = bits(&[-1.5, f32::NEG_INFINITY, -0.25, 3.0e-45, f32::INFINITY]);
    let hits = idx.search(&[0.0], 5, &s).unwrap();
    assert_eq!(ids(&hits), vec!["e", "d", "c", "a", "b"]);
}

#[test]
fn ids_order_bytewise() {
    let idx = index_of(Metric::Dot, &[("é", &[0.0]), ("z", &[0.0]), ("Z", &[0.0]), ("zz", &[0.0])]);
    let s = bits(&[1.0, 1.0, 1.0, 1.0]);
    let hits = idx.search(&[0.0], 4, &s).unwrap();
    assert_eq!(ids(&hits), vec!["Z", "z", "zz", "é"]);
}

#[test]
fn score_key_orders_like_floats() {
    let xs = [f32::NEG_INFINITY, -3.5, -1.0e-40, -0.0, 0.0, 1.0e-45, 2.0, f32::MAX, f32::INFINITY];
    for a in xs {
        for b in xs {
            assert_eq!(score_key(a.to_bits()) < score_key(b.to_bits()), a < b, "{a} {b}");
            assert_eq!(score_key(a.to_bits()) == score_key(b.to_bits()), a == b, "{a} {b}");
        }
    }
    assert_eq!(score_key(0.0_f32.to_bits()), 0x8000_0000);
    assert_eq!(score_key(1.0_f32.to_bits()), 0x8000_0000 + 0x3F80_0000);
    assert_eq!(score_key((-1.0_f32).to_bits()), 0x8000_0000 - 0x3F80_0000);
}

#[test]
fn more_hits_keep_earlier_hits() {
    let idx = index_of(Metric::Dot, &[("a", &[0.0]), ("b", &[0.0]), ("c", &[0.0]), ("d", &[0.0])]);
    let s = bits(&[3.0, 9.0, 4.0, 1.0]);
    let one = idx.search(&[0.0], 1, &s).unwrap();
    let three = idx.search(&[0.0], 3, &s).unwrap();
    let all = idx.search(&[0.0], 4, &s).unwrap();
    assert_eq!(ids(&one), vec!["b"]);
    assert_eq!(ids(&three), vec!["b", "c", "a"]);
    assert_eq!(ids(&all), vec!["b", "c", "a", "d"]);
}

#[test]
fn remove_swaps_in_last_entry() {
    let mut idx = index_of(Metric::Dot, &[("a", &[1.0]), ("b", &[2.0]), ("a", &[3.0]), ("c", &[4.0])]);
    assert!(idx.remove("a"));
    assert_eq!(idx.len(), 3);
    assert_eq!(idx.id(0), "c");
    assert_eq!(idx.row(0), &[4.0]);
    assert_eq!(idx.id(2), "a");
    assert_eq!(idx.row(2), &[3.0]);
    assert!(!idx.remove("x"));
    assert_eq!(idx.len(), 3);
}

#[test]
fn remove_keeps_dimension() {
    let mut idx = index_of(Metric::Dot, &[("a", &[1.0, 2.0])]);
    assert!(idx.remove("a"));
    assert!(idx.is_empty());
    assert_eq!(idx.dim(), Some(2));
    assert!(idx.add("b".to_string(), &[1.0]).is_err());
    let m = idx.vectors().unwrap();
    assert_eq!((m.nrows(), m.ncols()), (0, 2));
}

#[test]
fn remove_undoes_add() {
    let mut idx = index_of(Metric::Dot, &[("a", &[1.0]), ("b", &[2.0])]);
    idx.add("fresh".to_string(), &[9.0]).unwrap();
    assert!(idx.remove("fresh"));
    assert_eq!(idx.len(), 2);
    assert_eq!((idx.id(0), idx.id(1)), ("a", "b"));
    assert_eq!((idx.row(0), idx.row(1)), (&[1.0_f32][..], &[2.0_f32][..]));
}

#[test]
fn vectors_snapshot() {
    let idx = index_of(Metric::Dot, &[("a", &[1.0, 2.0]), ("b", &[3.0, 4.0])]);
    let m = idx.vectors().unwrap();
    assert_eq!((m.nrows(), m.ncols()), (2, 2));
    assert_eq!(m.row(1), &[3.0, 4.0]);
    let empty: Index<f32> = Index::new(Metric::Dot);
    let m = empty.vectors().unwrap();
    assert_eq!((m.nrows(), m.ncols()), (0, 0));
}

#[test]
fn add_batch_equals_adding_in_turn() {
    let m = Matrix::from_rows(2, vec![vec![1.0_f32, 2.0], vec![3.0, 4.0]]).unwrap();
    let mut batch = index_of(Metric::Dot, &[("x", &[0.0, 0.0])]);
    batch.add_batch(vec!["a".to_string(), "b".to_string()], &m).unwrap();
    let single = index_of(Metric::Dot, &[("x", &[0.0, 0.0]), ("a", &[1.0, 2.0]), ("b", &[3.0, 4.0])]);
    assert_eq!(batch.len(), single.len());
    for i in 0..batch.len() {
        assert_eq!(batch.id(i), single.id(i));
        assert_eq!(batch.row(i), single.row(i));
    }
}

#[test]
fn add_batch_wrong_width_unchanged() {
    let m = Matrix::from_rows(3, vec![vec![1.0_f32, 2.0, 3.0]]).unwrap();
    let mut idx = index_of(Metric::Dot, &[("x", &[0.0, 0.0])]);
    let r = idx.add_batch(vec!["a".to_string()], &m);
    assert_eq!(r, Err(AnnFlatError::DimMismatch { expected: 2, got: 3 }));
    assert_eq!(idx.len(), 1);
    let r = idx.add_batch(vec![], &m);
    assert_eq!(r, Err(AnnFlatError::BatchLengthMismatch { ids: 0, rows: 1 }));
}

#[test]
fn add_batch_of_no_rows_keeps_dimension_unset() {
    let m: Matrix<f32> = Matrix::from_rows(4, vec![]).unwrap();
    let mut idx: Index<f32> = Index::new(Metric::Dot);
    idx.add_batch(vec![], &m).unwrap();
    assert_eq!(idx.dim(), None);
}

#[test]
fn matrix_rejects_ragged_rows() {
    assert!(Matrix::from_rows(2, vec![vec![1.0_f32, 2.0], vec![3.0]]).is_none());
}

#[test]
fn search_batch_errors_and_empty() {
    let idx = index_of(Metric::Dot, &[("a", &[1.0, 0.0])]);
    let q = Matrix::from_rows(2, vec![vec![1.0_f32, 0.0], vec![0.0, 1.0]]).unwrap();
    let s = vec![bits(&[1.0]), bits(&[0.0])];
    assert_eq!(idx.search_batch(&q, 0, &s).unwrap_err(), AnnFlatError::KZero);
    let none: Matrix<f32> = Matrix::from_rows(2, vec![]).unwrap();
    assert_eq!(idx.search_batch(&none, 0, &vec![]).unwrap().len(), 0);
}

#[test]
fn snapshot_round_trip() {
    let idx = index_of(Metric::L2, &[("a", &[1.0, 2.0]), ("b", &[3.0, 4.0])]);
    let (metric, dim, ids, rows) = idx.parts();
    assert_eq!(ids, vec!["a".to_string(), "b".to_string()]);
    let back = Index::from_parts(metric, dim, ids, rows).unwrap();
    assert_eq!(back.metric(), Metric::L2);
    assert_eq!(back.dim(), Some(2));
    assert_eq!(back.id(1), "b");
    assert_eq!(back.row(1), &[3.0, 4.0]);
}

#[test]
fn from_parts_rejects_inconsistent_parts() {
    let r: Option<Index<f32>> = Index::from_parts(Metric::Dot, Some(2), vec!["a".to_string()], vec![vec![1.0]]);
    assert!(r.is_none());
    let r: Option<Index<f32>> = Index::from_parts(Metric::Dot, None, vec!["a".to_string()], vec![vec![1.0]]);
    assert!(r.is_none());
    let r: Option<Index<f32>> = Index::from_parts(Metric::Dot, Some(1), vec![], vec![vec![1.0]]);
    assert!(r.is_none());
    let r: Option<Index<f32>> = Index::from_parts(Metric::Dot, Some(7), vec![], vec![]);
    assert_eq!(r.unwrap().dim(), Some(7));
}

#[test]
fn metric_names_round_trip() {
    for m in [Metric::Cosine, Metric::L2, Metric::Dot] {
        assert_eq!(Metric::from_name(m.name()), Some(m));
    }
    assert_eq!(Metric::L2.name(), "l2");
    assert_eq!(Metric::from_name("euclid"), None);
    assert_eq!(Metric::from_name("Cosine"), None);
}

#[test]
fn nan_score_never_displaces_a_number() {
    let idx = index_of(Metric::Dot, &[("a", &[0.0]), ("b", &[0.0])]);
    let s = bits(&[1.0, f32::NAN]);
    let hits = idx.search(&[0.0], 1, &s).unwrap();
    assert_eq!(ids(&hits), vec!["a"]);
}

#[test]
fn nan_score_is_never_displaced() {
    let idx = index_of(Metric::Dot, &[("a", &[0.0]), ("b", &[0.0])]);
    let s = bits(&[f32::NAN, -1.0]);
    let hits = idx.search(&[0.0], 1, &s).unwrap();
    assert_eq!(ids(&hits), vec!["a"]);
    let idx = index_of(Metric::Dot, &[("a", &[0.0]), ("b", &[0.0]), ("c", &[0.0])]);
    let s = bits(&[1.0, f32::NAN, 5.0]);
    let hits = idx.search(&[0.0], 2, &s).unwrap();
    assert_eq!(ids(&hits), vec!["b", "c"]);
}

#[test]
fn nan_scores_tie_with_every_score() {
    let idx = index_of(Metric::Dot, &[("c", &[0.0]), ("a", &[0.0]), ("b", &[0.0])]);
    let s = bits(&[f32::NAN, -f32::NAN, f32::NEG_INFINITY]);
    let hits = idx.search(&[0.0], 3, &s).unwrap();
    assert_eq!(ids(&hits), vec!["a", "b", "c"]);
    assert_eq!(score_key(f32::NAN.to_bits()), 0);
    assert!(score_key(f32::NEG_INFINITY.to_bits()) > 0);
}

#[test]
fn vectors_of_emptied_index_keep_width() {
    let mut idx = index_of(Metric::Dot, &[("a", &[1.0, 2.0, 3.0]), ("b", &[4.0, 5.0, 6.0])]);
    assert!(idx.remove("b"));
    assert!(idx.remove("a"));
    let m = idx.vectors().unwrap();
    assert_eq!((m.nrows(), m.ncols()), (0, 3));
}
