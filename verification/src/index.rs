use vstd::prelude::*;
use crate::error::AnnFlatError;
use crate::matrix::{Matrix, MatrixView, row_views};
use crate::metric::Metric;
use crate::rank::{
    id_views, in_hit_order, is_top_k, law_hit_order_unique, law_top_k_nested, law_top_k_unique,
    outranks, rank_top_k, ranks_before,
};
use crate::score_key::{is_nan_bits, law_order_key_matches_value, lemma_number_keys, order_key, scaled_value, score_key};
use crate::rank::{lemma_hit_order_pairwise, unscored};
use crate::sort::all_below;

verus! {

/// What an index holds: its metric, the dimension fixed by the first insert,
/// and its entries in insertion order (`ids[i]` names `rows[i]`).
pub struct IndexView<T> {
    pub metric: Metric,
    pub dim: Option<usize>,
    pub ids: Seq<Seq<char>>,
    pub rows: Seq<Seq<T>>,
}

impl<T> IndexView<T> {
    /// Every entry has an id and a row; no rows before the dimension is
    /// fixed; every row has the index's dimension.
    pub open spec fn valid(self) -> bool {
        &&& self.ids.len() == self.rows.len()
        &&& self.dim is None ==> self.rows.len() == 0
        &&& forall|i: int|
            0 <= i < self.rows.len() ==> #[trigger] self.rows[i].len() == self.dim->0
    }

    /// Number of entries.
    pub open spec fn len(self) -> nat {
        self.ids.len()
    }

    /// The error that inserting a vector of length `got` runs into, if any.
    pub open spec fn add_error(self, got: nat) -> Option<AnnFlatError> {
        match self.dim {
            Some(d) => if d != got {
                Some(AnnFlatError::DimMismatch { expected: d, got: got as usize })
            } else {
                None
            },
            None => None,
        }
    }

    /// The index after a successful insert of `row` under `id`.
    pub open spec fn added(self, id: Seq<char>, row: Seq<T>) -> IndexView<T> {
        IndexView {
            metric: self.metric,
            dim: Some(row.len() as usize),
            ids: self.ids.push(id),
            rows: self.rows.push(row),
        }
    }

    /// The error that a batch insert of `n_ids` ids and the rows of `m`
    /// runs into, if any.
    pub open spec fn add_batch_error(self, n_ids: nat, m: MatrixView<T>) -> Option<AnnFlatError> {
        if n_ids != m.rows.len() {
            Some(AnnFlatError::BatchLengthMismatch { ids: n_ids as usize, rows: m.rows.len() as usize })
        } else if m.rows.len() > 0 {
            self.add_error(m.cols as nat)
        } else {
            None
        }
    }

    /// The index after a successful batch insert: the entries appended in
    /// order, and the dimension fixed when at least one row came.
    pub open spec fn batch_added(self, ids: Seq<Seq<char>>, m: MatrixView<T>) -> IndexView<T> {
        IndexView {
            metric: self.metric,
            dim: if m.rows.len() > 0 { Some(m.cols) } else { self.dim },
            ids: self.ids + ids,
            rows: self.rows + m.rows,
        }
    }

    /// The error that a top-`k` query with a vector of length `got` runs
    /// into, if any. The checks come in this order.
    pub open spec fn search_error(self, got: nat, k: nat) -> Option<AnnFlatError> {
        if k == 0 {
            Some(AnnFlatError::KZero)
        } else if k > self.len() {
            Some(AnnFlatError::KTooLarge { k: k as usize, n: self.len() as usize })
        } else {
            match self.dim {
                Some(d) => if d != got {
                    Some(AnnFlatError::DimMismatch { expected: d, got: got as usize })
                } else {
                    None
                },
                None => Some(AnnFlatError::KTooLarge { k: k as usize, n: 0 }),
            }
        }
    }

    /// `hits` answers a top-`k` query whose scores are `scores`: they report
    /// the `k` best entries (see [`is_top_k`]) in hit order (see
    /// [`in_hit_order`]).
    pub open spec fn answers(self, k: nat, scores: Seq<u32>, hits: Seq<Hit>) -> bool {
        exists|pos: Seq<usize>|
            #![trigger is_top_k(score_keys(scores), pos, k as int)]
            {
                &&& is_top_k(score_keys(scores), pos, k as int)
                &&& in_hit_order(score_keys(scores), self.ids, pos)
                &&& hits_at(hits, pos, self.ids, scores)
            }
    }

    /// `i` is the first position whose id is `id`.
    pub open spec fn is_first_match(self, id: Seq<char>, i: int) -> bool {
        &&& 0 <= i < self.ids.len()
        &&& self.ids[i] == id
        &&& forall|j: int| 0 <= j < i ==> self.ids[j] != id
    }

    /// The first position whose id is `id` (meaningful when there is one).
    pub open spec fn first_match(self, id: Seq<char>) -> int {
        choose|i: int| self.is_first_match(id, i)
    }

    /// The index after `u` is asked of it: the change when it succeeds,
    /// the same index when it is refused (or, for a removal, when no entry
    /// has the id).
    pub open spec fn apply(self, u: Update<T>) -> IndexView<T> {
        match u {
            Update::Add(id, row) => if self.add_error(row.len()) is None {
                self.added(id, row)
            } else {
                self
            },
            Update::Batch(ids, m) => if self.add_batch_error(ids.len(), m) is None {
                self.batch_added(ids, m)
            } else {
                self
            },
            Update::Remove(id) => if self.ids.contains(id) {
                self.swap_removed(self.first_match(id))
            } else {
                self
            },
        }
    }

    /// How many entries `u` inserts.
    pub open spec fn inserted(self, u: Update<T>) -> nat {
        match u {
            Update::Add(id, row) => if self.add_error(row.len()) is None { 1 } else { 0 },
            Update::Batch(ids, m) => if self.add_batch_error(ids.len(), m) is None { ids.len() } else { 0 },
            Update::Remove(id) => 0,
        }
    }

    /// How many entries `u` removes.
    pub open spec fn removed(self, u: Update<T>) -> nat {
        match u {
            Update::Remove(id) => if self.ids.contains(id) { 1 } else { 0 },
            _ => 0,
        }
    }

    /// The index after entry `i` is removed by moving the last entry into
    /// its place. Metric and dimension are kept.
    pub open spec fn swap_removed(self, i: int) -> IndexView<T> {
        IndexView {
            metric: self.metric,
            dim: self.dim,
            ids: self.ids.update(i, self.ids.last()).drop_last(),
            rows: self.rows.update(i, self.rows.last()).drop_last(),
        }
    }
}

/// A change asked of an index: one insert, a batch insert, or a removal.
pub enum Update<T> {
    Add(Seq<char>, Seq<T>),
    Batch(Seq<Seq<char>>, MatrixView<T>),
    Remove(Seq<char>),
}

impl<T> Update<T> {
    /// The update could be asked through the index's functions: an inserted
    /// vector's length fits a `usize`, a batch's matrix is valid.
    pub open spec fn well_formed(self) -> bool {
        match self {
            Update::Add(id, row) => row.len() <= usize::MAX,
            Update::Batch(ids, m) => m.valid(),
            Update::Remove(id) => true,
        }
    }
}

/// The index after the updates `us`, in order.
pub open spec fn apply_all<T>(v: IndexView<T>, us: Seq<Update<T>>) -> IndexView<T>
    decreases us.len(),
{
    if us.len() == 0 {
        v
    } else {
        apply_all(v.apply(us[0]), us.drop_first())
    }
}

/// How many entries the updates `us` insert, in order, starting from `v`.
pub open spec fn inserted_by<T>(v: IndexView<T>, us: Seq<Update<T>>) -> nat
    decreases us.len(),
{
    if us.len() == 0 {
        0
    } else {
        v.inserted(us[0]) + inserted_by(v.apply(us[0]), us.drop_first())
    }
}

/// How many entries the updates `us` remove, in order, starting from `v`.
pub open spec fn removed_by<T>(v: IndexView<T>, us: Seq<Update<T>>) -> nat
    decreases us.len(),
{
    if us.len() == 0 {
        0
    } else {
        v.removed(us[0]) + removed_by(v.apply(us[0]), us.drop_first())
    }
}

/// The index that a snapshot's parts describe.
pub open spec fn parts_view<T>(metric: Metric, dim: Option<usize>, ids: Seq<String>, vectors: Seq<Vec<T>>) -> IndexView<T> {
    IndexView { metric, dim, ids: id_views(ids), rows: row_views(vectors) }
}

/// What rebuilding from a snapshot's parts gives: the index they describe,
/// or nothing when they do not describe a valid index.
pub open spec fn rebuilt<T>(metric: Metric, dim: Option<usize>, ids: Seq<String>, vectors: Seq<Vec<T>>) -> Option<IndexView<T>> {
    if parts_view(metric, dim, ids, vectors).valid() {
        Some(parts_view(metric, dim, ids, vectors))
    } else {
        None
    }
}

/// One match of a query.
#[derive(Debug)]
pub struct Hit {
    /// Document id.
    pub id: String,
    /// Bit pattern of the score (`f32::to_bits`); higher scores are better.
    pub score_bits: u32,
}

/// The order keys of a sequence of score bit patterns.
pub open spec fn score_keys(scores: Seq<u32>) -> Seq<u32> {
    scores.map_values(|b: u32| order_key(b))
}

/// `hits[j]` reports entry `pos[j]`: its id and its score.
pub open spec fn hits_at(hits: Seq<Hit>, pos: Seq<usize>, ids: Seq<Seq<char>>, scores: Seq<u32>) -> bool {
    &&& hits.len() == pos.len()
    &&& forall|j: int|
        #![trigger hits[j]]
        0 <= j < hits.len() ==> hits[j].id@ == ids[pos[j] as int] && hits[j].score_bits == scores[pos[j] as int]
}

/// The order key of every score.
fn keys_of(scores: &[u32]) -> (keys: Vec<u32>)
    ensures
        keys@ == score_keys(scores@),
{
    let mut keys: Vec<u32> = Vec::new();
    let mut i: usize = 0;
    while i < scores.len()
        invariant
            i <= scores@.len(),
            keys@ == score_keys(scores@.take(i as int)),
        decreases scores@.len() - i,
    {
        let ghost prev = keys@;
        keys.push(score_key(scores[i]));
        i = i + 1;
        assert(score_keys(scores@.take(i as int)) =~= prev.push(order_key(scores@[i - 1])));
    }
    assert(scores@.take(scores@.len() as int) == scores@);
    keys
}

/// In-memory flat index: every entry is kept and every query ranks them all.
pub struct Index<T> {
    metric: Metric,
    dim: Option<usize>,
    ids: Vec<String>,
    vectors: Vec<Vec<T>>,
}

impl<T> View for Index<T> {
    type V = IndexView<T>;

    closed spec fn view(&self) -> IndexView<T> {
        IndexView {
            metric: self.metric,
            dim: self.dim,
            ids: id_views(self.ids@),
            rows: row_views(self.vectors@),
        }
    }
}

/// A copy of `v`.
fn copy_row<T: Copy>(v: &[T]) -> (r: Vec<T>)
    ensures
        r@ == v@,
{
    let mut r: Vec<T> = Vec::new();
    let mut i: usize = 0;
    while i < v.len()
        invariant
            i <= v@.len(),
            r@ == v@.take(i as int),
        decreases v@.len() - i,
    {
        r.push(v[i]);
        i = i + 1;
        assert(r@ == v@.take(i as int));
    }
    assert(v@.take(v@.len() as int) == v@);
    r
}

impl<T> Index<T> {
    /// Every index is valid: ids and rows pair up, and every row has the
    /// index's dimension.
    #[verifier::type_invariant]
    spec fn well_formed(self) -> bool {
        self@.valid()
    }

    /// An empty index with the given metric.
    pub fn new(metric: Metric) -> (idx: Self)
        ensures
            idx@ == (IndexView::<T> { metric, dim: None, ids: Seq::empty(), rows: Seq::empty() }),
            idx@.valid(),
    {
        let idx = Index { metric, dim: None, ids: Vec::new(), vectors: Vec::new() };
        assert(idx@.ids == Seq::<Seq<char>>::empty());
        assert(idx@.rows == Seq::<Seq<T>>::empty());
        idx
    }

    /// Active metric.
    pub fn metric(&self) -> (m: Metric)
        ensures
            m == self@.metric,
    {
        self.metric
    }

    /// Number of indexed vectors.
    pub fn len(&self) -> (n: usize)
        ensures
            n == self@.len(),
            self@.valid(),
    {
        proof {
            use_type_invariant(self);
        }
        self.ids.len()
    }

    /// True iff no vectors are indexed.
    pub fn is_empty(&self) -> (b: bool)
        ensures
            b == (self@.len() == 0),
    {
        self.ids.is_empty()
    }

    /// Dimension of stored vectors, set on first insert.
    pub fn dim(&self) -> (d: Option<usize>)
        ensures
            d == self@.dim,
    {
        self.dim
    }

    /// Id of entry `i`.
    pub fn id(&self, i: usize) -> (s: &str)
        requires
            i < self@.len(),
        ensures
            s@ == self@.ids[i as int],
    {
        self.ids[i].as_str()
    }

    /// Stored vector of entry `i`.
    pub fn row(&self, i: usize) -> (r: &[T])
        requires
            i < self@.len(),
        ensures
            r@ == self@.rows[i as int],
    {
        proof {
            use_type_invariant(self);
        }
        self.vectors[i].as_slice()
    }

    /// Inserts `vector` under `id`, stored as given. The first insert fixes
    /// the dimension; a vector of another length is refused and the index is
    /// left unchanged.
    pub fn add(&mut self, id: String, vector: &[T]) -> (r: Result<(), AnnFlatError>)
        where T: Copy,
        ensures
            final(self)@.valid(),
            match old(self)@.add_error(vector@.len()) {
                Some(e) => r == Err::<(), AnnFlatError>(e) && final(self)@ == old(self)@,
                None => r is Ok && final(self)@ == old(self)@.added(id@, vector@),
            },
            final(self)@ == old(self)@.apply(Update::Add(id@, vector@)),
    {
        proof {
            use_type_invariant(&*self);
        }
        let got = vector.len();
        let d = match self.dim {
            None => got,
            Some(d) => {
                if d != got {
                    return Err(AnnFlatError::DimMismatch { expected: d, got });
                }
                d
            },
        };
        let v = copy_row(vector);
        let ghost before = self@;
        let mut taken = Index::new(self.metric);
        std::mem::swap(&mut taken, self);
        proof {
            use_type_invariant(&taken);
        }
        let Index { metric, dim: _, mut ids, mut vectors } = taken;
        ids.push(id);
        vectors.push(v);
        proof {
            assert(id_views(ids@) =~= before.ids.push(id@));
            assert(row_views(vectors@) =~= before.rows.push(vector@));
        }
        *self = Index { metric, dim: Some(d), ids, vectors };
        Ok(())
    }

    /// Inserts row `i` of `matrix` under `ids[i]`, in order. Refused without
    /// change when the counts differ, or when the rows are not as wide as the
    /// vectors already stored.
    pub fn add_batch(&mut self, ids: Vec<String>, matrix: &Matrix<T>) -> (r: Result<(), AnnFlatError>)
        where T: Copy,
        requires
            matrix@.valid(),
        ensures
            final(self)@.valid(),
            match old(self)@.add_batch_error(ids@.len(), matrix@) {
                Some(e) => r == Err::<(), AnnFlatError>(e) && final(self)@ == old(self)@,
                None => r is Ok && final(self)@ == old(self)@.batch_added(id_views(ids@), matrix@),
            },
            final(self)@ == old(self)@.apply(Update::Batch(id_views(ids@), matrix@)),
    {
        proof {
            use_type_invariant(&*self);
        }
        if ids.len() != matrix.nrows() {
            return Err(AnnFlatError::BatchLengthMismatch { ids: ids.len(), rows: matrix.nrows() });
        }
        let ghost start = self@;
        let ghost idv = id_views(ids@);
        let n = matrix.nrows();
        let mut j: usize = 0;
        while j < n
            invariant
                n == matrix@.rows.len(),
                n == ids@.len(),
                idv == id_views(ids@),
                matrix@.valid(),
                start.valid(),
                start == old(self)@,
                j <= n,
                self@.valid(),
                j == 0 ==> self@ == start,
                j > 0 ==> self@ == (IndexView::<T> {
                    metric: start.metric,
                    dim: Some(matrix@.cols),
                    ids: start.ids + idv.take(j as int),
                    rows: start.rows + matrix@.rows.take(j as int),
                }),
                j > 0 ==> start.add_error(matrix@.cols as nat) is None,
            decreases n - j,
        {
            let row = matrix.row(j);
            let id = ids[j].clone();
            let ghost before = self@;
            assert(matrix@.rows[j as int].len() == matrix@.cols);
            let res = self.add(id, row);
            if res.is_err() {
                return res;
            }
            proof {
                assert(idv.take(j + 1) == idv.take(j as int).push(id@));
                assert(matrix@.rows.take(j + 1) == matrix@.rows.take(j as int).push(row@));
            }
            j = j + 1;
        }
        proof {
            assert(idv.take(n as int) == idv);
            assert(matrix@.rows.take(n as int) == matrix@.rows);
            if n == 0 {
                assert(start.ids + idv == start.ids);
                assert(start.rows + matrix@.rows == start.rows);
            }
        }
        Ok(())
    }

    /// Top-`k` query. `scores[i]` is the bit pattern (`f32::to_bits`) of
    /// entry `i`'s score against `query`; higher scores are better. Returns
    /// the `k` best entries (equal scores go to the earlier entry; a NaN
    /// score compares equal to every score, so a NaN-scored entry among the
    /// first `k` is kept and no later one enters), best first, equal scores
    /// by ascending id (see [`is_top_k`] and [`in_hit_order`]).
    pub fn search(&self, query: &[T], k: usize, scores: &[u32]) -> (r: Result<Vec<Hit>, AnnFlatError>)
        requires
            scores@.len() == self@.len(),
        ensures
            self@.valid(),
            match self@.search_error(query@.len(), k as nat) {
                Some(e) => r == Err::<Vec<Hit>, AnnFlatError>(e),
                None => r matches Ok(hits) && self@.answers(k as nat, scores@, hits@),
            },
    {
        proof {
            use_type_invariant(self);
        }
        if k == 0 {
            return Err(AnnFlatError::KZero);
        }
        if k > self.len() {
            return Err(AnnFlatError::KTooLarge { k, n: self.len() });
        }
        match self.dim {
            Some(d) => {
                if d != query.len() {
                    return Err(AnnFlatError::DimMismatch { expected: d, got: query.len() });
                }
            },
            None => {
                return Err(AnnFlatError::KTooLarge { k, n: 0 });
            },
        }
        let keys = keys_of(scores);
        let pos = rank_top_k(keys.as_slice(), &self.ids, k);
        let mut hits: Vec<Hit> = Vec::new();
        let mut j: usize = 0;
        while j < pos.len()
            invariant
                self@.valid(),
                scores@.len() == self@.len(),
                keys@ == score_keys(scores@),
                is_top_k(keys@, pos@, k as int),
                j <= pos@.len(),
                hits_at(hits@, pos@.take(j as int), self@.ids, scores@),
            decreases pos@.len() - j,
        {
            let p = pos[j];
            let hit = Hit { id: self.ids[p].clone(), score_bits: scores[p] };
            let ghost prev = hits@;
            hits.push(hit);
            proof {
                let pj = pos@.take(j + 1);
                assert(pj =~= pos@.take(j as int).push(p));
                assert forall|t: int| #![trigger hits@[t]] 0 <= t < hits@.len() implies hits@[t].id@ == self@.ids[pj[t] as int]
                    && hits@[t].score_bits == scores@[pj[t] as int] by {
                    if t < j {
                        assert(hits@[t] == prev[t]);
                    }
                }
            }
            j = j + 1;
        }
        assert(pos@.take(pos@.len() as int) == pos@);
        assert(in_hit_order(score_keys(scores@), self@.ids, pos@));
        Ok(hits)
    }

    /// Top-`k` query for every row of `queries`; `scores[i]` holds the score
    /// bit patterns of every entry against row `i`. All rows share one width,
    /// so either every query is refused with the same error or each row gets
    /// its answer. No rows: no queries, no error.
    pub fn search_batch(&self, queries: &Matrix<T>, k: usize, scores: &Vec<Vec<u32>>) -> (r: Result<Vec<Vec<Hit>>, AnnFlatError>)
        requires
            queries@.valid(),
            scores@.len() == queries@.rows.len(),
            forall|i: int| 0 <= i < scores@.len() ==> #[trigger] scores@[i]@.len() == self@.len(),
        ensures
            self@.valid(),
            queries@.rows.len() > 0 && self@.search_error(queries@.cols as nat, k as nat) is Some
                ==> r == Err::<Vec<Vec<Hit>>, AnnFlatError>(self@.search_error(queries@.cols as nat, k as nat)->0),
            queries@.rows.len() == 0 || self@.search_error(queries@.cols as nat, k as nat) is None ==> (
            r matches Ok(all) && all@.len() == queries@.rows.len() && forall|i: int|
                0 <= i < all@.len() ==> self@.answers(k as nat, scores@[i]@, #[trigger] all@[i]@)),
    {
        proof {
            use_type_invariant(self);
        }
        let n = queries.nrows();
        let mut all: Vec<Vec<Hit>> = Vec::new();
        let mut i: usize = 0;
        while i < n
            invariant
                self@.valid(),
                queries@.valid(),
                n == queries@.rows.len(),
                scores@.len() == n,
                forall|i: int| 0 <= i < scores@.len() ==> #[trigger] scores@[i]@.len() == self@.len(),
                i <= n,
                i > 0 ==> self@.search_error(queries@.cols as nat, k as nat) is None,
                all@.len() == i,
                forall|t: int| 0 <= t < i ==> self@.answers(k as nat, scores@[t]@, #[trigger] all@[t]@),
            decreases n - i,
        {
            let q = queries.row(i);
            assert(queries@.rows[i as int].len() == queries@.cols);
            assert(scores@[i as int]@.len() == self@.len());
            let res = self.search(q, k, scores[i].as_slice());
            match res {
                Err(e) => {
                    return Err(e);
                },
                Ok(hits) => {
                    all.push(hits);
                },
            }
            i = i + 1;
        }
        Ok(all)
    }

    /// Removes the first entry whose id is `id`, moving the last entry into
    /// its place. Returns whether one was found. The dimension is kept.
    pub fn remove(&mut self, id: &str) -> (found: bool)
        ensures
            final(self)@.valid(),
            found == old(self)@.ids.contains(id@),
            found ==> exists|i: int|
                old(self)@.is_first_match(id@, i) && final(self)@ == old(self)@.swap_removed(i),
            !found ==> final(self)@ == old(self)@,
            final(self)@ == old(self)@.apply(Update::Remove(id@)),
    {
        proof {
            use_type_invariant(&*self);
        }
        let target = id.to_owned();
        let ghost v = self@;
        let mut i: usize = 0;
        while i < self.ids.len()
            invariant
                v == self@,
                v == old(self)@,
                v.valid(),
                target@ == id@,
                i <= v.len(),
                forall|j: int| 0 <= j < i ==> v.ids[j] != id@,
            decreases v.len() - i,
        {
            if self.ids[i] == target {
                assert(v.ids[i as int] == id@);
                let mut taken = Index::new(self.metric);
                std::mem::swap(&mut taken, self);
                let Index { metric, dim, mut ids, mut vectors } = taken;
                ids.swap_remove(i);
                vectors.swap_remove(i);
                proof {
                    assert(v.is_first_match(id@, i as int));
                    assert(id_views(ids@) =~= v.swap_removed(i as int).ids);
                    assert(row_views(vectors@) =~= v.swap_removed(i as int).rows);
                    law_remove_shrinks_by_one(v, i as int);
                }
                *self = Index { metric, dim, ids, vectors };
                assert(self@ == v.swap_removed(i as int));
                proof {
                    let f = v.first_match(id@);
                    assert(v.is_first_match(id@, f));
                    if f < i {
                        assert(v.ids[f] != id@);
                    } else if f > i {
                        assert(v.ids[i as int] != id@);
                    }
                }
                return true;
            }
            i = i + 1;
        }
        false
    }

    /// A copy of the stored vectors as an `n x d` matrix, `d` the index's
    /// dimension (`0` while none is fixed).
    pub fn vectors(&self) -> (r: Result<Matrix<T>, AnnFlatError>)
        where T: Copy,
        ensures
            self@.valid(),
            r matches Ok(m) && m@ == (MatrixView {
                cols: match self@.dim {
                    Some(d) => d,
                    None => 0,
                },
                rows: self@.rows,
            }) && m@.valid(),
    {
        proof {
            use_type_invariant(self);
        }
        let n = self.len();
        let d = match self.dim {
            Some(d) => d,
            None => 0,
        };
        let mut out: Vec<Vec<T>> = Vec::new();
        let mut i: usize = 0;
        while i < n
            invariant
                n == self@.len(),
                self@.valid(),
                n > 0 ==> self@.dim == Some(d),
                i <= n,
                row_views(out@) == self@.rows.take(i as int),
            decreases n - i,
        {
            let row = copy_row(self.vectors[i].as_slice());
            let ghost prev = out@;
            out.push(row);
            proof {
                assert(row_views(out@) =~= row_views(prev).push(row@));
                assert(self@.rows.take(i + 1) =~= self@.rows.take(i as int).push(self@.rows[i as int]));
            }
            i = i + 1;
        }
        assert(self@.rows.take(n as int) == self@.rows);
        let m = Matrix::from_rows(d, out);
        Ok(m.unwrap())
    }

    /// Rebuilds an index from its parts (as a snapshot holds them), or `None`
    /// when they do not form a valid index.
    pub fn from_parts(metric: Metric, dim: Option<usize>, ids: Vec<String>, vectors: Vec<Vec<T>>) -> (r: Option<Index<T>>)
        ensures
            match r {
                Some(idx) => rebuilt(metric, dim, ids@, vectors@) == Some(idx@),
                None => rebuilt(metric, dim, ids@, vectors@) is None,
            },
    {
        let ghost v = IndexView { metric, dim, ids: id_views(ids@), rows: row_views(vectors@) };
        if ids.len() != vectors.len() {
            return None;
        }
        match dim {
            None => {
                if vectors.len() != 0 {
                    return None;
                }
            },
            Some(d) => {
                let mut i: usize = 0;
                while i < vectors.len()
                    invariant
                        v == (IndexView { metric, dim, ids: id_views(ids@), rows: row_views(vectors@) }),
                        dim == Some(d),
                        i <= vectors@.len(),
                        forall|j: int| 0 <= j < i ==> #[trigger] v.rows[j].len() == d,
                    decreases vectors@.len() - i,
                {
                    if vectors[i].len() != d {
                        assert(v.rows[i as int].len() != d);
                        return None;
                    }
                    i = i + 1;
                }
            },
        }
        Some(Index { metric, dim, ids, vectors })
    }

    /// The parts a snapshot holds: metric, dimension, ids and copies of the
    /// stored vectors, in entry order.
    pub fn parts(&self) -> (r: (Metric, Option<usize>, Vec<String>, Vec<Vec<T>>))
        where T: Copy,
        ensures
            self@.valid(),
            parts_view(r.0, r.1, r.2@, r.3@) == self@,
    {
        proof {
            use_type_invariant(self);
        }
        let n = self.ids.len();
        let mut ids: Vec<String> = Vec::new();
        let mut vectors: Vec<Vec<T>> = Vec::new();
        let mut i: usize = 0;
        while i < n
            invariant
                n == self@.len(),
                self@.valid(),
                i <= n,
                id_views(ids@) == self@.ids.take(i as int),
                row_views(vectors@) == self@.rows.take(i as int),
            decreases n - i,
        {
            let ghost (pi, pv) = (ids@, vectors@);
            ids.push(self.ids[i].clone());
            vectors.push(copy_row(self.vectors[i].as_slice()));
            proof {
                assert(id_views(ids@) =~= id_views(pi).push(self@.ids[i as int]));
                assert(row_views(vectors@) =~= row_views(pv).push(self@.rows[i as int]));
                assert(self@.ids.take(i + 1) =~= self@.ids.take(i as int).push(self@.ids[i as int]));
                assert(self@.rows.take(i + 1) =~= self@.rows.take(i as int).push(self@.rows[i as int]));
            }
            i = i + 1;
        }
        assert(self@.ids.take(n as int) == self@.ids);
        assert(self@.rows.take(n as int) == self@.rows);
        (self.metric, self.dim, ids, vectors)
    }
}

/// Inserting `rows[i]` under `ids[i]` one at a time, stopping at the first
/// refusal: the index reached, and the error that stopped it.
pub open spec fn add_each<T>(v: IndexView<T>, ids: Seq<Seq<char>>, rows: Seq<Seq<T>>) -> (IndexView<T>, Option<AnnFlatError>)
    decreases rows.len(),
{
    if rows.len() == 0 || ids.len() == 0 {
        (v, None)
    } else {
        match v.add_error(rows[0].len()) {
            Some(e) => (v, Some(e)),
            None => add_each(v.added(ids[0], rows[0]), ids.drop_first(), rows.drop_first()),
        }
    }
}

/// A batch insert is inserting the rows one at a time: when the counts
/// agree, `add_batch` reaches the same index and the same error as
/// [`add_each`] over the matrix's rows.
pub proof fn law_add_batch_is_sequential_add<T>(v: IndexView<T>, ids: Seq<Seq<char>>, m: MatrixView<T>)
    requires
        v.valid(),
        m.valid(),
        ids.len() == m.rows.len(),
    ensures
        add_each(v, ids, m.rows) == (match v.add_batch_error(ids.len(), m) {
            Some(e) => (v, Some(e)),
            None => (v.batch_added(ids, m), None::<AnnFlatError>),
        }),
    decreases m.rows.len(),
{
    if m.rows.len() > 0 {
        assert(m.rows[0].len() == m.cols);
        if v.add_error(m.cols as nat) is None {
            let v2 = v.added(ids[0], m.rows[0]);
            let m2 = MatrixView { cols: m.cols, rows: m.rows.drop_first() };
            assert forall|i: int| 0 <= i < m2.rows.len() implies #[trigger] m2.rows[i].len() == m2.cols by {
                assert(m2.rows[i] == m.rows[i + 1]);
            }
            assert forall|i: int| 0 <= i < v2.rows.len() implies #[trigger] v2.rows[i].len() == v2.dim->0 by {
                if i < v.rows.len() {
                    assert(v2.rows[i] == v.rows[i]);
                }
            }
            law_add_batch_is_sequential_add(v2, ids.drop_first(), m2);
            assert(v2.ids + ids.drop_first() =~= v.ids + ids);
            assert(v2.rows + m2.rows =~= v.rows + m.rows);
            if m2.rows.len() == 0 {
                assert(v2.ids =~= v.ids + ids);
                assert(v2.rows =~= v.rows + m.rows);
            }
        }
    } else {
        assert(v.ids + ids =~= v.ids);
        assert(v.rows + m.rows =~= v.rows);
    }
}

/// Removing the entry just inserted under a fresh id undoes the insert:
/// the entries are those from before, the metric is kept, and so is the
/// dimension once it had been fixed.
pub proof fn law_remove_undoes_add<T>(v: IndexView<T>, id: Seq<char>, row: Seq<T>, i: int)
    requires
        v.valid(),
        !v.ids.contains(id),
        v.add_error(row.len()) is None,
        v.added(id, row).is_first_match(id, i),
    ensures
        i == v.len(),
        v.added(id, row).swap_removed(i).ids == v.ids,
        v.added(id, row).swap_removed(i).rows == v.rows,
        v.added(id, row).swap_removed(i).metric == v.metric,
        v.dim is Some ==> v.added(id, row).swap_removed(i).dim == v.dim,
{
    let w = v.added(id, row);
    if i < v.len() {
        assert(w.ids[i] == v.ids[i]);
        assert(v.ids.contains(id));
    }
    assert(w.ids.update(i, w.ids.last()).drop_last() =~= v.ids);
    assert(w.rows.update(i, w.rows.last()).drop_last() =~= v.rows);
}

/// Removing an entry keeps the index valid and shrinks it by one.
pub proof fn law_remove_shrinks_by_one<T>(v: IndexView<T>, i: int)
    requires
        v.valid(),
        0 <= i < v.len(),
    ensures
        v.swap_removed(i).valid(),
        v.swap_removed(i).len() == v.len() - 1,
        v.swap_removed(i).dim == v.dim,
{
    let w = v.swap_removed(i);
    assert forall|t: int| 0 <= t < w.rows.len() implies #[trigger] w.rows[t].len() == w.dim->0 by {
        if t == i {
            assert(w.rows[t] == v.rows[v.rows.len() - 1]);
        } else {
            assert(w.rows[t] == v.rows[t]);
        }
    }
}

/// Parts that describe a valid index (as those [`Index::parts`] hands out
/// do) are accepted by [`Index::from_parts`], which rebuilds that same
/// index: a snapshot round-trips.
pub proof fn law_snapshot_round_trip<T>(
    v: IndexView<T>,
    metric: Metric,
    dim: Option<usize>,
    ids: Seq<String>,
    vectors: Seq<Vec<T>>,
)
    requires
        v.valid(),
        parts_view(metric, dim, ids, vectors) == v,
    ensures
        rebuilt(metric, dim, ids, vectors) == Some(v),
{
}

/// Inserting keeps an index valid, and a successful insert adds exactly one
/// entry, at the end.
pub proof fn law_add_appends<T>(v: IndexView<T>, id: Seq<char>, row: Seq<T>)
    requires
        v.valid(),
        v.add_error(row.len()) is None,
        row.len() <= usize::MAX,
    ensures
        v.added(id, row).valid(),
        v.added(id, row).len() == v.len() + 1,
        v.added(id, row).ids.last() == id,
        v.added(id, row).rows.last() == row,
        v.added(id, row).dim == Some(row.len() as usize),
        v.added(id, row).metric == v.metric,
        forall|j: int| 0 <= j < v.len() ==> #[trigger] v.added(id, row).ids[j] == v.ids[j] && v.added(id, row).rows[j] == v.rows[j],
        v.added(id, row).ids[v.len() as int] == id,
        v.added(id, row).rows[v.len() as int] == row,
{
    let w = v.added(id, row);
    assert forall|t: int| 0 <= t < w.rows.len() implies #[trigger] w.rows[t].len() == w.dim->0 by {
        if t < v.rows.len() {
            assert(w.rows[t] == v.rows[t]);
        }
    }
}

/// Hits are reported best first: where no score is NaN, scores never
/// increase along an answer.
pub proof fn law_hits_best_first<T>(v: IndexView<T>, k: nat, scores: Seq<u32>, hits: Seq<Hit>, a: int, b: int)
    requires
        v.answers(k, scores, hits),
        0 <= a < b < hits.len(),
        all_numbers(scores),
    ensures
        scaled_value(hits[b].score_bits) <= scaled_value(hits[a].score_bits),
{
    let keys = score_keys(scores);
    let pos = choose|pos: Seq<usize>|
        #![trigger is_top_k(keys, pos, k as int)]
        {
            &&& is_top_k(keys, pos, k as int)
            &&& in_hit_order(keys, v.ids, pos)
            &&& hits_at(hits, pos, v.ids, scores)
        };
    assert(hits[a].score_bits == scores[pos[a] as int]);
    assert(hits[b].score_bits == scores[pos[b] as int]);
    lemma_keys_scored(scores);
    lemma_hit_order_pairwise(keys, v.ids, pos);
    assert(ranks_before(keys, v.ids, pos[a] as int, pos[b] as int));
    law_order_key_matches_value(hits[b].score_bits, hits[a].score_bits);
}

/// An answer leaves out no better entry: an entry whose score beats the
/// score of any hit is itself among the hits, with its id and score.
pub proof fn law_better_entries_are_reported<T>(v: IndexView<T>, k: nat, scores: Seq<u32>, hits: Seq<Hit>, j: int, y: int)
    requires
        v.answers(k, scores, hits),
        0 <= j < hits.len(),
        0 <= y < scores.len(),
        y <= usize::MAX,
        !is_nan_bits(hits[j].score_bits),
        !is_nan_bits(scores[y]),
        scaled_value(scores[y]) > scaled_value(hits[j].score_bits),
    ensures
        exists|t: int| 0 <= t < hits.len() && #[trigger] hits[t].id@ == v.ids[y] && hits[t].score_bits == scores[y],
{
    let keys = score_keys(scores);
    let pos = choose|pos: Seq<usize>|
        #![trigger is_top_k(keys, pos, k as int)]
        {
            &&& is_top_k(keys, pos, k as int)
            &&& in_hit_order(keys, v.ids, pos)
            &&& hits_at(hits, pos, v.ids, scores)
        };
    let x = pos[j];
    assert(hits[j].score_bits == scores[x as int]);
    assert(pos.contains(x));
    law_order_key_matches_value(scores[y], scores[x as int]);
    if !pos.contains(y as usize) {
        assert(outranks(keys, x as int, y));
        assert(false);
    }
    let t = choose|t: int| 0 <= t < pos.len() && pos[t] == y as usize;
    assert(hits[t].id@ == v.ids[y]);
}

/// Asking for more hits keeps every hit of the smaller answer (where no
/// score is NaN): each of them is among the larger answer's hits, with the
/// same id and score.
pub proof fn law_more_hits_keep_earlier<T>(
    v: IndexView<T>,
    scores: Seq<u32>,
    k1: nat,
    h1: Seq<Hit>,
    k2: nat,
    h2: Seq<Hit>,
    j: int,
)
    requires
        all_numbers(scores),
        v.answers(k1, scores, h1),
        v.answers(k2, scores, h2),
        k1 <= k2,
        0 <= j < h1.len(),
    ensures
        exists|t: int| 0 <= t < h2.len() && #[trigger] h2[t].id@ == h1[j].id@ && h2[t].score_bits == h1[j].score_bits,
{
    let keys = score_keys(scores);
    let p1 = choose|pos: Seq<usize>|
        #![trigger is_top_k(keys, pos, k1 as int)]
        {
            &&& is_top_k(keys, pos, k1 as int)
            &&& in_hit_order(keys, v.ids, pos)
            &&& hits_at(h1, pos, v.ids, scores)
        };
    let p2 = choose|pos: Seq<usize>|
        #![trigger is_top_k(keys, pos, k2 as int)]
        {
            &&& is_top_k(keys, pos, k2 as int)
            &&& in_hit_order(keys, v.ids, pos)
            &&& hits_at(h2, pos, v.ids, scores)
        };
    lemma_keys_scored(scores);
    law_top_k_nested(keys, p1, k1 as int, p2, k2 as int);
    let x = p1[j];
    assert(p1.contains(x));
    assert(p2.contains(x));
    let t = choose|t: int| 0 <= t < p2.len() && p2[t] == x;
    assert(h1[j].id@ == v.ids[x as int]);
    assert(h2[t].id@ == v.ids[x as int]);
}

/// Answers are determined by the query: where no score is NaN, two answers
/// to the same query (such as one computed serially and one in parallel)
/// report, place by place, the same ids with equal scores (the same number).
pub proof fn law_answers_agree<T>(v: IndexView<T>, k: nat, scores: Seq<u32>, h1: Seq<Hit>, h2: Seq<Hit>, j: int)
    requires
        v.valid(),
        scores.len() == v.len(),
        all_numbers(scores),
        v.answers(k, scores, h1),
        v.answers(k, scores, h2),
        0 <= j < h1.len(),
    ensures
        h1.len() == h2.len(),
        h1[j].id@ == h2[j].id@,
        order_key(h1[j].score_bits) == order_key(h2[j].score_bits),
        scaled_value(h1[j].score_bits) == scaled_value(h2[j].score_bits),
{
    let keys = score_keys(scores);
    let p1 = choose|pos: Seq<usize>|
        #![trigger is_top_k(keys, pos, k as int)]
        {
            &&& is_top_k(keys, pos, k as int)
            &&& in_hit_order(keys, v.ids, pos)
            &&& hits_at(h1, pos, v.ids, scores)
        };
    let p2 = choose|pos: Seq<usize>|
        #![trigger is_top_k(keys, pos, k as int)]
        {
            &&& is_top_k(keys, pos, k as int)
            &&& in_hit_order(keys, v.ids, pos)
            &&& hits_at(h2, pos, v.ids, scores)
        };
    law_top_k_unique(keys, p1, p2, k as int);
    lemma_keys_scored(scores);
    law_hit_order_unique(keys, v.ids, p1, p2, j);
    assert(h1[j].score_bits == scores[p1[j] as int]);
    assert(h2[j].score_bits == scores[p2[j] as int]);
    law_order_key_matches_value(h1[j].score_bits, h2[j].score_bits);
}

/// One update keeps an index valid and its metric; the length grows by
/// what it inserts and shrinks by what it removes; a fixed dimension stays
/// fixed, and the dimension is unset afterwards exactly when it was unset
/// before and nothing was inserted.
pub proof fn law_update_step<T>(v: IndexView<T>, u: Update<T>)
    requires
        v.valid(),
        u.well_formed(),
    ensures
        v.apply(u).valid(),
        v.apply(u).metric == v.metric,
        v.apply(u).len() + v.removed(u) == v.len() + v.inserted(u),
        v.dim is Some ==> v.apply(u).dim == v.dim,
        v.apply(u).dim is None <==> (v.dim is None && v.inserted(u) == 0),
{
    match u {
        Update::Add(id, row) => {
            if v.add_error(row.len()) is None {
                law_add_appends(v, id, row);
            }
        },
        Update::Batch(ids, m) => {
            if v.add_batch_error(ids.len(), m) is None {
                let w = v.batch_added(ids, m);
                assert forall|t: int| 0 <= t < w.rows.len() implies #[trigger] w.rows[t].len() == w.dim->0 by {
                    if t < v.rows.len() {
                        assert(w.rows[t] == v.rows[t]);
                    } else {
                        assert(w.rows[t] == m.rows[t - v.rows.len()]);
                    }
                }
            }
        },
        Update::Remove(id) => {
            if v.ids.contains(id) {
                let j = choose|j: int| 0 <= j < v.ids.len() && v.ids[j] == id;
                lemma_first_match_exists(v, id, j);
                law_remove_shrinks_by_one(v, v.first_match(id));
            }
        },
    }
}

/// Some position holds the first occurrence of an id that occurs at `j`.
proof fn lemma_first_match_exists<T>(v: IndexView<T>, id: Seq<char>, j: int) -> (f: int)
    requires
        0 <= j < v.ids.len(),
        v.ids[j] == id,
    ensures
        v.is_first_match(id, f),
        v.is_first_match(id, v.first_match(id)),
        0 <= v.first_match(id) < v.len(),
    decreases j,
{
    if exists|i: int| 0 <= i < j && v.ids[i] == id {
        let i = choose|i: int| 0 <= i < j && v.ids[i] == id;
        lemma_first_match_exists(v, id, i)
    } else {
        assert(v.is_first_match(id, j));
        j
    }
}

/// Over any sequence of updates the index stays valid and keeps its metric;
/// its length is the starting length plus the entries inserted minus the
/// entries removed; once the dimension is fixed it never changes, and it is
/// unset at the end exactly when it was unset at the start and nothing was
/// inserted.
pub proof fn law_updates<T>(v: IndexView<T>, us: Seq<Update<T>>)
    requires
        v.valid(),
        forall|i: int| 0 <= i < us.len() ==> #[trigger] us[i].well_formed(),
    ensures
        apply_all(v, us).valid(),
        apply_all(v, us).metric == v.metric,
        apply_all(v, us).len() + removed_by(v, us) == v.len() + inserted_by(v, us),
        v.dim is Some ==> apply_all(v, us).dim == v.dim,
        apply_all(v, us).dim is None <==> (v.dim is None && inserted_by(v, us) == 0),
    decreases us.len(),
{
    if us.len() > 0 {
        assert(us[0].well_formed());
        law_update_step(v, us[0]);
        let rest = us.drop_first();
        assert forall|i: int| 0 <= i < rest.len() implies #[trigger] rest[i].well_formed() by {
            assert(rest[i] == us[i + 1]);
        }
        law_updates(v.apply(us[0]), rest);
    }
}

/// No score is NaN.
pub open spec fn all_numbers(scores: Seq<u32>) -> bool {
    forall|i: int| 0 <= i < scores.len() ==> !is_nan_bits(#[trigger] scores[i])
}

/// Scores that are numbers have keys that mark them scored.
proof fn lemma_keys_scored(scores: Seq<u32>)
    requires
        all_numbers(scores),
    ensures
        forall|i: int| 0 <= i < scores.len() ==> !unscored(score_keys(scores), i),
{
    assert forall|i: int| 0 <= i < scores.len() implies !unscored(score_keys(scores), i) by {
        lemma_number_keys(scores[i]);
    }
}

/// A batch inserted into a fresh index comes back unchanged: the stored
/// rows are the matrix's rows, in order, and a snapshot is as wide as the
/// matrix.
pub proof fn law_batch_into_fresh_index<T>(metric: Metric, ids: Seq<Seq<char>>, m: MatrixView<T>)
    requires
        m.valid(),
        ids.len() == m.rows.len(),
        m.rows.len() > 0,
    ensures
        (IndexView::<T> { metric, dim: None, ids: Seq::empty(), rows: Seq::empty() }).add_batch_error(ids.len(), m) is None,
        (IndexView::<T> { metric, dim: None, ids: Seq::empty(), rows: Seq::empty() }).batch_added(ids, m).rows == m.rows,
        (IndexView::<T> { metric, dim: None, ids: Seq::empty(), rows: Seq::empty() }).batch_added(ids, m).ids == ids,
        (IndexView::<T> { metric, dim: None, ids: Seq::empty(), rows: Seq::empty() }).batch_added(ids, m).dim == Some(m.cols),
{
    assert(Seq::<Seq<T>>::empty() + m.rows =~= m.rows);
    assert(Seq::<Seq<char>>::empty() + ids =~= ids);
}

/// An insert is refused exactly when the index's dimension is fixed and the
/// vector has another length, and then with that dimension and that length;
/// an index whose dimension is unset, or a vector of the index's own
/// dimension, is always accepted (also after every entry was removed).
pub proof fn law_add_refused_only_on_other_length<T>(v: IndexView<T>, got: usize)
    ensures
        v.dim is None ==> v.add_error(got as nat) is None,
        v.dim == Some(got) ==> v.add_error(got as nat) is None,
        forall|d: usize|
            v.dim == Some(d) && d != got ==> v.add_error(got as nat) == Some(
                AnnFlatError::DimMismatch { expected: d, got },
            ),
{
}

/// How a query is checked: `k == 0` is refused with `KZero`; otherwise a
/// `k` above the number of entries with `KTooLarge { k, n }`; otherwise a
/// query whose length differs from the index's dimension, shorter or
/// longer, with `DimMismatch { expected, got }`; a query of the index's
/// dimension with `0 < k <= n` is answered.
pub proof fn law_search_refusals<T>(v: IndexView<T>, got: usize, k: usize)
    requires
        v.valid(),
    ensures
        k == 0 ==> v.search_error(got as nat, k as nat) == Some(AnnFlatError::KZero),
        0 < k && k > v.len() && v.len() <= usize::MAX ==> v.search_error(got as nat, k as nat) == Some(
            AnnFlatError::KTooLarge { k, n: v.len() as usize },
        ),
        forall|d: usize|
            0 < k <= v.len() && v.dim == Some(d) && d != got ==> v.search_error(got as nat, k as nat)
                == Some(AnnFlatError::DimMismatch { expected: d, got }),
        0 < k <= v.len() && v.dim == Some(got) ==> v.search_error(got as nat, k as nat) is None,
        0 < k <= v.len() ==> v.dim is Some,
{
}

/// Removing entry `i` by swapping: the index shrinks by one; every entry
/// before the last other than entry `i` stays where it was; the last entry
/// moves into place `i` (unless `i` is the last); the dimension and metric
/// are kept; and the ids (and rows) lose exactly one copy of entry `i`'s.
pub proof fn law_swap_remove_moves_last_into_place<T>(v: IndexView<T>, i: int)
    requires
        v.valid(),
        0 <= i < v.len(),
    ensures
        v.swap_removed(i).len() == v.len() - 1,
        v.swap_removed(i).rows.len() == v.len() - 1,
        forall|j: int|
            0 <= j < v.len() - 1 && j != i ==> #[trigger] v.swap_removed(i).ids[j] == v.ids[j]
                && v.swap_removed(i).rows[j] == v.rows[j],
        i < v.len() - 1 ==> v.swap_removed(i).ids[i] == v.ids[v.len() - 1] && v.swap_removed(i).rows[i]
            == v.rows[v.len() - 1],
        v.swap_removed(i).dim == v.dim,
        v.swap_removed(i).metric == v.metric,
        v.swap_removed(i).ids.to_multiset() == v.ids.to_multiset().remove(v.ids[i]),
        v.swap_removed(i).rows.to_multiset() == v.rows.to_multiset().remove(v.rows[i]),
{
    broadcast use vstd::seq_lib::group_to_multiset_ensures, vstd::multiset::group_multiset_axioms;

    lemma_swap_remove_multiset(v.ids, i);
    lemma_swap_remove_multiset(v.rows, i);
}

/// Overwriting place `i` with the last element and dropping the last place
/// removes one copy of the element at `i`.
proof fn lemma_swap_remove_multiset<A>(s: Seq<A>, i: int)
    requires
        0 <= i < s.len(),
    ensures
        s.update(i, s.last()).drop_last().to_multiset() == s.to_multiset().remove(s[i]),
{
    broadcast use vstd::seq_lib::group_to_multiset_ensures, vstd::multiset::group_multiset_axioms;

    let u = s.update(i, s.last());
    vstd::seq_lib::to_multiset_update(s, i, s.last());
    assert(u.drop_last() =~= u.remove(u.len() - 1));
    vstd::seq_lib::to_multiset_remove(u, u.len() - 1);
    assert(u[u.len() - 1] == s.last());
    assert(u.drop_last().to_multiset() =~= s.to_multiset().remove(s[i]));
}

/// How a batch insert is checked: refused with `BatchLengthMismatch` when
/// the id count and the row count differ; otherwise, when there is a row
/// and the index's dimension is fixed at another width than the matrix's,
/// with `DimMismatch { expected, got }`; otherwise accepted (no rows, an
/// unset dimension, or rows of the index's own width).
pub proof fn law_batch_refusals<T>(v: IndexView<T>, n_ids: usize, m: MatrixView<T>)
    requires
        m.rows.len() <= usize::MAX,
    ensures
        n_ids != m.rows.len() ==> v.add_batch_error(n_ids as nat, m) == Some(
            AnnFlatError::BatchLengthMismatch { ids: n_ids, rows: m.rows.len() as usize },
        ),
        forall|d: usize|
            n_ids == m.rows.len() && m.rows.len() > 0 && v.dim == Some(d) && d != m.cols
                ==> v.add_batch_error(n_ids as nat, m) == Some(
                AnnFlatError::DimMismatch { expected: d, got: m.cols },
            ),
        n_ids == m.rows.len() && (m.rows.len() == 0 || v.dim is None || v.dim == Some(m.cols))
            ==> v.add_batch_error(n_ids as nat, m) is None,
{
}

/// An accepted batch insert keeps every earlier entry in place and puts
/// row `t` of the matrix under `ids[t]` right after them, in order; the
/// metric is kept, and the dimension becomes the matrix's width when a row
/// came.
pub proof fn law_batch_appends<T>(v: IndexView<T>, ids: Seq<Seq<char>>, m: MatrixView<T>)
    requires
        ids.len() == m.rows.len(),
    ensures
        v.batch_added(ids, m).len() == v.len() + ids.len(),
        v.batch_added(ids, m).rows.len() == v.rows.len() + m.rows.len(),
        forall|j: int| 0 <= j < v.len() ==> #[trigger] v.batch_added(ids, m).ids[j] == v.ids[j],
        forall|j: int| 0 <= j < v.rows.len() ==> #[trigger] v.batch_added(ids, m).rows[j] == v.rows[j],
        forall|t: int| 0 <= t < ids.len() ==> #[trigger] v.batch_added(ids, m).ids[v.len() + t] == ids[t],
        forall|t: int| 0 <= t < m.rows.len() ==> #[trigger] v.batch_added(ids, m).rows[v.rows.len() + t] == m.rows[t],
        v.batch_added(ids, m).metric == v.metric,
        m.rows.len() > 0 ==> v.batch_added(ids, m).dim == Some(m.cols),
        m.rows.len() == 0 ==> v.batch_added(ids, m).dim == v.dim,
{
}

} // verus!
