//! The similarity store: records in insertion order, their embeddings in one
//! flat matrix, and free-form metadata.
//!
//! Chunk `i` of the matrix (components `i * dim .. (i + 1) * dim`) is the
//! embedding of record `i`. Embeddings are stored as given: callers scale
//! them to unit length first, so that the dot product of two of them is
//! their cosine similarity. Scoring itself is floating-point work and is
//! done by the caller; the store ranks the scores it is handed.
use crate::codec::{base64_of, deserialize, encodes, le_words, serialize};
use crate::error::DbError;
use crate::model::{
    candidates, entries_of, entry_of, ids_of, inserted_ids, lemma_candidates_props, lemma_chunk_len,
    lemma_gather_len, lemma_pick_in_range, open_result, updated_ids, upsert_all, Entry, StoreState,
};
use crate::score::{passes, passes_threshold, ScoredIndex};
use crate::topk::{is_top_k, select_top_k, sorted_desc};
use std::collections::HashMap;
use vstd::prelude::*;

verus! {

broadcast use vstd::seq_lib::group_to_multiset_ensures;

#[verifier::external_type_specification]
#[verifier::external_body]
pub struct ExValue(serde_json::Value);

/// A record: a unique identifier, an embedding (component bit patterns) and
/// metadata fields.
pub struct Data {
    pub id: String,
    pub vector: Vec<u32>,
    pub fields: HashMap<String, serde_json::Value>,
}

struct DataBase {
    embedding_dim: usize,
    data: Vec<Data>,
    matrix: Vec<u32>,
    additional_data: HashMap<String, serde_json::Value>,
}

/// An in-memory similarity store bound to a snapshot file path.
pub struct NanoVectorDB {
    embedding_dim: usize,
    metric: String,
    storage_file: String,
    storage: DataBase,
}

impl View for NanoVectorDB {
    type V = StoreState;

    closed spec fn view(&self) -> StoreState {
        StoreState {
            dim: self.embedding_dim as nat,
            entries: entries_of(self.storage.data@),
            matrix: self.storage.matrix@,
            additional: self.storage.additional_data@,
        }
    }
}

impl NanoVectorDB {
    /// The store's internal consistency.
    pub closed spec fn wf(&self) -> bool {
        &&& self@.wf()
        &&& self.storage.embedding_dim == self.embedding_dim
        &&& self.metric@ == "cosine"@
    }

    /// The record at position `i`, as stored (its `vector` is not used).
    pub closed spec fn record(&self, i: int) -> Data {
        self.storage.data@[i]
    }

    /// The path of the snapshot file.
    pub closed spec fn path(&self) -> Seq<char> {
        self.storage_file@
    }

    /// An empty store of the given dimension, bound to `storage_file`.
    pub fn new(embedding_dim: usize, storage_file: &str) -> (r: Self)
        ensures
            r.wf(),
            r@ == (StoreState {
                dim: embedding_dim as nat,
                entries: Seq::empty(),
                matrix: Seq::empty(),
                additional: Map::empty(),
            }),
            r.path() == storage_file@,
    {
        let r = NanoVectorDB {
            embedding_dim,
            metric: metric_name(),
            storage_file: storage_file.to_owned(),
            storage: DataBase {
                embedding_dim,
                data: Vec::new(),
                matrix: Vec::new(),
                additional_data: HashMap::new(),
            },
        };
        assert(r@.entries =~= Seq::empty());
        assert(r@.matrix =~= Seq::empty());
        r
    }

    /// The dimension of every embedding.
    pub fn get_embedding_dim(&self) -> (r: usize)
        ensures
            r == self@.dim,
    {
        self.embedding_dim
    }

    /// The similarity metric: always cosine similarity.
    pub fn get_metric(&self) -> (r: &str)
        requires
            self.wf(),
        ensures
            r@ == "cosine"@,
    {
        self.metric.as_str()
    }

    /// The path of the snapshot file.
    pub fn storage_file(&self) -> (r: &str)
        ensures
            r@ == self.path(),
    {
        self.storage_file.as_str()
    }

    /// Number of records.
    pub fn len(&self) -> (r: usize)
        ensures
            r == self@.entries.len(),
    {
        self.storage.data.len()
    }

    /// Whether the store holds no record.
    pub fn is_empty(&self) -> (r: bool)
        ensures
            r == (self@.entries.len() == 0),
    {
        self.storage.data.len() == 0
    }

    /// Number of components held in the matrix.
    pub fn vector_bytes_len(&self) -> (r: usize)
        ensures
            r == self@.matrix.len(),
    {
        self.storage.matrix.len()
    }

    /// The free-form metadata.
    pub fn get_additional_data(&self) -> (r: &HashMap<String, serde_json::Value>)
        ensures
            r@ == self@.additional,
    {
        &self.storage.additional_data
    }

    /// Replaces the free-form metadata; records are untouched.
    pub fn store_additional_data(&mut self, data: HashMap<String, serde_json::Value>)
        requires
            old(self).wf(),
        ensures
            final(self).wf(),
            final(self)@ == (StoreState { additional: data@, ..old(self)@ }),
            final(self).path() == old(self).path(),
    {
        self.storage.additional_data = data;
    }

    /// The flat matrix: the embedding of record `i` is chunk `i`.
    pub fn matrix(&self) -> (r: &Vec<u32>)
        ensures
            r@ == self@.matrix,
    {
        &self.storage.matrix
    }

    /// The stored records in store order (their `vector` fields are empty:
    /// embeddings live in the matrix).
    pub fn records(&self) -> (r: &Vec<Data>)
        ensures
            entries_of(r@) == self@.entries,
            forall|i: int| 0 <= i < r@.len() ==> r@[i] == self.record(i),
    {
        &self.storage.data
    }
}

impl NanoVectorDB {
    /// Position of the first record with identifier `id`.
    fn position(&self, id: &String) -> (r: Option<usize>)
        ensures
            match r {
                Some(p) => self@.has_id(id@) && p == self@.index_of(id@) && p < self@.entries.len()
                    && self@.entries[p as int].id == id@,
                None => !self@.has_id(id@),
            },
    {
        let n = self.storage.data.len();
        let mut j: usize = 0;
        while j < n
            invariant
                0 <= j <= n,
                n == self@.entries.len(),
                forall|t: int| 0 <= t < j ==> #[trigger] self@.entries[t].id != id@,
            decreases n - j,
        {
            assert(self@.entries[j as int].id == self.storage.data@[j as int].id@);
            if self.storage.data[j].id == *id {
                let ghost v = self@;
                assert(v.entries[j as int].id == id@);
                assert(v.has_id(id@));
                let ghost c = v.index_of(id@);
                assert(c == j) by {
                    if c < j {
                        assert(v.entries[c].id != id@);
                    } else if c > j {
                        assert(v.entries[j as int].id != id@);
                    }
                }
                return Some(j);
            }
            j = j + 1;
        }
        None
    }

    /// Replaces the fields and embedding of record `p` with those of `d`.
    fn overwrite_at(&mut self, p: usize, d: &Data)
        requires
            old(self).wf(),
            p < old(self)@.entries.len(),
            d.vector@.len() == old(self)@.dim,
        ensures
            final(self).wf(),
            final(self)@ == (StoreState {
                entries: old(self)@.entries.update(p as int, Entry { id: d.id@, fields: d.fields@ }),
                matrix: old(self)@.matrix.subrange(0, p * old(self)@.dim) + d.vector@
                    + old(self)@.matrix.subrange((p + 1) * old(self)@.dim, old(self)@.matrix.len() as int),
                ..old(self)@
            }),
            final(self).path() == old(self).path(),
    {
        let dim = self.embedding_dim;
        let ghost v0 = self@;
        let ghost m0 = self.storage.matrix@;
        let ghost d0 = self.storage.data@;
        let stored = Data { id: d.id.clone(), vector: Vec::new(), fields: d.fields.clone() };
        assert((p + 1) * dim <= v0.entries.len() * dim) by (nonlinear_arith)
            requires p < v0.entries.len();
        assert(p * dim + dim == (p + 1) * dim) by (nonlinear_arith);
        assert(m0.len() == self.storage.matrix.len());
        let start: usize = p * dim;
        let mut j: usize = 0;
        while j < dim
            invariant
                0 <= j <= dim,
                dim == v0.dim,
                start == p * dim,
                start + dim <= m0.len(),
                m0.len() <= usize::MAX,
                d.vector@.len() == dim,
                self.storage.matrix@.len() == m0.len(),
                self.storage.data@ == d0,
                self.embedding_dim == dim,
                self.storage.embedding_dim == dim,
                self.storage.additional_data@ == v0.additional,
                self.storage_file@ == old(self).storage_file@,
                self.metric@ == "cosine"@,
                forall|t: int|
                    0 <= t < m0.len() ==> #[trigger] self.storage.matrix@[t] == if start <= t < start
                        + j {
                        d.vector@[t - start]
                    } else {
                        m0[t]
                    },
            decreases dim - j,
        {
            self.storage.matrix.set(start + j, d.vector[j]);
            j = j + 1;
        }
        self.storage.data.set(p, stored);
        proof {
            assert(self.storage.matrix@ =~= m0.subrange(0, start as int) + d.vector@ + m0.subrange(
                start + dim,
                m0.len() as int,
            ));
            assert(self@.entries =~= v0.entries.update(p as int, Entry { id: d.id@, fields: d.fields@ }));
        }
    }

    /// Appends `d` as a new record.
    fn append(&mut self, d: &Data)
        requires
            old(self).wf(),
            d.vector@.len() == old(self)@.dim,
            (old(self)@.entries.len() + 1) * old(self)@.dim <= usize::MAX,
        ensures
            final(self).wf(),
            final(self)@ == (StoreState {
                entries: old(self)@.entries.push(Entry { id: d.id@, fields: d.fields@ }),
                matrix: old(self)@.matrix + d.vector@,
                ..old(self)@
            }),
            final(self).path() == old(self).path(),
    {
        let dim = self.embedding_dim;
        let ghost v0 = self@;
        let ghost m0 = self.storage.matrix@;
        let ghost d0 = self.storage.data@;
        let stored = Data { id: d.id.clone(), vector: Vec::new(), fields: d.fields.clone() };
        assert((v0.entries.len() + 1) * dim == v0.entries.len() * dim + dim) by (nonlinear_arith);
        let mut j: usize = 0;
        while j < dim
            invariant
                0 <= j <= dim,
                dim == v0.dim,
                m0.len() + dim <= usize::MAX,
                d.vector@.len() == dim,
                self.storage.matrix@ == m0 + d.vector@.take(j as int),
                self.storage.data@ == d0,
                self.embedding_dim == dim,
                self.storage.embedding_dim == dim,
                self.storage.additional_data@ == v0.additional,
                self.storage_file@ == old(self).storage_file@,
                self.metric@ == "cosine"@,
            decreases dim - j,
        {
            self.storage.matrix.push(d.vector[j]);
            assert(d.vector@.take(j + 1) =~= d.vector@.take(j as int).push(d.vector@[j as int]));
            j = j + 1;
        }
        self.storage.data.push(stored);
        proof {
            assert(d.vector@.take(dim as int) =~= d.vector@);
            assert(self@.entries =~= v0.entries.push(Entry { id: d.id@, fields: d.fields@ }));
        }
    }

    /// Applies one record of an upsert; returns whether its identifier was
    /// already present.
    fn upsert_record(&mut self, d: &Data) -> (present: bool)
        requires
            old(self).wf(),
            d.vector@.len() == old(self)@.dim,
            (old(self)@.entries.len() + 1) * old(self)@.dim <= usize::MAX,
        ensures
            final(self).wf(),
            final(self)@ == old(self)@.upsert_one(d.id@, d.vector@, d.fields@),
            present == old(self)@.has_id(d.id@),
            final(self)@.entries.len() == old(self)@.entries.len() + if present { 0int } else { 1int },
            final(self).path() == old(self).path(),
    {
        match self.position(&d.id) {
            Some(p) => {
                self.overwrite_at(p, d);
                true
            },
            None => {
                self.append(d);
                false
            },
        }
    }

    /// Inserts or updates records, one after another in batch order.
    ///
    /// A record whose identifier is present has its embedding and fields
    /// replaced in place and its identifier listed in the first result; any
    /// other record is appended and its identifier listed in the second. A
    /// repeated new identifier is thus inserted once and then updated: the
    /// last occurrence wins and identifiers stay unique.
    pub fn upsert(&mut self, datas: Vec<Data>) -> (r: (Vec<String>, Vec<String>))
        requires
            old(self).wf(),
            forall|i: int| 0 <= i < datas@.len() ==> #[trigger] datas@[i].vector@.len() == old(self)@.dim,
            (old(self)@.entries.len() + datas@.len()) * old(self)@.dim <= usize::MAX,
        ensures
            final(self).wf(),
            final(self)@ == upsert_all(old(self)@, datas@),
            final(self)@.matrix.len() == final(self)@.entries.len() * final(self)@.dim,
            ids_of(r.0@) == updated_ids(old(self)@, datas@),
            ids_of(r.1@) == inserted_ids(old(self)@, datas@),
            final(self)@.entries.len() == old(self)@.entries.len() + r.1@.len(),
            final(self).path() == old(self).path(),
    {
        let mut updates: Vec<String> = Vec::new();
        let mut inserts: Vec<String> = Vec::new();
        let ghost v0 = self@;
        let mut i: usize = 0;
        while i < datas.len()
            invariant
                0 <= i <= datas@.len(),
                self.wf(),
                self@.dim == v0.dim,
                self@ == upsert_all(v0, datas@.take(i as int)),
                ids_of(updates@) == updated_ids(v0, datas@.take(i as int)),
                ids_of(inserts@) == inserted_ids(v0, datas@.take(i as int)),
                self@.entries.len() <= v0.entries.len() + i,
                self@.entries.len() == v0.entries.len() + inserts@.len(),
                forall|k: int| 0 <= k < datas@.len() ==> #[trigger] datas@[k].vector@.len() == v0.dim,
                (v0.entries.len() + datas@.len()) * v0.dim <= usize::MAX,
                self.path() == old(self).path(),
            decreases datas@.len() - i,
        {
            let d = &datas[i];
            let ghost before = self@;
            assert((self@.entries.len() + 1) * v0.dim <= (v0.entries.len() + datas@.len()) * v0.dim)
                by (nonlinear_arith)
                requires self@.entries.len() + 1 <= v0.entries.len() + datas@.len();
            let present = self.upsert_record(d);
            let ghost prefix = datas@.take(i + 1);
            assert(prefix.drop_last() =~= datas@.take(i as int));
            assert(prefix.last() == datas@[i as int]);
            if present {
                updates.push(d.id.clone());
                assert(ids_of(updates@) =~= ids_of(updates@.drop_last()).push(d.id@));
            } else {
                inserts.push(d.id.clone());
                assert(ids_of(inserts@) =~= ids_of(inserts@.drop_last()).push(d.id@));
            }
            i = i + 1;
        }
        assert(datas@.take(i as int) =~= datas@);
        (updates, inserts)
    }
}

/// Whether `id` is among `ids`.
fn listed(ids: &[String], id: &String) -> (r: bool)
    ensures
        r == ids_of(ids@).contains(id@),
{
    let mut j: usize = 0;
    while j < ids.len()
        invariant
            0 <= j <= ids@.len(),
            forall|t: int| 0 <= t < j ==> #[trigger] ids@[t]@ != id@,
        decreases ids@.len() - j,
    {
        if ids[j] == *id {
            assert(ids_of(ids@)[j as int] == id@);
            return true;
        }
        j = j + 1;
    }
    proof {
        if ids_of(ids@).contains(id@) {
            let t = choose|t: int| 0 <= t < ids_of(ids@).len() && ids_of(ids@)[t] == id@;
            assert(ids@[t]@ == id@);
        }
    }
    false
}

impl NanoVectorDB {
    /// The ranking candidates, in store order: record `i` with score
    /// `scores[i]`, when `admitted[i]` holds (the caller's filter accepts it)
    /// and the score does not rank below `better_than`.
    pub fn candidates(&self, scores: &Vec<u32>, better_than: Option<u32>, admitted: &Vec<bool>) -> (r: Vec<
        ScoredIndex,
    >)
        requires
            scores@.len() == self@.entries.len(),
            admitted@.len() == self@.entries.len(),
        ensures
            r@ == candidates(scores@, better_than, admitted@, self@.entries.len()),
    {
        let n = self.storage.data.len();
        let mut cands: Vec<ScoredIndex> = Vec::new();
        let mut i: usize = 0;
        while i < n
            invariant
                0 <= i <= n,
                n == self@.entries.len(),
                scores@.len() == n,
                admitted@.len() == n,
                cands@ == candidates(scores@, better_than, admitted@, i as nat),
            decreases n - i,
        {
            if admitted[i] && passes(scores[i], better_than) {
                cands.push(ScoredIndex { score: scores[i], index: i });
            }
            i = i + 1;
        }
        cands
    }

    /// Ranks the records by the scores handed in.
    ///
    /// `scores[i]` is the similarity score of record `i` and `admitted[i]`
    /// whether the caller's filter accepts it. A record not admitted is not
    /// a candidate, nor is one whose score ranks below `better_than`. The
    /// result is the `top_k` best candidates, best first.
    pub fn rank(&self, scores: &Vec<u32>, top_k: usize, better_than: Option<u32>, admitted: &Vec<bool>) -> (r: Vec<
        ScoredIndex,
    >)
        requires
            scores@.len() == self@.entries.len(),
            admitted@.len() == self@.entries.len(),
        ensures
            is_top_k(r@, candidates(scores@, better_than, admitted@, self@.entries.len()), top_k as nat),
            r@.len() <= top_k,
            sorted_desc(r@),
            forall|i: int|
                0 <= i < r@.len() ==> {
                    let c = #[trigger] r@[i];
                    &&& c.index < self@.entries.len()
                    &&& admitted@[c.index as int]
                    &&& c.score == scores@[c.index as int]
                    &&& passes_threshold(c.score, better_than)
                },
    {
        let n = self.storage.data.len();
        let cands = self.candidates(scores, better_than, admitted);
        let r = select_top_k(&cands, top_k);
        proof {
            lemma_candidates_props(scores@, better_than, admitted@, n as nat);
            assert forall|i: int| 0 <= i < r@.len() implies {
                let c = #[trigger] r@[i];
                &&& c.index < self@.entries.len()
                &&& admitted@[c.index as int]
                &&& c.score == scores@[c.index as int]
                &&& passes_threshold(c.score, better_than)
            } by {
                assert(r@.to_multiset().count(r@[i]) > 0);
                assert(cands@.to_multiset().count(r@[i]) > 0);
                assert(cands@.contains(r@[i]));
                let k = choose|k: int| 0 <= k < cands@.len() && cands@[k] == r@[i];
                assert(cands@[k] == r@[i]);
            }
        }
        r
    }

    /// Runs `filter` on every record, in store order.
    pub fn admitted<F: Fn(&Data) -> bool>(&self, filter: &F) -> (r: Vec<bool>)
        requires
            forall|i: int| 0 <= i < self@.entries.len() ==> filter.requires((&#[trigger] self.record(i),)),
        ensures
            r@.len() == self@.entries.len(),
            forall|i: int| 0 <= i < self@.entries.len() ==> filter.ensures((&self.record(i),), #[trigger] r@[i]),
    {
        let n = self.storage.data.len();
        let mut r: Vec<bool> = Vec::new();
        let mut i: usize = 0;
        while i < n
            invariant
                0 <= i <= n,
                n == self@.entries.len(),
                r@.len() == i,
                forall|t: int| 0 <= t < self@.entries.len() ==> filter.requires((&#[trigger] self.record(t),)),
                forall|t: int| 0 <= t < i ==> filter.ensures((&self.record(t),), #[trigger] r@[t]),
            decreases n - i,
        {
            assert(self.record(i as int) == self.storage.data@[i as int]);
            let ok = filter(&self.storage.data[i]);
            r.push(ok);
            i = i + 1;
        }
        r
    }

    /// Copies the embedding of record `i` out of the matrix.
    fn vector_at(&self, i: usize) -> (r: Vec<u32>)
        requires
            self.wf(),
            i < self@.entries.len(),
        ensures
            r@ == self@.chunk(i as int),
    {
        let dim = self.embedding_dim;
        proof {
            lemma_chunk_len(self@, i as int);
            assert((i + 1) * dim <= self@.entries.len() * dim) by (nonlinear_arith)
                requires i < self@.entries.len();
            assert(i * dim + dim == (i + 1) * dim) by (nonlinear_arith);
        }
        assert(self@.matrix.len() == self.storage.matrix.len());
        let start: usize = i * dim;
        let mut r: Vec<u32> = Vec::new();
        let mut j: usize = 0;
        while j < dim
            invariant
                0 <= j <= dim,
                dim == self@.dim,
                start + dim <= self@.matrix.len(),
                self@.matrix.len() <= usize::MAX,
                start == i * dim,
                r@ == self@.matrix.subrange(start as int, start + j),
            decreases dim - j,
        {
            r.push(self.storage.matrix[start + j]);
            assert(r@ =~= self@.matrix.subrange(start as int, start + j + 1));
            j = j + 1;
        }
        r
    }

    /// The records whose identifier is among `ids`, in store order, each with
    /// its stored embedding. Identifiers that are absent are skipped.
    pub fn get(&self, ids: &[String]) -> (r: Vec<Data>)
        requires
            self.wf(),
        ensures
            r@.len() == self@.pick(ids_of(ids@), true, self@.entries.len()).len(),
            forall|j: int|
                0 <= j < r@.len() ==> {
                    let i = self@.pick(ids_of(ids@), true, self@.entries.len())[j];
                    &&& (#[trigger] r@[j]).id@ == self@.entries[i].id
                    &&& r@[j].fields@ == self@.entries[i].fields
                    &&& r@[j].vector@ == self@.chunk(i)
                },
    {
        let n = self.storage.data.len();
        let ghost want = ids_of(ids@);
        let mut r: Vec<Data> = Vec::new();
        let mut i: usize = 0;
        while i < n
            invariant
                0 <= i <= n,
                n == self@.entries.len(),
                self.wf(),
                want == ids_of(ids@),
                r@.len() == self@.pick(want, true, i as nat).len(),
                forall|j: int|
                    0 <= j < r@.len() ==> {
                        let k = self@.pick(want, true, i as nat)[j];
                        &&& (#[trigger] r@[j]).id@ == self@.entries[k].id
                        &&& r@[j].fields@ == self@.entries[k].fields
                        &&& r@[j].vector@ == self@.chunk(k)
                    },
            decreases n - i,
        {
            let d = &self.storage.data[i];
            assert(self@.entries[i as int] == entry_of(self.storage.data@[i as int]));
            if listed(ids, &d.id) {
                let found = Data { id: d.id.clone(), vector: self.vector_at(i), fields: d.fields.clone() };
                r.push(found);
            }
            i = i + 1;
        }
        r
    }

    /// Removes every record whose identifier is among `ids` and rebuilds the
    /// matrix from the embeddings of the remaining records, in their order.
    /// Absent identifiers are ignored.
    pub fn delete(&mut self, ids: &[String])
        requires
            old(self).wf(),
        ensures
            final(self).wf(),
            final(self)@ == old(self)@.without(ids_of(ids@)),
            final(self)@.matrix.len() == final(self)@.entries.len() * final(self)@.dim,
            final(self).path() == old(self).path(),
    {
        let n = self.storage.data.len();
        let ghost v0 = self@;
        let ghost gone = ids_of(ids@);
        let mut data: Vec<Data> = Vec::new();
        let mut matrix: Vec<u32> = Vec::new();
        let mut i: usize = 0;
        while i < n
            invariant
                0 <= i <= n,
                n == v0.entries.len(),
                self@ == v0,
                self.wf(),
                gone == ids_of(ids@),
                entries_of(data@) == v0.pick(gone, false, i as nat).map_values(|k: int| v0.entries[k]),
                matrix@ == v0.gather(v0.pick(gone, false, i as nat)),
            decreases n - i,
        {
            let d = &self.storage.data[i];
            assert(v0.entries[i as int] == entry_of(self.storage.data@[i as int]));
            let ghost before = v0.pick(gone, false, i as nat);
            if !listed(ids, &d.id) {
                let kept = Data { id: d.id.clone(), vector: Vec::new(), fields: d.fields.clone() };
                let ghost old_data = data@;
                data.push(kept);
                assert(entry_of(kept) == v0.entries[i as int]);
                assert(entries_of(data@) =~= entries_of(old_data).push(entry_of(kept)));
                let v = self.vector_at(i);
                let mut j: usize = 0;
                let ghost m0 = matrix@;
                while j < v.len()
                    invariant
                        0 <= j <= v@.len(),
                        matrix@ == m0 + v@.take(j as int),
                    decreases v@.len() - j,
                {
                    matrix.push(v[j]);
                    assert(v@.take(j + 1) =~= v@.take(j as int).push(v@[j as int]));
                    j = j + 1;
                }
                proof {
                    assert(v@.take(v@.len() as int) =~= v@);
                    let after = v0.pick(gone, false, (i + 1) as nat);
                    assert(after == before.push(i as int));
                    assert(after.drop_last() =~= before);
                    assert(entries_of(data@) =~= after.map_values(|k: int| v0.entries[k]));
                }
            }
            i = i + 1;
        }
        let ghost keep = v0.pick(gone, false, n as nat);
        proof {
            lemma_pick_in_range(v0, gone, false, n as nat);
            lemma_gather_len(v0, keep);
            assert(entries_of(data@).len() == keep.len());
        }
        self.storage.data = data;
        self.storage.matrix = matrix;
    }
}

impl NanoVectorDB {
    /// The matrix in its saved form: the standard base64 text of every
    /// component's four little-endian bytes, in order.
    pub fn matrix_base64(&self) -> (r: String)
        requires
            self.wf(),
            self@.matrix.len() <= usize::MAX / 8,
        ensures
            encodes(r@, self@.matrix),
    {
        serialize(&self.storage.matrix)
    }

    /// Opens a store from a snapshot's parts: the records (their `vector`
    /// fields are not used), the saved matrix text and the metadata. The
    /// text must decode to exactly one embedding of `embedding_dim`
    /// components per record.
    pub fn from_snapshot(
        embedding_dim: usize,
        storage_file: &str,
        data: Vec<Data>,
        matrix: &str,
        additional_data: HashMap<String, serde_json::Value>,
    ) -> (r: Result<Self, DbError>)
        requires
            data@.len() * embedding_dim <= usize::MAX,
        ensures
            r matches Ok(db) ==> {
                &&& db.wf()
                &&& open_result(embedding_dim as nat, entries_of(data@), matrix@, additional_data@)
                    == Ok::<StoreState, DbError>(db@)
                &&& db.path() == storage_file@
            },
            r matches Err(e) ==> open_result(embedding_dim as nat, entries_of(data@), matrix@, additional_data@)
                == Err::<StoreState, DbError>(e),
            (forall|b: Seq<u8>| #[trigger] base64_of(b) != matrix@) ==> r == Err::<Self, DbError>(DbError::Io),
            forall|b: Seq<u8>|
                #[trigger] base64_of(b) == matrix@ ==> if le_words(b).len() == data@.len() * embedding_dim {
                    r is Ok && r->Ok_0@.matrix == le_words(b) && r->Ok_0@.entries == entries_of(data@)
                        && r->Ok_0@.additional == additional_data@ && r->Ok_0@.dim == embedding_dim
                } else {
                    r == Err::<Self, DbError>(
                        DbError::CorruptStore {
                            expected: (data@.len() * embedding_dim) as usize,
                            actual: le_words(b).len() as usize,
                        },
                    )
                },
            forall|m: Seq<u32>|
                encodes(matrix@, m) && m.len() == data@.len() * embedding_dim ==> r is Ok
                    && r->Ok_0@.matrix == m,
    {
        let ghost text = matrix@;
        let m = match deserialize(matrix) {
            Ok(m) => m,
            Err(e) => {
                return Err(e);
            },
        };
        let ghost b = choose|b: Seq<u8>| #[trigger] base64_of(b) == text;
        assert(m@ == le_words(b));
        let expected: usize = data.len() * embedding_dim;
        if m.len() != expected {
            return Err(DbError::CorruptStore { expected, actual: m.len() });
        }
        let r = NanoVectorDB {
            embedding_dim,
            metric: metric_name(),
            storage_file: storage_file.to_owned(),
            storage: DataBase { embedding_dim, data, matrix: m, additional_data },
        };
        Ok(r)
    }
}

fn metric_name() -> (r: String)
    ensures
        r@ == "cosine"@,
{
    "cosine".to_owned()
}

} // verus!
