//! The abstract state of a store and the laws its operations obey.
//!
//! A store is modelled as its dimension, its records (identifier and fields)
//! in store order, the flat matrix of their embeddings, and its free-form
//! metadata. Each operation of `NanoVectorDB` is specified as a function on
//! this state.
use crate::codec::{base64_of, encodes, le_bytes, le_words};
use crate::engine::Data;
use crate::error::DbError;
use crate::score::{passes_threshold, ScoredIndex};
use vstd::prelude::*;

verus! {

/// What the store keeps of a record besides its embedding.
pub ghost struct Entry {
    pub id: Seq<char>,
    pub fields: Map<String, serde_json::Value>,
}

pub open spec fn entry_of(d: Data) -> Entry {
    Entry { id: d.id@, fields: d.fields@ }
}

pub open spec fn entries_of(s: Seq<Data>) -> Seq<Entry> {
    s.map_values(|d: Data| entry_of(d))
}

pub open spec fn ids_of(s: Seq<String>) -> Seq<Seq<char>> {
    s.map_values(|x: String| x@)
}

/// The abstract state of a store.
pub ghost struct StoreState {
    pub dim: nat,
    pub entries: Seq<Entry>,
    pub matrix: Seq<u32>,
    pub additional: Map<String, serde_json::Value>,
}

impl StoreState {
    /// The matrix holds exactly one embedding per record.
    pub open spec fn wf(self) -> bool {
        self.matrix.len() == self.entries.len() * self.dim
    }

    /// The embedding of record `i`.
    pub open spec fn chunk(self, i: int) -> Seq<u32> {
        self.matrix.subrange(i * self.dim, (i + 1) * self.dim)
    }

    pub open spec fn has_id(self, id: Seq<char>) -> bool {
        exists|i: int| 0 <= i < self.entries.len() && #[trigger] self.entries[i].id == id
    }

    /// Position of the first record with identifier `id`.
    pub open spec fn index_of(self, id: Seq<char>) -> int {
        choose|i: int|
            0 <= i < self.entries.len() && self.entries[i].id == id && forall|j: int|
                0 <= j < i ==> #[trigger] self.entries[j].id != id
    }

    /// One record of an upsert: an existing identifier has its embedding and
    /// fields replaced in place; a new one is appended.
    pub open spec fn upsert_one(self, id: Seq<char>, vector: Seq<u32>, fields: Map<
        String,
        serde_json::Value,
    >) -> StoreState {
        if self.has_id(id) {
            let i = self.index_of(id);
            StoreState {
                entries: self.entries.update(i, Entry { id, fields }),
                matrix: self.matrix.subrange(0, i * self.dim) + vector + self.matrix.subrange(
                    (i + 1) * self.dim,
                    self.matrix.len() as int,
                ),
                ..self
            }
        } else {
            StoreState {
                entries: self.entries.push(Entry { id, fields }),
                matrix: self.matrix + vector,
                ..self
            }
        }
    }

    /// Positions, in store order, of the records whose identifier is
    /// (`listed`) or is not (`!listed`) among `ids`, looking at the first `n`.
    pub open spec fn pick(self, ids: Seq<Seq<char>>, listed: bool, n: nat) -> Seq<int>
        decreases n,
    {
        if n == 0 {
            Seq::empty()
        } else {
            let before = self.pick(ids, listed, (n - 1) as nat);
            if ids.contains(self.entries[n - 1].id) == listed {
                before.push(n - 1)
            } else {
                before
            }
        }
    }

    /// The embeddings of the records at `idx`, concatenated in that order.
    pub open spec fn gather(self, idx: Seq<int>) -> Seq<u32>
        decreases idx.len(),
    {
        if idx.len() == 0 {
            Seq::empty()
        } else {
            self.gather(idx.drop_last()) + self.chunk(idx.last())
        }
    }

    /// The store without the records whose identifier is among `ids`.
    pub open spec fn without(self, ids: Seq<Seq<char>>) -> StoreState {
        let keep = self.pick(ids, false, self.entries.len());
        StoreState {
            entries: keep.map_values(|i: int| self.entries[i]),
            matrix: self.gather(keep),
            ..self
        }
    }
}

/// The store after upserting `batch` one record after another.
pub open spec fn upsert_all(s: StoreState, batch: Seq<Data>) -> StoreState
    decreases batch.len(),
{
    if batch.len() == 0 {
        s
    } else {
        let d = batch.last();
        upsert_all(s, batch.drop_last()).upsert_one(d.id@, d.vector@, d.fields@)
    }
}

/// Identifiers of `batch` that were already present when their turn came.
pub open spec fn updated_ids(s: StoreState, batch: Seq<Data>) -> Seq<Seq<char>>
    decreases batch.len(),
{
    if batch.len() == 0 {
        Seq::empty()
    } else {
        let before = updated_ids(s, batch.drop_last());
        if upsert_all(s, batch.drop_last()).has_id(batch.last().id@) {
            before.push(batch.last().id@)
        } else {
            before
        }
    }
}

/// Identifiers of `batch` that were new when their turn came.
pub open spec fn inserted_ids(s: StoreState, batch: Seq<Data>) -> Seq<Seq<char>>
    decreases batch.len(),
{
    if batch.len() == 0 {
        Seq::empty()
    } else {
        let before = inserted_ids(s, batch.drop_last());
        if upsert_all(s, batch.drop_last()).has_id(batch.last().id@) {
            before
        } else {
            before.push(batch.last().id@)
        }
    }
}

/// The ranking candidates among the first `n` records: record `i` is one
/// when the filter admitted it and its score passes the threshold.
pub open spec fn candidates(scores: Seq<u32>, better_than: Option<u32>, admitted: Seq<bool>, n: nat) -> Seq<
    ScoredIndex,
>
    decreases n,
{
    if n == 0 {
        Seq::empty()
    } else {
        let before = candidates(scores, better_than, admitted, (n - 1) as nat);
        if admitted[n - 1] && passes_threshold(scores[n - 1], better_than) {
            before.push(ScoredIndex { score: scores[n - 1], index: (n - 1) as usize })
        } else {
            before
        }
    }
}
pub(crate) proof fn lemma_pick_in_range(s: StoreState, ids: Seq<Seq<char>>, listed: bool, n: nat)
    ensures
        forall|k: int| 0 <= k < s.pick(ids, listed, n).len() ==> 0 <= #[trigger] s.pick(ids, listed, n)[k] < n,
        s.pick(ids, listed, n).len() <= n,
    decreases n,
{
    if n > 0 {
        lemma_pick_in_range(s, ids, listed, (n - 1) as nat);
    }
}

pub(crate) proof fn lemma_chunk_len(s: StoreState, i: int)
    requires
        s.wf(),
        0 <= i < s.entries.len(),
    ensures
        s.chunk(i).len() == s.dim,
{
    assert((i + 1) * s.dim <= s.entries.len() * s.dim) by (nonlinear_arith)
        requires 0 <= i < s.entries.len();
    assert((i + 1) * s.dim == i * s.dim + s.dim) by (nonlinear_arith);
    assert(0 <= i * s.dim) by (nonlinear_arith)
        requires 0 <= i;
}

pub(crate) proof fn lemma_gather_len(s: StoreState, idx: Seq<int>)
    requires
        s.wf(),
        forall|k: int| 0 <= k < idx.len() ==> 0 <= #[trigger] idx[k] < s.entries.len(),
    ensures
        s.gather(idx).len() == idx.len() * s.dim,
    decreases idx.len(),
{
    if idx.len() > 0 {
        lemma_gather_len(s, idx.drop_last());
        lemma_chunk_len(s, idx.last());
        assert(idx.len() * s.dim == (idx.len() - 1) * s.dim + s.dim) by (nonlinear_arith);
    }
}
pub(crate) proof fn lemma_candidates_props(scores: Seq<u32>, better_than: Option<u32>, admitted: Seq<bool>, n: nat)
    requires
        n <= scores.len(),
        n <= admitted.len(),
        n <= usize::MAX,
    ensures
        forall|k: int| 0 <= k < candidates(scores, better_than, admitted, n).len() ==> {
            let c = #[trigger] candidates(scores, better_than, admitted, n)[k];
            &&& c.index < n
            &&& admitted[c.index as int]
            &&& c.score == scores[c.index as int]
            &&& passes_threshold(c.score, better_than)
        },
    decreases n,
{
    if n > 0 {
        lemma_candidates_props(scores, better_than, admitted, (n - 1) as nat);
        let b = candidates(scores, better_than, admitted, (n - 1) as nat);
        let c = candidates(scores, better_than, admitted, n);
        assert forall|k: int| 0 <= k < c.len() implies {
            let x = #[trigger] c[k];
            &&& x.index < n
            &&& admitted[x.index as int]
            &&& x.score == scores[x.index as int]
            &&& passes_threshold(x.score, better_than)
        } by {
            if k < b.len() {
                assert(c[k] == b[k]);
            } else {
                assert(c[k] == ScoredIndex { score: scores[n - 1], index: (n - 1) as usize });
            }
        }
    }
}
proof fn lemma_index_of(s: StoreState, i: int)
    requires
        0 <= i < s.entries.len(),
        forall|j: int| 0 <= j < i ==> #[trigger] s.entries[j].id != s.entries[i].id,
    ensures
        s.has_id(s.entries[i].id),
        s.index_of(s.entries[i].id) == i,
{
    let id = s.entries[i].id;
    assert(s.has_id(id));
    let c = s.index_of(id);
    if c < i {
        assert(s.entries[c].id != id);
    } else if c > i {
        assert(s.entries[i].id != id);
    }
}

proof fn lemma_first_index(s: StoreState, id: Seq<char>)
    requires
        s.has_id(id),
    ensures
        0 <= s.index_of(id) < s.entries.len(),
        s.entries[s.index_of(id)].id == id,
        forall|j: int| 0 <= j < s.index_of(id) ==> #[trigger] s.entries[j].id != id,
    decreases s.entries.len(),
{
    let w = choose|i: int| 0 <= i < s.entries.len() && #[trigger] s.entries[i].id == id;
    let t = StoreState { entries: s.entries.take(w), ..s };
    if t.has_id(id) {
        lemma_first_index(t, id);
        let i = t.index_of(id);
        assert(s.entries[i] == t.entries[i]);
        assert forall|j: int| 0 <= j < i implies #[trigger] s.entries[j].id != id by {
            assert(s.entries[j] == t.entries[j]);
        }
        lemma_index_of(s, i);
    } else {
        assert forall|j: int| 0 <= j < w implies #[trigger] s.entries[j].id != id by {
            assert(s.entries[j] == t.entries[j]);
            if s.entries[j].id == id {
                assert(t.entries[j].id == id);
            }
        }
        lemma_index_of(s, w);
    }
}

proof fn lemma_upsert_one(s: StoreState, id: Seq<char>, vector: Seq<u32>, fields: Map<String, serde_json::Value>)
    requires
        s.wf(),
        vector.len() == s.dim,
    ensures
        s.upsert_one(id, vector, fields).wf(),
        s.upsert_one(id, vector, fields).dim == s.dim,
        s.upsert_one(id, vector, fields).has_id(id),
        s.upsert_one(id, vector, fields).entries.len() == s.entries.len() + if s.has_id(id) {
            0int
        } else {
            1int
        },
{
    let t = s.upsert_one(id, vector, fields);
    if s.has_id(id) {
        lemma_first_index(s, id);
        let i = s.index_of(id);
        assert((i + 1) * s.dim <= s.entries.len() * s.dim) by (nonlinear_arith)
            requires 0 <= i < s.entries.len();
        assert((i + 1) * s.dim == i * s.dim + s.dim) by (nonlinear_arith);
        assert(0 <= i * s.dim) by (nonlinear_arith)
            requires 0 <= i;
        assert(t.entries[i].id == id);
    } else {
        assert((s.entries.len() + 1) * s.dim == s.entries.len() * s.dim + s.dim) by (nonlinear_arith);
        assert(t.entries[s.entries.len() as int].id == id);
    }
}

/// Upserting a record with an identifier that is already present (here,
/// just upserted) adds no record: the count stays, the record keeps its
/// position and takes the later embedding and fields wholesale, and every
/// other record is untouched.
pub proof fn lemma_upsert_same_id_twice(s: StoreState, d1: Data, d2: Data)
    requires
        s.wf(),
        d1.id@ == d2.id@,
        d1.vector@.len() == s.dim,
        d2.vector@.len() == s.dim,
    ensures
        ({
            let t1 = upsert_all(s, seq![d1]);
            let t2 = upsert_all(t1, seq![d2]);
            let i = t2.index_of(d2.id@);
            &&& t2.wf()
            &&& t2.entries.len() == t1.entries.len()
            &&& t1.entries.len() <= s.entries.len() + 1
            &&& t2.has_id(d2.id@)
            &&& i == t1.index_of(d1.id@)
            &&& 0 <= i < t2.entries.len()
            &&& t2.entries[i] == (Entry { id: d2.id@, fields: d2.fields@ })
            &&& t2.chunk(i) == d2.vector@
            &&& forall|j: int|
                0 <= j < t2.entries.len() && j != i ==> t2.entries[j] == t1.entries[j] && #[trigger] t2.chunk(j)
                    == t1.chunk(j)
        }),
{
    let t1 = upsert_all(s, seq![d1]);
    assert(seq![d1].drop_last() =~= Seq::<Data>::empty());
    assert(seq![d1].len() == 1 && seq![d1].last() == d1);
    assert(upsert_all(s, Seq::<Data>::empty()) == s);
    assert(t1 == s.upsert_one(d1.id@, d1.vector@, d1.fields@));
    let t2 = upsert_all(t1, seq![d2]);
    assert(seq![d2].drop_last() =~= Seq::<Data>::empty());
    assert(seq![d2].len() == 1 && seq![d2].last() == d2);
    assert(upsert_all(t1, Seq::<Data>::empty()) == t1);
    assert(t2 == t1.upsert_one(d2.id@, d2.vector@, d2.fields@));
    lemma_upsert_one(s, d1.id@, d1.vector@, d1.fields@);
    lemma_upsert_one(t1, d2.id@, d2.vector@, d2.fields@);
    let id = d2.id@;
    lemma_first_index(t1, id);
    let i = t1.index_of(id);
    let dim = s.dim;
    assert forall|j: int| 0 <= j < i implies #[trigger] t2.entries[j].id != id by {
        assert(t2.entries[j] == t1.entries[j]);
    }
    lemma_index_of(t2, i);
    assert((i + 1) * dim <= t1.entries.len() * dim) by (nonlinear_arith)
        requires 0 <= i < t1.entries.len();
    assert((i + 1) * dim == i * dim + dim) by (nonlinear_arith);
    assert(0 <= i * dim) by (nonlinear_arith)
        requires 0 <= i;
    assert(t2.chunk(i) =~= d2.vector@);
    assert forall|j: int| 0 <= j < t2.entries.len() && j != i implies t2.entries[j] == t1.entries[j]
        && #[trigger] t2.chunk(j) == t1.chunk(j) by {
        assert((j + 1) * dim == j * dim + dim) by (nonlinear_arith);
        assert(0 <= j * dim) by (nonlinear_arith)
            requires 0 <= j;
        if j < i {
            assert((j + 1) * dim <= i * dim) by (nonlinear_arith)
                requires j < i, 0 <= dim;
        } else {
            assert((i + 1) * dim <= j * dim) by (nonlinear_arith)
                requires i < j, 0 <= dim;
            assert((j + 1) * dim <= t1.entries.len() * dim) by (nonlinear_arith)
                requires 0 <= j < t1.entries.len(), 0 <= dim;
        }
        assert(t2.chunk(j) =~= t1.chunk(j));
    }
}

/// Upserts (with embeddings of the store's dimension) and deletes keep
/// exactly one embedding per record in the matrix.
pub proof fn lemma_matrix_matches_records(s: StoreState, batch: Seq<Data>, ids: Seq<Seq<char>>)
    requires
        s.wf(),
        forall|i: int| 0 <= i < batch.len() ==> #[trigger] batch[i].vector@.len() == s.dim,
    ensures
        upsert_all(s, batch).wf(),
        upsert_all(s, batch).dim == s.dim,
        s.without(ids).wf(),
    decreases batch.len(),
{
    if batch.len() > 0 {
        let prefix = batch.drop_last();
        assert forall|i: int| 0 <= i < prefix.len() implies #[trigger] prefix[i].vector@.len() == s.dim by {
            assert(prefix[i] == batch[i]);
        }
        lemma_matrix_matches_records(s, prefix, ids);
        let d = batch.last();
        assert(d == batch[batch.len() - 1]);
        lemma_upsert_one(upsert_all(s, prefix), d.id@, d.vector@, d.fields@);
    }
    let keep = s.pick(ids, false, s.entries.len());
    lemma_pick_in_range(s, ids, false, s.entries.len());
    lemma_gather_len(s, keep);
}

/// What opening a snapshot gives: the records `entries` with the matrix
/// that `text` decodes to, provided `text` is base64 (else `Io`) and the
/// matrix holds exactly one embedding per record (else `CorruptStore`).
pub open spec fn open_result(dim: nat, entries: Seq<Entry>, text: Seq<char>, additional: Map<
    String,
    serde_json::Value,
>) -> Result<StoreState, DbError> {
    if exists|b: Seq<u8>| #[trigger] base64_of(b) == text {
        let m = le_words(choose|b: Seq<u8>| #[trigger] base64_of(b) == text);
        if m.len() == entries.len() * dim {
            Ok(StoreState { dim, entries, matrix: m, additional })
        } else {
            Err(
                DbError::CorruptStore {
                    expected: (entries.len() * dim) as usize,
                    actual: m.len() as usize,
                },
            )
        }
    } else {
        Err(DbError::Io)
    }
}

/// Saving then opening gives the store back: the saved matrix text, with
/// the same dimension, records and metadata, opens to exactly the store it
/// was taken from.
pub proof fn lemma_snapshot_round_trip(s: StoreState, text: Seq<char>)
    requires
        s.wf(),
        encodes(text, s.matrix),
    ensures
        open_result(s.dim, s.entries, text, s.additional) == Ok::<StoreState, DbError>(s),
{
    let b = choose|b: Seq<u8>| #[trigger] base64_of(b) == text;
    assert(base64_of(le_bytes(s.matrix)) == text);
    assert(le_words(b) == s.matrix);
}

} // verus!
