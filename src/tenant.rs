//! A bounded cache of stores, one per tenant, evicting the least recently
//! used handle when it grows past its capacity.
//!
//! Eviction only drops the in-memory handle; nothing on disk is touched, and
//! an evicted tenant is not reloaded by a later lookup.
use crate::engine::NanoVectorDB;
use crate::model::StoreState;
use vstd::prelude::*;
use vstd::string::StringExecFns;

verus! {

/// The hyphenated text form of a UUID: 36 characters, hyphens at positions
/// 8, 13, 18 and 23, lowercase hexadecimal digits elsewhere.
pub open spec fn is_uuid_text(s: Seq<char>) -> bool {
    &&& s.len() == 36
    &&& forall|i: int|
        0 <= i < 36 ==> if i == 8 || i == 13 || i == 18 || i == 23 {
            #[trigger] s[i] == '-'
        } else {
            ('0' <= s[i] && s[i] <= '9') || ('a' <= s[i] && s[i] <= 'f')
        }
}

/// Relies on `uuid::Uuid::new_v4` (random bytes from the operating system)
/// and its `Display` impl, which writes the lowercase hyphenated form.
#[verifier::external_body]
fn fresh_tenant_id() -> (r: String)
    ensures
        is_uuid_text(r@),
{
    uuid::Uuid::new_v4().to_string()
}

/// Whether `id` occurs in `ids`.
pub open spec fn holds(ids: Seq<Seq<char>>, id: Seq<char>) -> bool {
    exists|i: int| 0 <= i < ids.len() && #[trigger] ids[i] == id
}

/// Every identifier occurs at most once.
pub open spec fn distinct(ids: Seq<Seq<char>>) -> bool {
    forall|i: int, j: int| 0 <= i < j < ids.len() ==> ids[i] != ids[j]
}

/// The position of `id` in `ids`.
pub open spec fn pos_of(ids: Seq<Seq<char>>, id: Seq<char>) -> int {
    choose|i: int| 0 <= i < ids.len() && ids[i] == id
}

/// `ids` without `id`, others in the same order.
pub open spec fn without_id(ids: Seq<Seq<char>>, id: Seq<char>) -> Seq<Seq<char>> {
    if holds(ids, id) {
        ids.remove(pos_of(ids, id))
    } else {
        ids
    }
}

/// The recency order after a lookup of `id`: a present tenant moves to the
/// most recent end; an absent one changes nothing.
pub open spec fn touched(ids: Seq<Seq<char>>, id: Seq<char>) -> Seq<Seq<char>> {
    if holds(ids, id) {
        without_id(ids, id).push(id)
    } else {
        ids
    }
}

/// The recency order after registering `id` with capacity `cap`: `id`
/// becomes the most recent, and the least recent is evicted when the count
/// exceeds `cap`.
pub open spec fn registered(ids: Seq<Seq<char>>, id: Seq<char>, cap: nat) -> Seq<Seq<char>> {
    let t = without_id(ids, id).push(id);
    if t.len() > cap {
        t.drop_first()
    } else {
        t
    }
}

/// A lookup keeps identifiers unique and their count unchanged.
pub proof fn lemma_touched_distinct(ids: Seq<Seq<char>>, id: Seq<char>)
    requires
        distinct(ids),
    ensures
        distinct(touched(ids, id)),
        touched(ids, id).len() == ids.len(),
{
    if holds(ids, id) {
        let i = pos_of(ids, id);
        let f = touched(ids, id);
        assert(f =~= ids.remove(i).push(id));
        assert forall|a: int, b: int| 0 <= a < b < f.len() implies f[a] != f[b] by {
            let aa = if a < i { a } else { a + 1 };
            if b == f.len() - 1 {
                assert(ids[aa] == f[a]);
                assert(ids[i] == id);
            } else {
                let bb = if b < i { b } else { b + 1 };
                assert(ids[aa] == f[a] && ids[bb] == f[b]);
            }
        }
    }
}

proof fn lemma_pos_of_distinct(ids: Seq<Seq<char>>, k: int)
    requires
        distinct(ids),
        0 <= k < ids.len(),
    ensures
        holds(ids, ids[k]),
        pos_of(ids, ids[k]) == k,
{
    assert(holds(ids, ids[k]));
    let p = pos_of(ids, ids[k]);
    if p < k {
        assert(ids[p] != ids[k]);
    } else if p > k {
        assert(ids[k] != ids[p]);
    }
}

/// Stores keyed by tenant identifier, least recently used first.
pub struct MultiTenantNanoVDB {
    embedding_dim: usize,
    max_capacity: usize,
    storage_dir: String,
    tenants: Vec<(String, NanoVectorDB)>,
}

impl MultiTenantNanoVDB {
    /// Tenant identifiers, least recently used first.
    pub closed spec fn ids(&self) -> Seq<Seq<char>> {
        self.tenants@.map_values(|t: (String, NanoVectorDB)| t.0@)
    }

    /// The store of the tenant at position `i` of `ids()`.
    pub closed spec fn store(&self, i: int) -> StoreState {
        self.tenants@[i].1@
    }

    /// The snapshot path of the tenant at position `i` of `ids()`.
    pub closed spec fn path_at(&self, i: int) -> Seq<char> {
        self.tenants@[i].1.path()
    }

    /// Every live tenant of `self` other than `id` was live in `before`, with
    /// the same store and snapshot path.
    pub open spec fn others_kept(&self, before: &Self, id: Seq<char>) -> bool {
        forall|j: int|
            0 <= j < self.ids().len() && #[trigger] self.ids()[j] != id ==> {
                let k = pos_of(before.ids(), self.ids()[j]);
                &&& holds(before.ids(), self.ids()[j])
                &&& self.store(j) == before.store(k)
                &&& self.path_at(j) == before.path_at(k)
            }
    }

    pub closed spec fn capacity(&self) -> nat {
        self.max_capacity as nat
    }

    pub closed spec fn dim(&self) -> nat {
        self.embedding_dim as nat
    }

    pub closed spec fn dir(&self) -> Seq<char> {
        self.storage_dir@
    }

    /// Identifiers are unique and within capacity.
    pub open spec fn wf(&self) -> bool {
        &&& distinct(self.ids())
        &&& self.ids().len() <= self.capacity()
    }

    /// An empty cache for stores of dimension `embedding_dim`, holding at
    /// most `max_capacity` handles, with snapshots under `storage_dir`.
    pub fn new(embedding_dim: usize, max_capacity: usize, storage_dir: &str) -> (r: Self)
        ensures
            r.wf(),
            r.ids() == Seq::<Seq<char>>::empty(),
            r.capacity() == max_capacity,
            r.dim() == embedding_dim,
            r.dir() == storage_dir@,
    {
        let r = MultiTenantNanoVDB {
            embedding_dim,
            max_capacity,
            storage_dir: storage_dir.to_owned(),
            tenants: Vec::new(),
        };
        assert(r.ids() =~= Seq::<Seq<char>>::empty());
        r
    }

    /// Number of live handles.
    pub fn len(&self) -> (r: usize)
        ensures
            r == self.ids().len(),
    {
        self.tenants.len()
    }

    /// Position of tenant `id`, if it has a live handle.
    fn find(&self, id: &str) -> (r: Option<usize>)
        requires
            self.wf(),
        ensures
            r is Some <==> holds(self.ids(), id@),
            r matches Some(i) ==> i < self.ids().len() && self.ids()[i as int] == id@ && i == pos_of(
                self.ids(),
                id@,
            ),
    {
        let key = id.to_owned();
        let n = self.tenants.len();
        let mut i: usize = 0;
        while i < n
            invariant
                0 <= i <= n,
                n == self.ids().len(),
                key@ == id@,
                self.wf(),
                forall|t: int| 0 <= t < i ==> #[trigger] self.ids()[t] != id@,
            decreases n - i,
        {
            assert(self.ids()[i as int] == self.tenants@[i as int].0@);
            if self.tenants[i].0 == key {
                proof {
                    let ids = self.ids();
                    assert(holds(ids, id@));
                    let p = pos_of(ids, id@);
                    assert(0 <= p < ids.len() && ids[p] == id@);
                    if p < i {
                        assert(ids[p] != ids[i as int]);
                    } else if p > i {
                        assert(ids[i as int] != ids[p]);
                    }
                }
                return Some(i);
            }
            i = i + 1;
        }
        None
    }

    /// Registers `db` as tenant `id`, most recently used, replacing a handle
    /// with the same identifier and evicting the least recently used handle
    /// if the count then exceeds the capacity.
    fn register(&mut self, id: String, db: NanoVectorDB)
        requires
            old(self).wf(),
        ensures
            final(self).wf(),
            final(self).ids() == registered(old(self).ids(), id@, old(self).capacity()),
            final(self).capacity() == old(self).capacity(),
            final(self).dim() == old(self).dim(),
            final(self).dir() == old(self).dir(),
            final(self).ids().len() > 0 ==> {
                let last = final(self).ids().len() - 1;
                &&& final(self).ids()[last] == id@
                &&& final(self).store(last) == db@
                &&& final(self).path_at(last) == db.path()
            },
            final(self).others_kept(old(self), id@),
    {
        let ghost ids0 = self.ids();
        let ghost o = self.tenants@;
        let ghost new_entry = (id, db);
        match self.find(id.as_str()) {
            Some(i) => {
                self.tenants.remove(i);
                assert(self.ids() =~= ids0.remove(i as int));
            },
            None => {},
        }
        let ghost ids1 = self.ids();
        let ghost g = self.tenants@;
        assert(ids1 == without_id(ids0, id@));
        assert forall|x: int| 0 <= x < g.len() implies (if holds(ids0, id@) && x >= pos_of(ids0, id@) {
            #[trigger] g[x] == o[x + 1]
        } else {
            g[x] == o[x]
        }) by {}
        self.tenants.push((id, db));
        assert(self.ids() =~= ids1.push(id@));
        if self.tenants.len() > self.max_capacity {
            self.tenants.remove(0);
            assert(self.ids() =~= ids1.push(id@).drop_first());
        }
        proof {
            let ft = self.tenants@;
            let tt = g.push(new_entry);
            assert(ft =~= tt || ft =~= tt.drop_first());
            assert forall|j: int| 0 <= j < self.ids().len() && #[trigger] self.ids()[j] != id@ implies {
                let k = pos_of(ids0, self.ids()[j]);
                &&& holds(ids0, self.ids()[j])
                &&& self.store(j) == old(self).store(k)
                &&& self.path_at(j) == old(self).path_at(k)
            } by {
                let x = if ft.len() < tt.len() { j + 1 } else { j };
                assert(ft[j] == tt[x]);
                assert(x < g.len()) by {
                    if x == g.len() {
                        assert(tt[x] == new_entry);
                        assert(self.ids()[j] == ft[j].0@);
                    }
                }
                let k = if holds(ids0, id@) && x >= pos_of(ids0, id@) { x + 1 } else { x };
                assert(ft[j] == o[k]);
                assert(ids0[k] == o[k].0@);
                assert(self.ids()[j] == ft[j].0@);
                lemma_pos_of_distinct(ids0, k);
            }
            let f = self.ids();
            assert forall|a: int, b: int| 0 <= a < b < f.len() implies f[a] != f[b] by {
                let t = ids1.push(id@);
                assert forall|x: int, y: int| 0 <= x < y < t.len() implies t[x] != t[y] by {
                    if y == t.len() - 1 {
                        if ids1[x] == id@ {
                            if holds(ids0, id@) {
                                let p = pos_of(ids0, id@);
                                if x < p {
                                    assert(ids0[x] == ids1[x]);
                                } else {
                                    assert(ids0[x + 1] == ids1[x]);
                                }
                            } else {
                                assert(ids0[x] == ids1[x]);
                            }
                        }
                    } else {
                        if holds(ids0, id@) {
                            let p = pos_of(ids0, id@);
                            let xx = if x < p { x } else { x + 1 };
                            let yy = if y < p { y } else { y + 1 };
                            assert(ids0[xx] == ids1[x] && ids0[yy] == ids1[y]);
                        } else {
                            assert(ids0[x] == ids1[x] && ids0[y] == ids1[y]);
                        }
                    }
                }
                if f.len() < t.len() {
                    assert(f[a] == t[a + 1] && f[b] == t[b + 1]);
                } else {
                    assert(f[a] == t[a] && f[b] == t[b]);
                }
            }
        }
    }

    /// Creates a tenant with a fresh random identifier and an empty store
    /// whose snapshot file is `<storage_dir>/<id>.json`, registers it as the
    /// most recently used, evicts the least recently used handle if the
    /// capacity is exceeded, and returns the identifier.
    pub fn create_tenant(&mut self) -> (r: String)
        requires
            old(self).wf(),
        ensures
            final(self).wf(),
            is_uuid_text(r@),
            final(self).ids() == registered(old(self).ids(), r@, old(self).capacity()),
            final(self).capacity() == old(self).capacity(),
            final(self).dim() == old(self).dim(),
            final(self).dir() == old(self).dir(),
            final(self).ids().len() > 0 ==> {
                let last = final(self).ids().len() - 1;
                &&& final(self).ids()[last] == r@
                &&& final(self).store(last) == (StoreState {
                    dim: old(self).dim(),
                    entries: Seq::empty(),
                    matrix: Seq::empty(),
                    additional: Map::empty(),
                })
                &&& final(self).path_at(last) == old(self).dir() + "/"@ + r@ + ".json"@
            },
            final(self).others_kept(old(self), r@),
    {
        let tenant_id = fresh_tenant_id();
        let path = self.storage_dir.clone().concat("/").concat(tenant_id.as_str()).concat(".json");
        let db = NanoVectorDB::new(self.embedding_dim, path.as_str());
        self.register(tenant_id.clone(), db);
        tenant_id
    }

    /// The store of tenant `tenant_id`, marked most recently used; `None`
    /// when the tenant has no live handle (never created, or evicted).
    #[verifier::spinoff_prover]
    pub fn get_tenant(&mut self, tenant_id: &str) -> (r: Option<&mut NanoVectorDB>)
        requires
            old(self).wf(),
        ensures
            r is Some <==> holds(old(self).ids(), tenant_id@),
            final(self).ids() == touched(old(self).ids(), tenant_id@),
            r matches Some(db) ==> (*db)@ == old(self).store(pos_of(old(self).ids(), tenant_id@)),
            final(self).capacity() == old(self).capacity(),
            final(self).dim() == old(self).dim(),
            final(self).dir() == old(self).dir(),
            final(self).others_kept(old(self), tenant_id@),
            final(self).wf(),
    {
        let ghost ids0 = self.ids();
        proof {
            lemma_touched_distinct(ids0, tenant_id@);
        }
        match self.find(tenant_id) {
            Some(i) => {
                let ghost o = self.tenants@;
                let t = self.tenants.remove(i);
                assert(self.ids() =~= ids0.remove(i as int));
                self.tenants.push(t);
                assert(self.ids() =~= ids0.remove(i as int).push(tenant_id@));
                proof {
                    let ft = self.tenants@;
                    assert forall|j: int| 0 <= j < self.ids().len() && #[trigger] self.ids()[j] != tenant_id@ implies {
                        let k = pos_of(ids0, self.ids()[j]);
                        &&& holds(ids0, self.ids()[j])
                        &&& self.store(j) == old(self).store(k)
                        &&& self.path_at(j) == old(self).path_at(k)
                    } by {
                        let k = if j < i { j } else { j + 1 };
                        assert(ft[j] == o[k]);
                        assert(ids0[k] == o[k].0@);
                        assert(self.ids()[j] == ft[j].0@);
                        lemma_pos_of_distinct(ids0, k);
                    }
                }
                let last = self.tenants.len() - 1;
                assert(self.others_kept(old(self), tenant_id@));
                Some(&mut self.tenants[last].1)
            },
            None => {
                proof {
                    assert forall|j: int| 0 <= j < self.ids().len() && #[trigger] self.ids()[j] != tenant_id@ implies {
                        let k = pos_of(ids0, self.ids()[j]);
                        &&& holds(ids0, self.ids()[j])
                        &&& self.store(j) == old(self).store(k)
                        &&& self.path_at(j) == old(self).path_at(k)
                    } by {
                        lemma_pos_of_distinct(ids0, j);
                    }
                }
                None
            },
        }
    }
}

} // verus!
