//! Table-scoped key/value storage: the `Storage` contract and an in-memory
//! backend.
use vstd::prelude::*;
use crate::error::KvError;
use crate::value::{Kvpair, PairModel, Value, ValueModel, pairs_view};

verus! {

/// What a store holds: the value under each (table, key).
pub type Contents = Map<(Seq<char>, Seq<char>), ValueModel>;

/// The value under `key` in `table`, if any.
pub open spec fn stored(m: Contents, table: Seq<char>, key: Seq<char>) -> Option<ValueModel> {
    if m.contains_key((table, key)) {
        Some(m[(table, key)])
    } else {
        None
    }
}

/// The contents after `value` is put under `key` in `table`.
pub open spec fn after_set(m: Contents, table: Seq<char>, key: Seq<char>, value: ValueModel) -> Contents {
    m.insert((table, key), value)
}

/// The contents after `key` is taken out of `table`.
pub open spec fn after_del(m: Contents, table: Seq<char>, key: Seq<char>) -> Contents {
    m.remove((table, key))
}

/// The contents after each of `ps` is set in `table`, first to last.
pub open spec fn set_all(m: Contents, table: Seq<char>, ps: Seq<PairModel>) -> Contents
    decreases ps.len(),
{
    if ps.len() == 0 {
        m
    } else {
        set_all(after_set(m, table, ps[0].key, ps[0].value), table, ps.subrange(1, ps.len() as int))
    }
}

/// The pairs of `table`, as a map from key to value.
pub open spec fn table_of(m: Contents, table: Seq<char>) -> Map<Seq<char>, ValueModel> {
    Map::new(|k: Seq<char>| m.contains_key((table, k)), |k: Seq<char>| m[(table, k)])
}

/// `ps` lists the map `t`: each pair once, nothing else.
pub open spec fn lists_table(ps: Seq<PairModel>, t: Map<Seq<char>, ValueModel>) -> bool {
    &&& forall|i: int|
        0 <= i < ps.len() ==> t.contains_key(#[trigger] ps[i].key) && t[ps[i].key] == ps[i].value
    &&& forall|i: int, j: int| 0 <= i < j < ps.len() ==> #[trigger] ps[i].key != #[trigger] ps[j].key
    &&& forall|k: Seq<char>| #[trigger] t.contains_key(k) ==> exists|i: int| 0 <= i < ps.len() && ps[i].key == k
}

/// The model of an optional value.
pub open spec fn option_view(o: Option<Value>) -> Option<ValueModel> {
    match o {
        Some(v) => Some(v@),
        None => None,
    }
}

/// A single-pass sequence of pairs.
pub struct StorageIter<T> {
    data: T,
}

impl<T> StorageIter<T> {
    /// What the sequence was made from.
    pub closed spec fn source(&self) -> T {
        self.data
    }

    pub fn new(data: T) -> (r: Self)
        ensures
            r.source() == data,
    {
        StorageIter { data }
    }
}

impl StorageIter<Vec<Kvpair>> {
    /// The pairs still to come, in the order they come.
    pub open spec fn remaining(&self) -> Seq<PairModel> {
        pairs_view(self.source()@)
    }

    /// A single pass over `pairs`, first to last.
    pub fn over(pairs: Vec<Kvpair>) -> (r: Self)
        ensures
            r.remaining() == pairs_view(pairs@),
    {
        StorageIter::new(pairs)
    }

    /// The next pair, or `None` when all have come.
    pub fn next(&mut self) -> (r: Option<Kvpair>)
        ensures
            old(self).remaining().len() == 0 ==> r is None && final(self).remaining().len() == 0,
            old(self).remaining().len() > 0 ==> (r matches Some(p) && p@ == old(self).remaining()[0]
                && final(self).remaining() == old(self).remaining().drop_first()),
    {
        if self.data.len() == 0 {
            None
        } else {
            let p = self.data.remove(0);
            proof {
                assert(pairs_view(self.data@) =~= pairs_view(old(self).data@).drop_first());
            }
            Some(p)
        }
    }

    /// All the pairs still to come, in the order they come.
    pub fn collect(self) -> (r: Vec<Kvpair>)
        ensures
            pairs_view(r@) == self.remaining(),
    {
        let mut it = self;
        let ghost all = it.remaining();
        let mut out: Vec<Kvpair> = Vec::new();
        loop
            invariant
                all == pairs_view(out@) + it.remaining(),
            ensures
                all == pairs_view(out@),
            decreases it.remaining().len(),
        {
            let ghost before = it.remaining();
            match it.next() {
                None => {
                    assert(pairs_view(out@) + it.remaining() =~= pairs_view(out@));
                    break;
                },
                Some(p) => {
                    proof {
                        assert(before =~= seq![p@] + it.remaining());
                    }
                    let ghost prev = pairs_view(out@);
                    out.push(p);
                    proof {
                        assert(pairs_view(out@) =~= prev.push(p@));
                        assert(prev + (seq![p@] + it.remaining()) =~= pairs_view(out@) + it.remaining());
                    }
                },
            }
        }
        out
    }
}

/// A table-scoped key/value store.
pub trait Storage {
    /// The store's own invariant.
    spec fn well_formed(&self) -> bool;

    /// What the store holds.
    spec fn contents(&self) -> Contents;

    /// The store does no I/O, so none of its operations fails.
    spec fn never_fails(&self) -> bool;

    /// Table names that the store does not accept: an operation on one
    /// fails with `InvalidCommand`, and no other failure is that one.
    spec fn refuses(&self, table: Seq<char>) -> bool;

    /// The store holds something under `key` in `table` that it cannot
    /// read back as a value.
    spec fn unreadable(&self, table: Seq<char>, key: Seq<char>) -> bool;

    /// The store holds something under `table` that it cannot read back as
    /// a pair.
    spec fn table_unreadable(&self, table: Seq<char>) -> bool;

    /// The value under `key` in `table`.
    fn get(&self, table: &str, key: &str) -> (r: Result<Option<Value>, KvError>)
        requires
            self.well_formed(),
        ensures
            r matches Ok(v) ==> option_view(v) == stored(self.contents(), table@, key@),
            self.refuses(table@) <==> r matches Err(KvError::InvalidCommand(_)),
            r matches Err(KvError::DecodeError(_)) ==> self.unreadable(table@, key@),
            r matches Err(e) ==> e is InvalidCommand || e is DecodeError || e is StorageError,
            r is Err ==> !self.never_fails(),
    ;

    /// Puts `value` under `key` in `table`, creating the table if needed;
    /// gives the value that was there before.
    fn set(&mut self, table: &str, key: &str, value: Value) -> (r: Result<Option<Value>, KvError>)
        requires
            old(self).well_formed(),
        ensures
            final(self).well_formed(),
            final(self).never_fails() == old(self).never_fails(),
            r matches Ok(prev) ==> option_view(prev) == stored(old(self).contents(), table@, key@)
                && final(self).contents() == after_set(old(self).contents(), table@, key@, value@),
            old(self).refuses(table@) <==> r matches Err(KvError::InvalidCommand(_)),
            r matches Err(KvError::DecodeError(_)) ==> old(self).unreadable(table@, key@),
            r matches Err(e) ==> e is InvalidCommand || e is DecodeError || e is StorageError,
            r is Err ==> !old(self).never_fails(),
    ;

    /// Whether `table` holds `key`.
    fn contains(&self, table: &str, key: &str) -> (r: Result<bool, KvError>)
        requires
            self.well_formed(),
        ensures
            r matches Ok(b) ==> b == (stored(self.contents(), table@, key@) is Some),
            self.refuses(table@) <==> r matches Err(KvError::InvalidCommand(_)),
            r matches Err(KvError::DecodeError(_)) ==> self.unreadable(table@, key@),
            r matches Err(e) ==> e is InvalidCommand || e is DecodeError || e is StorageError,
            r is Err ==> !self.never_fails(),
    ;

    /// Takes `key` out of `table`; gives the value that was there.
    fn del(&mut self, table: &str, key: &str) -> (r: Result<Option<Value>, KvError>)
        requires
            old(self).well_formed(),
        ensures
            final(self).well_formed(),
            final(self).never_fails() == old(self).never_fails(),
            r matches Ok(prev) ==> option_view(prev) == stored(old(self).contents(), table@, key@)
                && final(self).contents() == after_del(old(self).contents(), table@, key@),
            old(self).refuses(table@) <==> r matches Err(KvError::InvalidCommand(_)),
            r matches Err(KvError::DecodeError(_)) ==> old(self).unreadable(table@, key@),
            r matches Err(e) ==> e is InvalidCommand || e is DecodeError || e is StorageError,
            r is Err ==> !old(self).never_fails(),
    ;

    /// Every pair of `table`, in no particular order.
    fn get_all(&self, table: &str) -> (r: Result<Vec<Kvpair>, KvError>)
        requires
            self.well_formed(),
        ensures
            r matches Ok(ps) ==> lists_table(pairs_view(ps@), table_of(self.contents(), table@)),
            self.refuses(table@) <==> r matches Err(KvError::InvalidCommand(_)),
            r matches Err(KvError::DecodeError(_)) ==> self.table_unreadable(table@),
            r matches Err(e) ==> e is InvalidCommand || e is DecodeError || e is StorageError,
            r is Err ==> !self.never_fails(),
    ;

    /// A single pass over every pair of `table`, in no particular order.
    fn get_iter(&self, table: &str) -> (r: Result<StorageIter<Vec<Kvpair>>, KvError>)
        requires
            self.well_formed(),
        ensures
            r matches Ok(it) ==> lists_table(it.remaining(), table_of(self.contents(), table@)),
            self.refuses(table@) <==> r matches Err(KvError::InvalidCommand(_)),
            r matches Err(KvError::DecodeError(_)) ==> self.table_unreadable(table@),
            r matches Err(e) ==> e is InvalidCommand || e is DecodeError || e is StorageError,
            r is Err ==> !self.never_fails(),
    ;
}

struct Entry {
    table: String,
    key: String,
    value: Value,
}

spec fn entry_key(e: Entry) -> (Seq<char>, Seq<char>) {
    (e.table@, e.key@)
}

/// A store held in memory.
pub struct MemTable {
    entries: Vec<Entry>,
    model: Ghost<Contents>,
}

impl MemTable {
    pub closed spec fn wf(&self) -> bool {
        let es = self.entries@;
        let m = self.model@;
        &&& forall|i: int|
            0 <= i < es.len() ==> m.contains_key(#[trigger] entry_key(es[i])) && m[entry_key(es[i])]
                == es[i].value@
        &&& forall|tk: (Seq<char>, Seq<char>)| #[trigger]
            m.contains_key(tk) ==> exists|i: int| 0 <= i < es.len() && entry_key(es[i]) == tk
        &&& forall|i: int, j: int|
            0 <= i < es.len() && 0 <= j < es.len() && i != j ==> entry_key(#[trigger] es[i])
                != entry_key(#[trigger] es[j])
    }

    pub closed spec fn model(&self) -> Contents {
        self.model@
    }

    /// An empty store.
    pub fn new() -> (r: MemTable)
        ensures
            r.wf(),
            r.model() == Map::<(Seq<char>, Seq<char>), ValueModel>::empty(),
            r.well_formed(),
            r.contents() == Map::<(Seq<char>, Seq<char>), ValueModel>::empty(),
    {
        MemTable { entries: Vec::new(), model: Ghost(Map::empty()) }
    }

    /// Where the entry for (`t`, `k`) stands.
    fn find(&self, t: &String, k: &String) -> (r: Option<usize>)
        requires
            self.wf(),
        ensures
            match r {
                Some(i) => i < self.entries@.len() && entry_key(self.entries@[i as int]) == (t@, k@),
                None => !self.model@.contains_key((t@, k@)),
            },
    {
        let mut i: usize = 0;
        while i < self.entries.len()
            invariant
                i <= self.entries@.len(),
                forall|j: int| 0 <= j < i ==> entry_key(#[trigger] self.entries@[j]) != (t@, k@),
            decreases self.entries@.len() - i,
        {
            if self.entries[i].table == *t && self.entries[i].key == *k {
                return Some(i);
            }
            i = i + 1;
        }
        None
    }
}

impl Default for MemTable {
    fn default() -> (r: MemTable)
        ensures
            r.wf(),
            r.model() == Map::<(Seq<char>, Seq<char>), ValueModel>::empty(),
            r.well_formed(),
            r.contents() == Map::<(Seq<char>, Seq<char>), ValueModel>::empty(),
    {
        MemTable::new()
    }
}

impl Storage for MemTable {
    closed spec fn well_formed(&self) -> bool {
        self.wf()
    }

    closed spec fn contents(&self) -> Contents {
        self.model@
    }

    open spec fn never_fails(&self) -> bool {
        true
    }

    open spec fn refuses(&self, table: Seq<char>) -> bool {
        false
    }

    open spec fn unreadable(&self, table: Seq<char>, key: Seq<char>) -> bool {
        false
    }

    open spec fn table_unreadable(&self, table: Seq<char>) -> bool {
        false
    }

    fn get(&self, table: &str, key: &str) -> (r: Result<Option<Value>, KvError>) {
        let t = table.to_string();
        let k = key.to_string();
        match self.find(&t, &k) {
            Some(i) => Ok(Some(self.entries[i].value.copy())),
            None => Ok(None),
        }
    }

    fn set(&mut self, table: &str, key: &str, value: Value) -> (r: Result<Option<Value>, KvError>) {
        let t = table.to_string();
        let k = key.to_string();
        let ghost vm = value@;
        let ghost tk = (t@, k@);
        match self.find(&t, &k) {
            Some(i) => {
                let mut e = Entry { table: t, key: k, value };
                self.entries.set_and_swap(i, &mut e);
                self.model = Ghost(self.model@.insert(tk, vm));
                proof {
                    let es = self.entries@;
                    assert forall|j: int| 0 <= j < es.len() implies self.model@.contains_key(
                        #[trigger] entry_key(es[j]),
                    ) && self.model@[entry_key(es[j])] == es[j].value@ by {
                        if j != i {
                            assert(es[j] == old(self).entries@[j]);
                            assert(entry_key(es[j]) != entry_key(old(self).entries@[i as int]));
                        }
                    }
                    assert forall|x: (Seq<char>, Seq<char>)| #[trigger]
                        self.model@.contains_key(x) implies exists|j: int|
                        0 <= j < es.len() && entry_key(es[j]) == x by {
                        if x != tk {
                            let j = choose|j: int|
                                0 <= j < old(self).entries@.len() && entry_key(old(self).entries@[j]) == x;
                            assert(es[j] == old(self).entries@[j]);
                        } else {
                            assert(entry_key(es[i as int]) == x);
                        }
                    }
                    assert forall|a: int, b: int|
                        0 <= a < es.len() && 0 <= b < es.len() && a != b implies entry_key(
                        #[trigger] es[a],
                    ) != entry_key(#[trigger] es[b]) by {
                        assert(entry_key(old(self).entries@[a]) != entry_key(old(self).entries@[b]));
                    }
                }
                Ok(Some(e.value))
            },
            None => {
                self.entries.push(Entry { table: t, key: k, value });
                self.model = Ghost(self.model@.insert(tk, vm));
                proof {
                    let es = self.entries@;
                    let n = old(self).entries@.len() as int;
                    assert forall|j: int| 0 <= j < es.len() implies self.model@.contains_key(
                        #[trigger] entry_key(es[j]),
                    ) && self.model@[entry_key(es[j])] == es[j].value@ by {
                        if j < n {
                            assert(es[j] == old(self).entries@[j]);
                        }
                    }
                    assert forall|x: (Seq<char>, Seq<char>)| #[trigger]
                        self.model@.contains_key(x) implies exists|j: int|
                        0 <= j < es.len() && entry_key(es[j]) == x by {
                        if x != tk {
                            let j = choose|j: int|
                                0 <= j < old(self).entries@.len() && entry_key(old(self).entries@[j]) == x;
                            assert(es[j] == old(self).entries@[j]);
                        } else {
                            assert(entry_key(es[n]) == x);
                        }
                    }
                    assert forall|a: int, b: int|
                        0 <= a < es.len() && 0 <= b < es.len() && a != b implies entry_key(
                        #[trigger] es[a],
                    ) != entry_key(#[trigger] es[b]) by {
                        if a < n && b < n {
                            assert(entry_key(old(self).entries@[a]) != entry_key(old(self).entries@[b]));
                        } else if a < n {
                            assert(old(self).model@.contains_key(entry_key(old(self).entries@[a])));
                        } else if b < n {
                            assert(old(self).model@.contains_key(entry_key(old(self).entries@[b])));
                        }
                    }
                }
                Ok(None)
            },
        }
    }

    fn contains(&self, table: &str, key: &str) -> (r: Result<bool, KvError>) {
        let t = table.to_string();
        let k = key.to_string();
        match self.find(&t, &k) {
            Some(i) => Ok(true),
            None => Ok(false),
        }
    }

    fn del(&mut self, table: &str, key: &str) -> (r: Result<Option<Value>, KvError>) {
        let t = table.to_string();
        let k = key.to_string();
        let ghost tk = (t@, k@);
        match self.find(&t, &k) {
            Some(i) => {
                let e = self.entries.remove(i);
                self.model = Ghost(self.model@.remove(tk));
                proof {
                    let es = self.entries@;
                    let os = old(self).entries@;
                    assert forall|j: int| 0 <= j < es.len() implies self.model@.contains_key(
                        #[trigger] entry_key(es[j]),
                    ) && self.model@[entry_key(es[j])] == es[j].value@ by {
                        if j < i {
                            assert(es[j] == os[j]);
                            assert(entry_key(os[j]) != entry_key(os[i as int]));
                        } else {
                            assert(es[j] == os[j + 1]);
                            assert(entry_key(os[j + 1]) != entry_key(os[i as int]));
                        }
                    }
                    assert forall|x: (Seq<char>, Seq<char>)| #[trigger]
                        self.model@.contains_key(x) implies exists|j: int|
                        0 <= j < es.len() && entry_key(es[j]) == x by {
                        let j = choose|j: int| 0 <= j < os.len() && entry_key(os[j]) == x;
                        if j < i {
                            assert(es[j] == os[j]);
                        } else {
                            assert(j != i);
                            assert(es[j - 1] == os[j]);
                        }
                    }
                    assert forall|a: int, b: int|
                        0 <= a < es.len() && 0 <= b < es.len() && a != b implies entry_key(
                        #[trigger] es[a],
                    ) != entry_key(#[trigger] es[b]) by {
                        let oa = if a < i { a } else { a + 1 };
                        let ob = if b < i { b } else { b + 1 };
                        assert(es[a] == os[oa]);
                        assert(es[b] == os[ob]);
                        assert(entry_key(os[oa]) != entry_key(os[ob]));
                    }
                }
                Ok(Some(e.value))
            },
            None => {
                proof {
                    assert(self.model@.remove(tk) =~= self.model@);
                }
                Ok(None)
            },
        }
    }

    fn get_all(&self, table: &str) -> (r: Result<Vec<Kvpair>, KvError>) {
        let t = table.to_string();
        let ghost tbl = table_of(self.model@, t@);
        let ghost es = self.entries@;
        let mut out: Vec<Kvpair> = Vec::new();
        let ghost mut idx: Seq<int> = Seq::empty();
        let mut i: usize = 0;
        while i < self.entries.len()
            invariant
                self.wf(),
                es == self.entries@,
                tbl == table_of(self.model@, t@),
                i <= es.len(),
                idx.len() == out@.len(),
                forall|x: int|
                    0 <= x < idx.len() ==> 0 <= #[trigger] idx[x] < i && es[idx[x]].table@ == t@
                        && out@[x]@ == (PairModel { key: es[idx[x]].key@, value: es[idx[x]].value@ }),
                forall|x: int, y: int| 0 <= x < y < idx.len() ==> #[trigger] idx[x] < #[trigger] idx[y],
                forall|j: int|
                    0 <= j < i && (#[trigger] es[j]).table@ == t@ ==> exists|x: int|
                        0 <= x < idx.len() && idx[x] == j,
            decreases es.len() - i,
        {
            if self.entries[i].table == t {
                let e = &self.entries[i];
                let p = Kvpair { key: e.key.clone(), value: e.value.copy() };
                out.push(p);
                proof {
                    let old_idx = idx;
                    idx = idx.push(i as int);
                    assert forall|j: int|
                        0 <= j < i + 1 && (#[trigger] es[j]).table@ == t@ implies exists|x: int|
                        0 <= x < idx.len() && idx[x] == j by {
                        if j == i {
                            assert(idx[idx.len() - 1] == j);
                        } else {
                            assert(es[j].table@ == t@);
                            let x = choose|x: int| 0 <= x < old_idx.len() && old_idx[x] == j;
                            assert(idx[x] == old_idx[x]);
                        }
                    }
                }
            }
            i = i + 1;
        }
        proof {
            let ps = pairs_view(out@);
            assert forall|a: int| 0 <= a < ps.len() implies tbl.contains_key(#[trigger] ps[a].key)
                && tbl[ps[a].key] == ps[a].value by {
                assert(out@[a]@ == ps[a]);
                assert(self.model@.contains_key(entry_key(es[idx[a]])));
            }
            assert forall|a: int, b: int| 0 <= a < b < ps.len() implies #[trigger] ps[a].key
                != #[trigger] ps[b].key by {
                assert(out@[a]@ == ps[a]);
                assert(out@[b]@ == ps[b]);
                assert(idx[a] < idx[b]);
                assert(entry_key(es[idx[a]]) != entry_key(es[idx[b]]));
            }
            assert forall|k: Seq<char>| #[trigger] tbl.contains_key(k) implies exists|a: int|
                0 <= a < ps.len() && ps[a].key == k by {
                assert(self.model@.contains_key((t@, k)));
                let j = choose|j: int| 0 <= j < es.len() && entry_key(es[j]) == (t@, k);
                assert(es[j].table@ == t@);
                let x = choose|x: int| 0 <= x < idx.len() && idx[x] == j;
                assert(out@[x]@ == ps[x]);
            }
        }
        Ok(out)
    }

    fn get_iter(&self, table: &str) -> (r: Result<StorageIter<Vec<Kvpair>>, KvError>) {
        let all = self.get_all(table)?;
        Ok(StorageIter::over(all))
    }
}

/// After `set(t, k, v)`, `get(t, k)` gives `v` and `contains(t, k)` holds.
pub proof fn lemma_set_then_get(m: Contents, t: Seq<char>, k: Seq<char>, v: ValueModel)
    ensures
        stored(after_set(m, t, k, v), t, k) == Some(v),
        stored(after_set(m, t, k, v), t, k) is Some,
{
}

/// A second `set(t, k, v2)` gives back the `v` that the first one put,
/// and leaves `v2` in its place.
pub proof fn lemma_overwrite(m: Contents, t: Seq<char>, k: Seq<char>, v: ValueModel, v2: ValueModel)
    ensures
        stored(after_set(m, t, k, v), t, k) == Some(v),
        stored(after_set(after_set(m, t, k, v), t, k, v2), t, k) == Some(v2),
{
}

/// No two of `ps` have the same key.
pub open spec fn distinct_keys(ps: Seq<PairModel>) -> bool {
    forall|i: int, j: int| 0 <= i < j < ps.len() ==> #[trigger] ps[i].key != #[trigger] ps[j].key
}

proof fn lemma_set_all_table(m: Contents, t: Seq<char>, ps: Seq<PairModel>, k: Seq<char>)
    requires
        distinct_keys(ps),
    ensures
        (exists|i: int| 0 <= i < ps.len() && ps[i].key == k) ==> ({
            let i = choose|i: int| 0 <= i < ps.len() && ps[i].key == k;
            stored(set_all(m, t, ps), t, k) == Some(ps[i].value)
        }),
        !(exists|i: int| 0 <= i < ps.len() && ps[i].key == k) ==> stored(set_all(m, t, ps), t, k)
            == stored(m, t, k),
    decreases ps.len(),
{
    if ps.len() > 0 {
        let rest = ps.subrange(1, ps.len() as int);
        let m1 = after_set(m, t, ps[0].key, ps[0].value);
        assert(distinct_keys(rest)) by {
            assert forall|a: int, b: int| 0 <= a < b < rest.len() implies #[trigger] rest[a].key
                != #[trigger] rest[b].key by {
                assert(rest[a] == ps[a + 1]);
                assert(rest[b] == ps[b + 1]);
            }
        }
        lemma_set_all_table(m1, t, rest, k);
        if exists|i: int| 0 <= i < ps.len() && ps[i].key == k {
            let i = choose|i: int| 0 <= i < ps.len() && ps[i].key == k;
            if i == 0 {
                assert(!exists|j: int| 0 <= j < rest.len() && rest[j].key == k) by {
                    if exists|j: int| 0 <= j < rest.len() && rest[j].key == k {
                        let j = choose|j: int| 0 <= j < rest.len() && rest[j].key == k;
                        assert(rest[j] == ps[j + 1]);
                    }
                }
            } else {
                assert(rest[i - 1] == ps[i]);
                assert(exists|j: int| 0 <= j < rest.len() && rest[j].key == k);
                let j = choose|j: int| 0 <= j < rest.len() && rest[j].key == k;
                assert(rest[j] == ps[j + 1]);
                assert(j + 1 == i) by {
                    if j + 1 != i {
                        if j + 1 < i {
                            assert(ps[j + 1].key != ps[i].key);
                        } else {
                            assert(ps[i].key != ps[j + 1].key);
                        }
                    }
                }
            }
        } else {
            assert(!exists|j: int| 0 <= j < rest.len() && rest[j].key == k) by {
                if exists|j: int| 0 <= j < rest.len() && rest[j].key == k {
                    let j = choose|j: int| 0 <= j < rest.len() && rest[j].key == k;
                    assert(rest[j] == ps[j + 1]);
                }
            }
            assert(ps[0].key != k);
        }
    }
}

/// Setting pairs with distinct keys into a table that holds nothing, then
/// listing the table (as `get_all` and `get_iter` do), yields exactly those
/// pairs, in some order.
pub proof fn lemma_iteration_complete(
    m: Contents,
    t: Seq<char>,
    ps: Seq<PairModel>,
    listed: Seq<PairModel>,
)
    requires
        table_of(m, t) == Map::<Seq<char>, ValueModel>::empty(),
        distinct_keys(ps),
        lists_table(listed, table_of(set_all(m, t, ps), t)),
    ensures
        listed.len() == ps.len(),
        forall|i: int| 0 <= i < ps.len() ==> listed.contains(#[trigger] ps[i]),
        forall|a: int| 0 <= a < listed.len() ==> ps.contains(#[trigger] listed[a]),
{
    let tbl = table_of(set_all(m, t, ps), t);
    assert forall|k: Seq<char>| !(#[trigger] m.contains_key((t, k))) by {
        if m.contains_key((t, k)) {
            assert(table_of(m, t).contains_key(k));
        }
    }
    assert forall|a: int| 0 <= a < listed.len() implies ps.contains(#[trigger] listed[a]) by {
        let k = listed[a].key;
        lemma_set_all_table(m, t, ps, k);
        assert(tbl.contains_key(k));
        assert(exists|i: int| 0 <= i < ps.len() && ps[i].key == k);
        let i = choose|i: int| 0 <= i < ps.len() && ps[i].key == k;
        assert(listed[a] == ps[i]);
    }
    assert forall|i: int| 0 <= i < ps.len() implies listed.contains(#[trigger] ps[i]) by {
        let k = ps[i].key;
        lemma_set_all_table(m, t, ps, k);
        let i2 = choose|i2: int| 0 <= i2 < ps.len() && ps[i2].key == k;
        assert(i2 == i) by {
            if i2 < i {
                assert(ps[i2].key != ps[i].key);
            } else if i < i2 {
                assert(ps[i].key != ps[i2].key);
            }
        }
        assert(tbl.contains_key(k));
        let a = choose|a: int| 0 <= a < listed.len() && listed[a].key == k;
        assert(listed[a] == ps[i]);
    }
    let lk = listed.map_values(|p: PairModel| p.key);
    let pk = ps.map_values(|p: PairModel| p.key);
    assert(lk.no_duplicates()) by {
        assert forall|a: int, b: int| 0 <= a < lk.len() && 0 <= b < lk.len() && a != b implies lk[a] != lk[b] by {
            if a < b {
                assert(listed[a].key != listed[b].key);
            } else {
                assert(listed[b].key != listed[a].key);
            }
        }
    }
    assert(pk.no_duplicates()) by {
        assert forall|a: int, b: int| 0 <= a < pk.len() && 0 <= b < pk.len() && a != b implies pk[a] != pk[b] by {
            if a < b {
                assert(ps[a].key != ps[b].key);
            } else {
                assert(ps[b].key != ps[a].key);
            }
        }
    }
    assert(lk.to_set() =~= pk.to_set()) by {
        assert forall|k: Seq<char>| lk.to_set().contains(k) <==> pk.to_set().contains(k) by {
            if lk.contains(k) {
                let a = choose|a: int| 0 <= a < lk.len() && lk[a] == k;
                assert(ps.contains(listed[a]));
                let i = choose|i: int| 0 <= i < ps.len() && ps[i] == listed[a];
                assert(pk[i] == k);
            }
            if pk.contains(k) {
                let i = choose|i: int| 0 <= i < pk.len() && pk[i] == k;
                assert(listed.contains(ps[i]));
                let a = choose|a: int| 0 <= a < listed.len() && listed[a] == ps[i];
                assert(lk[a] == k);
            }
        }
    }
    lk.unique_seq_to_set();
    pk.unique_seq_to_set();
}

} // verus!
