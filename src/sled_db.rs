//! A store kept on disk in a sled tree.
//!
//! Each pair is one entry of the tree: its key is the UTF-8 text
//! `"<table>:<key>"`, its value the codec's encoding of the value. A table
//! name with a `:` in it would make two pairs share an entry, so this store
//! refuses such names.
use vstd::prelude::*;
use vstd::string::{StrSliceExecFns, StringExecFns};
use vstd::slice::{slice_subrange, slice_to_vec};
use vstd::utf8::{encode_utf8, valid_utf8};
use crate::codec::value_from_wire;
use crate::error::KvError;
use crate::layout::{get_full_key, get_table_prefix};
use crate::storage::{
    Contents, Storage, StorageIter, after_del, after_set, table_of,
};
use crate::value::{Kvpair, Value, pairs_view};
use crate::wire::{starts_with, string_from_utf8};

verus! {

#[verifier::external_type_specification]
#[verifier::external_body]
pub struct ExDb(sled::Db);

/// What the tree holds: key bytes to value bytes.
pub uninterp spec fn tree_entries(db: sled::Db) -> Map<Seq<u8>, Seq<u8>>;

/// Relies on sled::open: opens, or creates, the tree stored under `path`.
#[verifier::external_body]
fn open_tree(path: &str) -> (r: Result<sled::Db, String>) {
    sled::open(path).map_err(|e| e.to_string())
}

/// Relies on sled's Tree::get: the value stored under `key`, if any.
#[verifier::external_body]
fn tree_get(db: &sled::Db, key: &[u8]) -> (r: Result<Option<Vec<u8>>, String>)
    ensures
        r matches Ok(v) ==> match v {
            Some(x) => tree_entries(*db).contains_key(key@) && tree_entries(*db)[key@] == x@,
            None => !tree_entries(*db).contains_key(key@),
        },
{
    match db.get(key) {
        Ok(v) => Ok(v.map(|x| x.to_vec())),
        Err(e) => Err(e.to_string()),
    }
}

/// Relies on sled's Tree::insert: stores `value` under `key`; gives the
/// value that was there.
#[verifier::external_body]
fn tree_insert(db: &mut sled::Db, key: &[u8], value: Vec<u8>) -> (r: Result<Option<Vec<u8>>, String>)
    ensures
        r matches Ok(v) ==> (match v {
            Some(x) => tree_entries(*old(db)).contains_key(key@) && tree_entries(*old(db))[key@] == x@,
            None => !tree_entries(*old(db)).contains_key(key@),
        }) && tree_entries(*final(db)) == tree_entries(*old(db)).insert(key@, value@),
{
    match db.insert(key, value) {
        Ok(v) => Ok(v.map(|x| x.to_vec())),
        Err(e) => Err(e.to_string()),
    }
}

/// Relies on sled's Tree::remove: takes out the entry under `key`; gives
/// its value.
#[verifier::external_body]
fn tree_remove(db: &mut sled::Db, key: &[u8]) -> (r: Result<Option<Vec<u8>>, String>)
    ensures
        r matches Ok(v) ==> (match v {
            Some(x) => tree_entries(*old(db)).contains_key(key@) && tree_entries(*old(db))[key@] == x@,
            None => !tree_entries(*old(db)).contains_key(key@),
        }) && tree_entries(*final(db)) == tree_entries(*old(db)).remove(key@),
{
    match db.remove(key) {
        Ok(v) => Ok(v.map(|x| x.to_vec())),
        Err(e) => Err(e.to_string()),
    }
}

/// Relies on sled's Tree::scan_prefix: every entry whose key starts with
/// `prefix`, each once.
#[verifier::external_body]
fn tree_scan(db: &sled::Db, prefix: &[u8]) -> (r: Result<Vec<(Vec<u8>, Vec<u8>)>, String>)
    ensures
        r matches Ok(es) ==> {
            &&& forall|i: int|
                0 <= i < es@.len() ==> starts_with((#[trigger] es@[i]).0@, prefix@)
                    && tree_entries(*db).contains_key(es@[i].0@) && tree_entries(*db)[es@[i].0@]
                    == es@[i].1@
            &&& forall|i: int, j: int|
                0 <= i < j < es@.len() ==> (#[trigger] es@[i]).0@ != (#[trigger] es@[j]).0@
            &&& forall|k: Seq<u8>|
                #[trigger] tree_entries(*db).contains_key(k) && starts_with(k, prefix@) ==> exists|
                    i: int,
                | 0 <= i < es@.len() && es@[i].0@ == k
        },
{
    db.scan_prefix(prefix).map(|item| item.map(|(k, v)| (k.to_vec(), v.to_vec()))).collect::<
        Result<Vec<_>, _>,
    >().map_err(|e| e.to_string())
}

/// A table name that this store accepts: it has no `:`.
pub open spec fn colon_free(t: Seq<char>) -> bool {
    !t.contains(':')
}

/// The tree key of `key` in `table`.
pub open spec fn entry_key(table: Seq<char>, key: Seq<char>) -> Seq<u8> {
    encode_utf8(table + ":"@ + key)
}

/// The pairs that a tree holding `es` stores: those under an accepted table
/// name whose value can be read.
pub open spec fn sled_contents(es: Map<Seq<u8>, Seq<u8>>) -> Contents {
    Map::new(
        |tk: (Seq<char>, Seq<char>)|
            colon_free(tk.0) && es.contains_key(entry_key(tk.0, tk.1)) && value_from_wire(
                es[entry_key(tk.0, tk.1)],
            ) is Some,
        |tk: (Seq<char>, Seq<char>)| value_from_wire(es[entry_key(tk.0, tk.1)])->0,
    )
}

pub proof fn lemma_encode_utf8_concat(a: Seq<char>, b: Seq<char>)
    ensures
        encode_utf8(a + b) == encode_utf8(a) + encode_utf8(b),
    decreases a.len(),
{
    if a.len() == 0 {
        assert(a + b =~= b);
        assert(Seq::<u8>::empty() + encode_utf8(b) =~= encode_utf8(b));
    } else {
        lemma_encode_utf8_concat(a.drop_first(), b);
        assert((a + b).drop_first() =~= a.drop_first() + b);
        assert((a + b)[0] == a[0]);
        assert(encode_utf8(a + b) =~= encode_utf8(a) + encode_utf8(b));
    }
}

proof fn lemma_encode_utf8_injective(a: Seq<char>, b: Seq<char>)
    requires
        encode_utf8(a) == encode_utf8(b),
    ensures
        a == b,
{
    vstd::utf8::encode_utf8_decode_utf8(a);
    vstd::utf8::encode_utf8_decode_utf8(b);
}

/// Two pairs share a tree key only if they are the same pair.
proof fn lemma_entry_key_injective(t1: Seq<char>, k1: Seq<char>, t2: Seq<char>, k2: Seq<char>)
    requires
        colon_free(t1),
        colon_free(t2),
        entry_key(t1, k1) == entry_key(t2, k2),
    ensures
        t1 == t2 && k1 == k2,
{
    lemma_encode_utf8_injective(t1 + ":"@ + k1, t2 + ":"@ + k2);
    let s = t1 + ":"@ + k1;
    reveal_strlit(":");
    assert(s == t2 + ":"@ + k2);
    if t1.len() < t2.len() {
        assert(s[t1.len() as int] == ':');
        assert(s[t1.len() as int] == t2[t1.len() as int]);
        assert(t2.contains(':'));
    } else if t2.len() < t1.len() {
        assert(s[t2.len() as int] == ':');
        assert(s[t2.len() as int] == t1[t2.len() as int]);
        assert(t1.contains(':'));
    }
    assert(t1 =~= s.subrange(0, t1.len() as int));
    assert(t2 =~= s.subrange(0, t2.len() as int));
    assert(k1 =~= s.subrange(t1.len() + 1 as int, s.len() as int));
    assert(k2 =~= s.subrange(t2.len() + 1 as int, s.len() as int));
}

/// Whether `t` has a `:` in it.
fn has_colon(t: &str) -> (r: bool)
    ensures
        r == t@.contains(':'),
{
    let n = t.unicode_len();
    let mut i: usize = 0;
    while i < n
        invariant
            n == t@.len(),
            i <= n,
            forall|j: int| 0 <= j < i ==> t@[j] != ':',
        decreases n - i,
    {
        if t.get_char(i) == ':' {
            return true;
        }
        i = i + 1;
    }
    false
}

/// A store kept on disk by sled. Its tree is written only through this
/// handle, which is not shared.
pub struct SledDb {
    db: sled::Db,
}

impl SledDb {
    /// Opens, or creates, the store under `path`.
    pub fn new(path: &str) -> (r: Result<SledDb, KvError>)
        ensures
            r matches Ok(s) ==> s.well_formed(),
            r matches Err(e) ==> e is StorageError,
    {
        match open_tree(path) {
            Ok(db) => Ok(SledDb { db }),
            Err(e) => Err(KvError::StorageError(e)),
        }
    }
}

fn bad_table() -> (r: KvError)
    ensures
        r is InvalidCommand,
{
    KvError::InvalidCommand(String::from_str("a table name may not hold ':'"))
}

/// The value that a stored entry holds: nothing where there is no entry,
/// `DecodeError` where its bytes are no value.
pub fn read_stored(v: Option<Vec<u8>>) -> (r: Result<Option<Value>, KvError>)
    ensures
        match v {
            None => r matches Ok(None),
            Some(b) => match value_from_wire(b@) {
                Some(m) => r matches Ok(Some(x)) && x@ == m,
                None => r matches Err(KvError::DecodeError(_)),
            },
        },
{
    match v {
        None => Ok(None),
        Some(b) => match Value::from_bytes(b.as_slice()) {
            Ok(x) => Ok(Some(x)),
            Err(e) => Err(e),
        },
    }
}

/// The tree key of `key` in `table` names an entry that holds no value.
pub open spec fn entry_unreadable(es: Map<Seq<u8>, Seq<u8>>, table: Seq<char>, key: Seq<char>) -> bool {
    colon_free(table) && es.contains_key(entry_key(table, key)) && value_from_wire(
        es[entry_key(table, key)],
    ) is None
}

/// Some entry under the prefix of `table` has a key or a value that cannot
/// be read.
pub open spec fn prefix_unreadable(es: Map<Seq<u8>, Seq<u8>>, table: Seq<char>) -> bool {
    let p = encode_utf8(table + ":"@);
    colon_free(table) && exists|kb: Seq<u8>|
        #[trigger] es.contains_key(kb) && starts_with(kb, p) && (!valid_utf8(
            kb.subrange(p.len() as int, kb.len() as int),
        ) || value_from_wire(es[kb]) is None)
}

impl Storage for SledDb {
    open spec fn well_formed(&self) -> bool {
        true
    }

    open spec fn refuses(&self, table: Seq<char>) -> bool {
        !colon_free(table)
    }

    closed spec fn unreadable(&self, table: Seq<char>, key: Seq<char>) -> bool {
        entry_unreadable(tree_entries(self.db), table, key)
    }

    closed spec fn table_unreadable(&self, table: Seq<char>) -> bool {
        prefix_unreadable(tree_entries(self.db), table)
    }

    closed spec fn contents(&self) -> Contents {
        sled_contents(tree_entries(self.db))
    }

    open spec fn never_fails(&self) -> bool {
        false
    }

    fn get(&self, table: &str, key: &str) -> (r: Result<Option<Value>, KvError>) {
        if has_colon(table) {
            return Err(bad_table());
        }
        let name = get_full_key(table, key);
        let got = match tree_get(&self.db, name.as_str().as_bytes()) {
            Ok(v) => v,
            Err(e) => {
                return Err(KvError::StorageError(e));
            },
        };
        let r = read_stored(got);
        proof {
            assert(entry_key(table@, key@) == encode_utf8(name@));
        }
        r
    }

    fn set(&mut self, table: &str, key: &str, value: Value) -> (r: Result<Option<Value>, KvError>) {
        if has_colon(table) {
            return Err(bad_table());
        }
        let name = get_full_key(table, key);
        let ghost ek = entry_key(table@, key@);
        let ghost vm = value@;
        let data = value.to_bytes();
        let prev = match tree_insert(&mut self.db, name.as_str().as_bytes(), data) {
            Ok(v) => v,
            Err(e) => {
                return Err(KvError::StorageError(e));
            },
        };
        proof {
            let old_es = tree_entries(old(self).db);
            let new_es = tree_entries(self.db);
            assert(ek == encode_utf8(name@));
            let want = after_set(sled_contents(old_es), table@, key@, vm);
            let got = sled_contents(new_es);
            assert forall|tk: (Seq<char>, Seq<char>)| #[trigger] got.contains_key(tk) == want.contains_key(tk) && (got.contains_key(tk) ==> got[tk] == want[tk]) by {
                if tk != (table@, key@) && colon_free(tk.0) && entry_key(tk.0, tk.1) == ek {
                    lemma_entry_key_injective(tk.0, tk.1, table@, key@);
                }
            }
            assert(got =~= want);
        }
        read_stored(prev)
    }

    fn contains(&self, table: &str, key: &str) -> (r: Result<bool, KvError>) {
        if has_colon(table) {
            return Err(bad_table());
        }
        let name = get_full_key(table, key);
        let got = match tree_get(&self.db, name.as_str().as_bytes()) {
            Ok(v) => v,
            Err(e) => {
                return Err(KvError::StorageError(e));
            },
        };
        proof {
            assert(entry_key(table@, key@) == encode_utf8(name@));
        }
        match read_stored(got) {
            Ok(v) => Ok(v.is_some()),
            Err(e) => Err(e),
        }
    }

    fn del(&mut self, table: &str, key: &str) -> (r: Result<Option<Value>, KvError>) {
        if has_colon(table) {
            return Err(bad_table());
        }
        let name = get_full_key(table, key);
        let ghost ek = entry_key(table@, key@);
        let prev = match tree_remove(&mut self.db, name.as_str().as_bytes()) {
            Ok(v) => v,
            Err(e) => {
                return Err(KvError::StorageError(e));
            },
        };
        proof {
            let old_es = tree_entries(old(self).db);
            let new_es = tree_entries(self.db);
            assert(ek == encode_utf8(name@));
            let want = after_del(sled_contents(old_es), table@, key@);
            let got = sled_contents(new_es);
            assert forall|tk: (Seq<char>, Seq<char>)| #[trigger] got.contains_key(tk) == want.contains_key(tk) && (got.contains_key(tk) ==> got[tk] == want[tk]) by {
                if tk != (table@, key@) && colon_free(tk.0) && entry_key(tk.0, tk.1) == ek {
                    lemma_entry_key_injective(tk.0, tk.1, table@, key@);
                }
            }
            assert(got =~= want);
        }
        read_stored(prev)
    }

    fn get_all(&self, table: &str) -> (r: Result<Vec<Kvpair>, KvError>) {
        if has_colon(table) {
            return Err(bad_table());
        }
        let prefix = get_table_prefix(table);
        let pb = prefix.as_str().as_bytes();
        let ghost es_map = tree_entries(self.db);
        let ghost tbl = table_of(self.contents(), table@);
        let es = match tree_scan(&self.db, pb) {
            Ok(es) => es,
            Err(e) => {
                return Err(KvError::StorageError(e));
            },
        };
        let plen = pb.len();
        let mut out: Vec<Kvpair> = Vec::new();
        let mut i: usize = 0;
        while i < es.len()
            invariant
                i <= es@.len(),
                out@.len() == i,
                colon_free(table@),
                pb@ == encode_utf8(table@ + ":"@),
                plen == pb@.len(),
                es_map == tree_entries(self.db),
                tbl == table_of(self.contents(), table@),
                forall|a: int|
                    0 <= a < es@.len() ==> starts_with((#[trigger] es@[a]).0@, pb@)
                        && es_map.contains_key(es@[a].0@) && es_map[es@[a].0@] == es@[a].1@,
                forall|a: int| #![trigger out@[a]]
                    0 <= a < i ==> entry_key(table@, out@[a].key@) == es@[a].0@ && tbl.contains_key(
                        out@[a].key@,
                    ) && tbl[out@[a].key@] == out@[a].value@,
            decreases es@.len() - i,
        {
            let (kb, vb) = (&es[i].0, &es[i].1);
            let rest = slice_to_vec(slice_subrange(kb.as_slice(), plen, kb.len()));
            let ghost rb = rest@;
            let key = match string_from_utf8(rest) {
                Some(k) => k,
                None => {
                    return Err(KvError::DecodeError(String::from_str("entry key is not UTF-8")));
                },
            };
            let value = match Value::from_bytes(vb.as_slice()) {
                Ok(v) => v,
                Err(e) => {
                    return Err(e);
                },
            };
            proof {
                lemma_encode_utf8_concat(table@ + ":"@, key@);
                vstd::utf8::decode_utf8_encode_utf8(rb);
                assert(kb@ =~= pb@ + rb);
                assert((table@ + ":"@) + key@ == table@ + ":"@ + key@);
                assert(entry_key(table@, key@) == kb@);
                assert(sled_contents(es_map).contains_key((table@, key@)));
            }
            out.push(Kvpair { key, value });
            i = i + 1;
        }
        proof {
            let ps = pairs_view(out@);
            assert forall|a: int| 0 <= a < ps.len() implies tbl.contains_key(#[trigger] ps[a].key)
                && tbl[ps[a].key] == ps[a].value by {
                assert(ps[a] == out@[a]@);
            }
            assert forall|a: int, b: int| 0 <= a < b < ps.len() implies #[trigger] ps[a].key
                != #[trigger] ps[b].key by {
                assert(ps[a] == out@[a]@);
                assert(ps[b] == out@[b]@);
            }
            assert forall|k: Seq<char>| #[trigger] tbl.contains_key(k) implies exists|a: int|
                0 <= a < ps.len() && ps[a].key == k by {
                let ek = entry_key(table@, k);
                lemma_encode_utf8_concat(table@ + ":"@, k);
                assert((table@ + ":"@) + k == table@ + ":"@ + k);
                assert(ek.subrange(0, pb@.len() as int) =~= pb@);
                assert(es_map.contains_key(ek));
                let a = choose|a: int| 0 <= a < es@.len() && es@[a].0@ == ek;
                assert(entry_key(table@, out@[a].key@) == ek);
                lemma_encode_utf8_concat(table@ + ":"@, out@[a].key@);
                assert((table@ + ":"@) + out@[a].key@ == table@ + ":"@ + out@[a].key@);
                assert(encode_utf8(out@[a].key@) =~= ek.subrange(pb@.len() as int, ek.len() as int));
                assert(encode_utf8(k) =~= ek.subrange(pb@.len() as int, ek.len() as int));
                lemma_encode_utf8_injective(out@[a].key@, k);
                assert(ps[a] == out@[a]@);
            }
        }
        Ok(out)
    }

    fn get_iter(&self, table: &str) -> (r: Result<StorageIter<Vec<Kvpair>>, KvError>) {
        let all = self.get_all(table)?;
        Ok(StorageIter::over(all))
    }
}

} // verus!
