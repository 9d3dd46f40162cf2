//! What each storage command does to a store, and what it answers.
use vstd::prelude::*;
use vstd::string::StringExecFns;
use crate::command::{
    CommandResponse, Hdel, Hexist, Hget, Hgetall, Hmdel, Hmexist, Hmget, Hmset, Hset, RequestModel, ResponseModel,
    keys_view, ok_model,
};
use crate::error::KvError;
use crate::storage::{
    Contents, Storage, after_del, after_set, lists_table, set_all, stored, table_of,
};
use crate::value::{Kvpair, PairModel, Value, ValueModel, pairs_view, values_view};

verus! {

/// The value found, or the default value where there is none.
pub open spec fn or_null(o: Option<ValueModel>) -> ValueModel {
    match o {
        Some(v) => v,
        None => ValueModel::Null,
    }
}

/// The answer to a lookup of `key` in `table` that found nothing.
pub open spec fn not_found(table: Seq<char>, key: Seq<char>) -> ResponseModel {
    ResponseModel {
        status: 404,
        message: "Not found: "@ + ("table "@ + table + ", key "@ + key),
        values: Seq::empty(),
        pairs: Seq::empty(),
    }
}

/// The values under `keys` in `table`, the default value for each absent one.
pub open spec fn lookup_all(m: Contents, table: Seq<char>, keys: Seq<Seq<char>>) -> Seq<ValueModel> {
    keys.map_values(|k: Seq<char>| or_null(stored(m, table, k)))
}

/// For each of `keys`, whether `table` holds it.
pub open spec fn exist_all(m: Contents, table: Seq<char>, keys: Seq<Seq<char>>) -> Seq<ValueModel> {
    keys.map_values(|k: Seq<char>| ValueModel::Bool(stored(m, table, k) is Some))
}

/// What each set of `set_all` found before it.
pub open spec fn set_prevs(m: Contents, table: Seq<char>, ps: Seq<PairModel>) -> Seq<ValueModel>
    decreases ps.len(),
{
    if ps.len() == 0 {
        Seq::empty()
    } else {
        seq![or_null(stored(m, table, ps[0].key))] + set_prevs(
            after_set(m, table, ps[0].key, ps[0].value),
            table,
            ps.subrange(1, ps.len() as int),
        )
    }
}

/// The contents after each of `keys` is taken out of `table`, first to last.
pub open spec fn del_all(m: Contents, table: Seq<char>, keys: Seq<Seq<char>>) -> Contents
    decreases keys.len(),
{
    if keys.len() == 0 {
        m
    } else {
        del_all(after_del(m, table, keys[0]), table, keys.subrange(1, keys.len() as int))
    }
}

/// What each removal of `del_all` took out.
pub open spec fn del_prevs(m: Contents, table: Seq<char>, keys: Seq<Seq<char>>) -> Seq<ValueModel>
    decreases keys.len(),
{
    if keys.len() == 0 {
        Seq::empty()
    } else {
        seq![or_null(stored(m, table, keys[0]))] + del_prevs(
            after_del(m, table, keys[0]),
            table,
            keys.subrange(1, keys.len() as int),
        )
    }
}

/// Whether answering `r` and leaving `m2` is what storage command `c` does
/// to a store that held `m`. A publish/subscribe command is no storage
/// command: it is refused and changes nothing.
pub open spec fn command_effect(c: RequestModel, m: Contents, r: ResponseModel, m2: Contents) -> bool {
    match c {
        RequestModel::Hget { table, key } => {
            m2 == m && match stored(m, table, key) {
                Some(v) => r == ok_model(seq![v], Seq::empty()),
                None => r == not_found(table, key),
            }
        },
        RequestModel::Hgetall { table } => {
            &&& m2 == m
            &&& r.status == 200
            &&& r.message.len() == 0
            &&& r.values.len() == 0
            &&& lists_table(r.pairs, table_of(m, table))
        },
        RequestModel::Hset { table, pair } => {
            &&& m2 == after_set(m, table, pair.key, pair.value)
            &&& r == ok_model(seq![or_null(stored(m, table, pair.key))], Seq::empty())
        },
        RequestModel::Hdel { table, key } => {
            &&& m2 == after_del(m, table, key)
            &&& r == ok_model(seq![or_null(stored(m, table, key))], Seq::empty())
        },
        RequestModel::Hexist { table, key } => {
            &&& m2 == m
            &&& r == ok_model(
                seq![ValueModel::Bool(stored(m, table, key) is Some)],
                Seq::empty(),
            )
        },
        RequestModel::Hmget { table, keys } => {
            &&& m2 == m
            &&& r == ok_model(lookup_all(m, table, keys), Seq::empty())
        },
        RequestModel::Hmexist { table, keys } => {
            &&& m2 == m
            &&& r == ok_model(exist_all(m, table, keys), Seq::empty())
        },
        RequestModel::Hmset { table, pairs } => {
            &&& m2 == set_all(m, table, pairs)
            &&& r == ok_model(set_prevs(m, table, pairs), Seq::empty())
        },
        RequestModel::Hmdel { table, keys } => {
            &&& m2 == del_all(m, table, keys)
            &&& r == ok_model(del_prevs(m, table, keys), Seq::empty())
        },
        _ => m2 == m && r == not_storage(),
    }
}

/// The answer to a command that the store does not run.
pub open spec fn not_storage() -> ResponseModel {
    ResponseModel {
        status: 400,
        message: "Invalid command: "@ + "not a storage command"@,
        values: Seq::empty(),
        pairs: Seq::empty(),
    }
}

/// A storage command: run against a store, it answers with a response.
pub trait CommandService: Sized {
    /// Whether answering `r` and leaving `m2` is what this command does to a
    /// store that held `m`.
    spec fn effect(&self, m: Contents, r: ResponseModel, m2: Contents) -> bool;

    fn execute<S: Storage>(self, store: &mut S) -> (r: CommandResponse)
        requires
            old(store).well_formed(),
        ensures
            final(store).well_formed(),
            final(store).never_fails() == old(store).never_fails(),
            old(store).never_fails() ==> self.effect(old(store).contents(), r@, final(store).contents()),
            r@.status != 500 && r@.status != 400 ==> self.effect(
                old(store).contents(),
                r@,
                final(store).contents(),
            ),
    ;
}

fn single(v: Value) -> (r: CommandResponse)
    ensures
        r@ == ok_model(seq![v@], Seq::empty()),
{
    let ghost m = v@;
    let mut vs: Vec<Value> = Vec::new();
    vs.push(v);
    assert(values_view(vs@) =~= seq![m]);
    CommandResponse::with_values(vs)
}

fn or_default(o: Option<Value>) -> (r: Value)
    ensures
        r@ == or_null(crate::storage::option_view(o)),
{
    match o {
        Some(v) => v,
        None => Value::Null,
    }
}

impl CommandService for Hget {
    open spec fn effect(&self, m: Contents, r: ResponseModel, m2: Contents) -> bool {
        command_effect(RequestModel::Hget { table: self.table@, key: self.key@ }, m, r, m2)
    }

    fn execute<S: Storage>(self, store: &mut S) -> (r: CommandResponse) {
        match store.get(self.table.as_str(), self.key.as_str()) {
            Ok(Some(v)) => single(v),
            Ok(None) => {
                let what = String::from_str("table ").concat(self.table.as_str()).concat(
                    ", key ",
                ).concat(self.key.as_str());
                let r = CommandResponse::from_error(&KvError::NotFound(what));
                assert(r@.message =~= not_found(self.table@, self.key@).message);
                r
            },
            Err(e) => CommandResponse::from_error(&e),
        }
    }
}

impl CommandService for Hgetall {
    open spec fn effect(&self, m: Contents, r: ResponseModel, m2: Contents) -> bool {
        command_effect(RequestModel::Hgetall { table: self.table@ }, m, r, m2)
    }

    fn execute<S: Storage>(self, store: &mut S) -> (r: CommandResponse) {
        match store.get_all(self.table.as_str()) {
            Ok(pairs) => CommandResponse::with_pairs(pairs),
            Err(e) => CommandResponse::from_error(&e),
        }
    }
}

impl CommandService for Hset {
    open spec fn effect(&self, m: Contents, r: ResponseModel, m2: Contents) -> bool {
        command_effect(RequestModel::Hset { table: self.table@, pair: self.pair@ }, m, r, m2)
    }

    fn execute<S: Storage>(self, store: &mut S) -> (r: CommandResponse) {
        let Hset { table, pair } = self;
        let Kvpair { key, value } = pair;
        match store.set(table.as_str(), key.as_str(), value) {
            Ok(prev) => single(or_default(prev)),
            Err(e) => CommandResponse::from_error(&e),
        }
    }
}

impl CommandService for Hdel {
    open spec fn effect(&self, m: Contents, r: ResponseModel, m2: Contents) -> bool {
        command_effect(RequestModel::Hdel { table: self.table@, key: self.key@ }, m, r, m2)
    }

    fn execute<S: Storage>(self, store: &mut S) -> (r: CommandResponse) {
        match store.del(self.table.as_str(), self.key.as_str()) {
            Ok(prev) => single(or_default(prev)),
            Err(e) => CommandResponse::from_error(&e),
        }
    }
}

impl CommandService for Hexist {
    open spec fn effect(&self, m: Contents, r: ResponseModel, m2: Contents) -> bool {
        command_effect(RequestModel::Hexist { table: self.table@, key: self.key@ }, m, r, m2)
    }

    fn execute<S: Storage>(self, store: &mut S) -> (r: CommandResponse) {
        match store.contains(self.table.as_str(), self.key.as_str()) {
            Ok(b) => single(Value::Bool(b)),
            Err(e) => CommandResponse::from_error(&e),
        }
    }
}

proof fn lemma_set_all_step(m: Contents, t: Seq<char>, ps: Seq<PairModel>, i: int)
    requires
        0 <= i < ps.len(),
    ensures
        set_all(m, t, ps.subrange(i, ps.len() as int)) == set_all(
            after_set(m, t, ps[i].key, ps[i].value),
            t,
            ps.subrange(i + 1, ps.len() as int),
        ),
        set_prevs(m, t, ps.subrange(i, ps.len() as int)) == seq![or_null(stored(m, t, ps[i].key))]
            + set_prevs(after_set(m, t, ps[i].key, ps[i].value), t, ps.subrange(i + 1, ps.len() as int)),
{
    let s = ps.subrange(i, ps.len() as int);
    assert(s.subrange(1, s.len() as int) =~= ps.subrange(i + 1, ps.len() as int));
}

proof fn lemma_del_all_step(m: Contents, t: Seq<char>, ks: Seq<Seq<char>>, i: int)
    requires
        0 <= i < ks.len(),
    ensures
        del_all(m, t, ks.subrange(i, ks.len() as int)) == del_all(
            after_del(m, t, ks[i]),
            t,
            ks.subrange(i + 1, ks.len() as int),
        ),
        del_prevs(m, t, ks.subrange(i, ks.len() as int)) == seq![or_null(stored(m, t, ks[i]))]
            + del_prevs(after_del(m, t, ks[i]), t, ks.subrange(i + 1, ks.len() as int)),
{
    let s = ks.subrange(i, ks.len() as int);
    assert(s.subrange(1, s.len() as int) =~= ks.subrange(i + 1, ks.len() as int));
}

impl CommandService for Hmget {
    open spec fn effect(&self, m: Contents, r: ResponseModel, m2: Contents) -> bool {
        command_effect(RequestModel::Hmget { table: self.table@, keys: keys_view(self.keys@) }, m, r, m2)
    }

    fn execute<S: Storage>(self, store: &mut S) -> (r: CommandResponse) {
        let ghost ks = keys_view(self.keys@);
        let ghost m = store.contents();
        let mut vals: Vec<Value> = Vec::new();
        let mut i: usize = 0;
        while i < self.keys.len()
            invariant
                store.well_formed(),
                store.contents() == m,
                m == old(store).contents(),
                store.never_fails() == old(store).never_fails(),
                ks == keys_view(self.keys@),
                i <= self.keys@.len(),
                values_view(vals@) == lookup_all(m, self.table@, ks.subrange(0, i as int)),
            decreases self.keys@.len() - i,
        {
            match store.get(self.table.as_str(), self.keys[i].as_str()) {
                Ok(v) => {
                    let ghost before = values_view(vals@);
                    vals.push(or_default(v));
                    proof {
                        assert(ks[i as int] == self.keys@[i as int]@);
                        assert(values_view(vals@) =~= before.push(or_null(stored(m, self.table@, ks[i as int]))));
                        assert(lookup_all(m, self.table@, ks.subrange(0, i + 1)) =~= lookup_all(
                            m,
                            self.table@,
                            ks.subrange(0, i as int),
                        ).push(or_null(stored(m, self.table@, ks[i as int]))));
                    }
                },
                Err(e) => {
                    return CommandResponse::from_error(&e);
                },
            }
            i = i + 1;
        }
        assert(ks.subrange(0, i as int) =~= ks);
        CommandResponse::with_values(vals)
    }
}

impl CommandService for Hmexist {
    open spec fn effect(&self, m: Contents, r: ResponseModel, m2: Contents) -> bool {
        command_effect(RequestModel::Hmexist { table: self.table@, keys: keys_view(self.keys@) }, m, r, m2)
    }

    fn execute<S: Storage>(self, store: &mut S) -> (r: CommandResponse) {
        let ghost ks = keys_view(self.keys@);
        let ghost m = store.contents();
        let mut vals: Vec<Value> = Vec::new();
        let mut i: usize = 0;
        while i < self.keys.len()
            invariant
                store.well_formed(),
                store.contents() == m,
                m == old(store).contents(),
                store.never_fails() == old(store).never_fails(),
                ks == keys_view(self.keys@),
                i <= self.keys@.len(),
                values_view(vals@) == exist_all(
                    m,
                    self.table@,
                    ks.subrange(0, i as int),
                ),
            decreases self.keys@.len() - i,
        {
            match store.contains(self.table.as_str(), self.keys[i].as_str()) {
                Ok(b) => {
                    let ghost before = values_view(vals@);
                    vals.push(Value::Bool(b));
                    proof {
                        let x = ValueModel::Bool(stored(m, self.table@, ks[i as int]) is Some);
                        assert(ks[i as int] == self.keys@[i as int]@);
                        assert(values_view(vals@) =~= before.push(x));
                        assert(exist_all(m, self.table@, ks.subrange(0, i + 1)) =~= exist_all(
                            m,
                            self.table@,
                            ks.subrange(0, i as int),
                        ).push(x));
                    }
                },
                Err(e) => {
                    return CommandResponse::from_error(&e);
                },
            }
            i = i + 1;
        }
        assert(ks.subrange(0, i as int) =~= ks);
        CommandResponse::with_values(vals)
    }
}

impl CommandService for Hmset {
    open spec fn effect(&self, m: Contents, r: ResponseModel, m2: Contents) -> bool {
        command_effect(RequestModel::Hmset { table: self.table@, pairs: pairs_view(self.pairs@) }, m, r, m2)
    }

    fn execute<S: Storage>(self, store: &mut S) -> (r: CommandResponse) {
        let ghost ps = pairs_view(self.pairs@);
        let ghost m0 = store.contents();
        let ghost t = self.table@;
        let n = self.pairs.len();
        let mut vals: Vec<Value> = Vec::new();
        let mut i: usize = 0;
        assert(ps.subrange(0, n as int) =~= ps);
        assert(Seq::<ValueModel>::empty() + set_prevs(m0, t, ps) =~= set_prevs(m0, t, ps));
        while i < n
            invariant
                store.well_formed(),
                m0 == old(store).contents(),
                store.never_fails() == old(store).never_fails(),
                ps == pairs_view(self.pairs@),
                t == self.table@,
                n == ps.len(),
                i <= n,
                set_all(m0, t, ps) == set_all(
                    store.contents(),
                    t,
                    ps.subrange(i as int, n as int),
                ),
                set_prevs(m0, t, ps) == values_view(vals@) + set_prevs(
                    store.contents(),
                    t,
                    ps.subrange(i as int, n as int),
                ),
            decreases n - i,
        {
            let ghost cur = store.contents();
            let p = &self.pairs[i];
            match store.set(self.table.as_str(), p.key.as_str(), p.value.copy()) {
                Ok(prev) => {
                    let ghost before = values_view(vals@);
                    vals.push(or_default(prev));
                    proof {
                        lemma_set_all_step(cur, t, ps, i as int);
                        let tail = set_prevs(store.contents(), t, ps.subrange(i + 1, n as int));
                        assert(values_view(vals@) =~= before.push(or_null(stored(cur, t, ps[i as int].key))));
                        assert(before + (seq![or_null(stored(cur, t, ps[i as int].key))] + tail)
                            =~= values_view(vals@) + tail);
                    }
                },
                Err(e) => {
                    return CommandResponse::from_error(&e);
                },
            }
            i = i + 1;
        }
        proof {
            assert(ps.subrange(n as int, n as int) =~= Seq::<PairModel>::empty());
            assert(values_view(vals@) + Seq::<ValueModel>::empty() =~= values_view(vals@));
        }
        CommandResponse::with_values(vals)
    }
}

impl CommandService for Hmdel {
    open spec fn effect(&self, m: Contents, r: ResponseModel, m2: Contents) -> bool {
        command_effect(RequestModel::Hmdel { table: self.table@, keys: keys_view(self.keys@) }, m, r, m2)
    }

    fn execute<S: Storage>(self, store: &mut S) -> (r: CommandResponse) {
        let ghost ks = keys_view(self.keys@);
        let ghost m0 = store.contents();
        let ghost t = self.table@;
        let n = self.keys.len();
        let mut vals: Vec<Value> = Vec::new();
        let mut i: usize = 0;
        assert(ks.subrange(0, n as int) =~= ks);
        assert(Seq::<ValueModel>::empty() + del_prevs(m0, t, ks) =~= del_prevs(m0, t, ks));
        while i < n
            invariant
                store.well_formed(),
                m0 == old(store).contents(),
                store.never_fails() == old(store).never_fails(),
                ks == keys_view(self.keys@),
                t == self.table@,
                n == ks.len(),
                i <= n,
                del_all(m0, t, ks) == del_all(
                    store.contents(),
                    t,
                    ks.subrange(i as int, n as int),
                ),
                del_prevs(m0, t, ks) == values_view(vals@) + del_prevs(
                    store.contents(),
                    t,
                    ks.subrange(i as int, n as int),
                ),
            decreases n - i,
        {
            let ghost cur = store.contents();
            match store.del(self.table.as_str(), self.keys[i].as_str()) {
                Ok(prev) => {
                    let ghost before = values_view(vals@);
                    vals.push(or_default(prev));
                    proof {
                        lemma_del_all_step(cur, t, ks, i as int);
                        let tail = del_prevs(store.contents(), t, ks.subrange(i + 1, n as int));
                        assert(values_view(vals@) =~= before.push(or_null(stored(cur, t, ks[i as int]))));
                        assert(before + (seq![or_null(stored(cur, t, ks[i as int]))] + tail)
                            =~= values_view(vals@) + tail);
                    }
                },
                Err(e) => {
                    return CommandResponse::from_error(&e);
                },
            }
            i = i + 1;
        }
        proof {
            assert(ks.subrange(n as int, n as int) =~= Seq::<Seq<char>>::empty());
            assert(values_view(vals@) + Seq::<ValueModel>::empty() =~= values_view(vals@));
        }
        CommandResponse::with_values(vals)
    }
}

} // verus!
