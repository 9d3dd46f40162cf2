//! The byte encoding of requests and responses.
//!
//! Every message is written in a fixed field order: integers as LEB128,
//! text and byte strings with a length in front, lists as a count followed
//! by their items, and each choice of variant as one tag byte. Each
//! `parse_*` spec function reads one item at the front of a byte string and
//! tells how many bytes it took; the exec readers agree with them exactly.
use vstd::prelude::*;
use crate::command::{
    CommandRequest, CommandResponse, Hdel, Hexist, Hget, Hgetall, Hmdel, Hmexist, Hmget, Hmset,
    Hset, Publish, RequestData, RequestModel, ResponseModel, Subscribe, Unsubscribe, keys_view,
};
use crate::error::KvError;
use vstd::string::StringExecFns;
use crate::value::{Kvpair, PairModel, Value, ValueModel, pairs_view, values_view};
use crate::wire::{
    blob, parse_blob, parse_text, parse_varint, put_varint, read_blob, read_text, read_varint,
    rest, text, varint, write_blob, write_text, lemma_parse_blob, lemma_parse_text,
    lemma_parse_varint, lemma_parse_varint_bounds,
};
use vstd::utf8::encode_utf8;

verus! {

/// `r` holds what `expect` says, with the item's model under `f` and the
/// end position counted from `pos`.
pub open spec fn reads_as<T, M>(
    r: Option<(T, usize)>,
    expect: Option<(M, int)>,
    pos: int,
    f: spec_fn(T) -> M,
) -> bool {
    match expect {
        Some((x, n)) => r matches Some((v, e)) && f(v) == x && e == pos + n,
        None => r is None,
    }
}

pub open spec fn value_wire(v: ValueModel) -> Seq<u8> {
    match v {
        ValueModel::Null => seq![0u8],
        ValueModel::Text(c) => seq![1u8] + text(c),
        ValueModel::Binary(b) => seq![2u8] + blob(b),
        ValueModel::Integer(i) => seq![3u8] + varint(i as u64),
        ValueModel::Bool(x) => seq![4u8, if x { 1u8 } else { 0u8 }],
    }
}

pub open spec fn parse_value(s: Seq<u8>) -> Option<(ValueModel, int)> {
    if s.len() == 0 {
        None
    } else {
        let t = s.subrange(1, s.len() as int);
        if s[0] == 0 {
            Some((ValueModel::Null, 1))
        } else if s[0] == 1 {
            match parse_text(t) {
                Some((c, n)) => Some((ValueModel::Text(c), n + 1)),
                None => None,
            }
        } else if s[0] == 2 {
            match parse_blob(t) {
                Some((b, n)) => Some((ValueModel::Binary(b), n + 1)),
                None => None,
            }
        } else if s[0] == 3 {
            match parse_varint(t) {
                Some((v, n)) => Some((ValueModel::Integer(v as i64), n + 1)),
                None => None,
            }
        } else if s[0] == 4 && t.len() >= 1 && t[0] <= 1 {
            Some((ValueModel::Bool(t[0] == 1), 2))
        } else {
            None
        }
    }
}

pub open spec fn value_parser() -> spec_fn(Seq<u8>) -> Option<(ValueModel, int)> {
    |s: Seq<u8>| parse_value(s)
}

pub open spec fn value_writer() -> spec_fn(ValueModel) -> Seq<u8> {
    |v: ValueModel| value_wire(v)
}

/// Text whose UTF-8 length a 64-bit count can hold.
pub open spec fn text_ok(c: Seq<char>) -> bool {
    encode_utf8(c).len() <= u64::MAX
}

/// A value that the encoding can carry.
pub open spec fn value_ok(v: ValueModel) -> bool {
    match v {
        ValueModel::Text(c) => text_ok(c),
        ValueModel::Binary(b) => b.len() <= u64::MAX,
        _ => true,
    }
}

pub proof fn lemma_value_round_trip(v: ValueModel, tail: Seq<u8>)
    requires
        value_ok(v),
    ensures
        parse_value(value_wire(v) + tail) == Some((v, value_wire(v).len() as int)),
{
    let s = value_wire(v) + tail;
    let t = s.subrange(1, s.len() as int);
    match v {
        ValueModel::Null => {},
        ValueModel::Text(c) => {
            assert(t =~= text(c) + tail);
            lemma_parse_text(c, tail);
        },
        ValueModel::Binary(b) => {
            assert(t =~= blob(b) + tail);
            lemma_parse_blob(b, tail);
        },
        ValueModel::Integer(i) => {
            assert(t =~= varint(i as u64) + tail);
            lemma_parse_varint(i as u64, tail);
            assert(((i as u64) as i64) == i) by (bit_vector);
        },
        ValueModel::Bool(x) => {},
    }
}

/// Appends the encoding of `v`.
pub fn write_value(out: &mut Vec<u8>, v: &Value)
    ensures
        final(out)@ == old(out)@ + value_wire(v@),
        value_ok(v@),
{
    let ghost start = out@;
    match v {
        Value::Null => {
            out.push(0u8);
        },
        Value::String(s) => {
            out.push(1u8);
            write_text(out, s.as_str());
        },
        Value::Binary(b) => {
            out.push(2u8);
            write_blob(out, b.as_slice());
        },
        Value::Integer(i) => {
            out.push(3u8);
            put_varint(out, *i as u64);
        },
        Value::Bool(x) => {
            out.push(4u8);
            out.push(if *x { 1u8 } else { 0u8 });
        },
    }
    assert(out@ =~= start + value_wire(v@));
}

/// Reads the value at `pos`.
pub fn read_value(b: &[u8], pos: usize) -> (r: Option<(Value, usize)>)
    requires
        pos <= b@.len(),
    ensures
        reads_as(r, parse_value(rest(b@, pos as int)), pos as int, |v: Value| v@),
        r matches Some((v, e)) ==> pos < e <= b@.len(),
{
    let ghost s = rest(b@, pos as int);
    if pos >= b.len() {
        return None;
    }
    let tag = b[pos];
    let p = pos + 1;
    proof {
        assert(rest(b@, p as int) =~= s.subrange(1, s.len() as int));
    }
    if tag == 0 {
        Some((Value::Null, p))
    } else if tag == 1 {
        match read_text(b, p) {
            Some((t, e)) => Some((Value::String(t), e)),
            None => None,
        }
    } else if tag == 2 {
        match read_blob(b, p) {
            Some((x, e)) => Some((Value::Binary(x), e)),
            None => None,
        }
    } else if tag == 3 {
        match read_varint(b, p) {
            Some((x, e)) => Some((Value::Integer(x as i64), e)),
            None => None,
        }
    } else if tag == 4 && p < b.len() && b[p] <= 1 {
        Some((Value::Bool(b[p] == 1), p + 1))
    } else {
        None
    }
}

/// The encodings of `xs`, one after another.
pub open spec fn many_wire<T>(xs: Seq<T>, w: spec_fn(T) -> Seq<u8>) -> Seq<u8>
    decreases xs.len(),
{
    if xs.len() == 0 {
        Seq::empty()
    } else {
        w(xs[0]) + many_wire(xs.subrange(1, xs.len() as int), w)
    }
}

/// Reads `count` items one after another with `p`.
pub open spec fn parse_many<T>(
    s: Seq<u8>,
    count: nat,
    p: spec_fn(Seq<u8>) -> Option<(T, int)>,
) -> Option<(Seq<T>, int)>
    decreases count,
{
    if count == 0 {
        Some((Seq::empty(), 0))
    } else {
        match p(s) {
            Some((x, n)) => if 0 <= n <= s.len() {
                match parse_many(s.subrange(n, s.len() as int), (count - 1) as nat, p) {
                    Some((xs, m)) => Some((seq![x] + xs, n + m)),
                    None => None,
                }
            } else {
                None
            },
            None => None,
        }
    }
}

/// A list: its length, then its items.
pub open spec fn list_wire<T>(xs: Seq<T>, w: spec_fn(T) -> Seq<u8>) -> Seq<u8> {
    varint(xs.len() as u64) + many_wire(xs, w)
}

pub open spec fn parse_list<T>(s: Seq<u8>, p: spec_fn(Seq<u8>) -> Option<(T, int)>) -> Option<
    (Seq<T>, int),
> {
    match parse_varint(s) {
        Some((c, k)) => match parse_many(s.subrange(k, s.len() as int), c as nat, p) {
            Some((xs, m)) => Some((xs, k + m)),
            None => None,
        },
        None => None,
    }
}

/// Puts `prefix`, and `off` bytes, in front of a parse result.
pub open spec fn glue<T>(prefix: Seq<T>, off: int, r: Option<(Seq<T>, int)>) -> Option<
    (Seq<T>, int),
> {
    match r {
        Some((xs, m)) => Some((prefix + xs, off + m)),
        None => None,
    }
}

pub proof fn lemma_many_round_trip<T>(
    xs: Seq<T>,
    tail: Seq<u8>,
    w: spec_fn(T) -> Seq<u8>,
    p: spec_fn(Seq<u8>) -> Option<(T, int)>,
    ok: spec_fn(T) -> bool,
)
    requires
        forall|x: T, t: Seq<u8>| ok(x) ==> #[trigger] p(w(x) + t) == Some((x, w(x).len() as int)),
        forall|i: int| 0 <= i < xs.len() ==> ok(#[trigger] xs[i]),
    ensures
        parse_many(many_wire(xs, w) + tail, xs.len(), p) == Some(
            (xs, many_wire(xs, w).len() as int),
        ),
    decreases xs.len(),
{
    if xs.len() > 0 {
        let ys = xs.subrange(1, xs.len() as int);
        let t2 = many_wire(ys, w) + tail;
        assert(ok(xs[0]));
        assert(many_wire(xs, w) + tail =~= w(xs[0]) + t2);
        assert(p(w(xs[0]) + t2) == Some((xs[0], w(xs[0]).len() as int)));
        assert((w(xs[0]) + t2).subrange(w(xs[0]).len() as int, (w(xs[0]) + t2).len() as int)
            =~= t2);
        assert forall|i: int| 0 <= i < ys.len() implies ok(#[trigger] ys[i]) by {
            assert(ys[i] == xs[i + 1]);
        }
        lemma_many_round_trip(ys, tail, w, p, ok);
        assert(seq![xs[0]] + ys =~= xs);
    }
}

pub proof fn lemma_list_round_trip<T>(
    xs: Seq<T>,
    tail: Seq<u8>,
    w: spec_fn(T) -> Seq<u8>,
    p: spec_fn(Seq<u8>) -> Option<(T, int)>,
    ok: spec_fn(T) -> bool,
)
    requires
        forall|x: T, t: Seq<u8>| ok(x) ==> #[trigger] p(w(x) + t) == Some((x, w(x).len() as int)),
        forall|i: int| 0 <= i < xs.len() ==> ok(#[trigger] xs[i]),
        xs.len() <= u64::MAX,
    ensures
        parse_list(list_wire(xs, w) + tail, p) == Some((xs, list_wire(xs, w).len() as int)),
{
    let h = varint(xs.len() as u64);
    let body = many_wire(xs, w) + tail;
    assert(list_wire(xs, w) + tail =~= h + body);
    lemma_parse_varint(xs.len() as u64, body);
    assert((h + body).subrange(h.len() as int, (h + body).len() as int) =~= body);
    lemma_many_round_trip(xs, tail, w, p, ok);
}

/// One step of reading a list: the item at `cur` is followed by the rest.
proof fn lemma_many_step<T>(
    s: Seq<u8>,
    count: nat,
    p: spec_fn(Seq<u8>) -> Option<(T, int)>,
)
    requires
        count > 0,
    ensures
        parse_many(s, count, p) == match p(s) {
            Some((x, n)) => if 0 <= n <= s.len() {
                glue(seq![x], n, parse_many(s.subrange(n, s.len() as int), (count - 1) as nat, p))
            } else {
                None
            },
            None => None,
        },
{
}

/// Appends the list of `vs`.
pub fn write_values(out: &mut Vec<u8>, vs: &Vec<Value>)
    ensures
        final(out)@ == old(out)@ + list_wire(values_view(vs@), value_writer()),
        values_ok(values_view(vs@)),
{
    let ghost w = value_writer();
    let ghost start = out@;
    put_varint(out, vs.len() as u64);
    let mut i: usize = 0;
    while i < vs.len()
        invariant
            w == value_writer(),
            i <= vs@.len(),
            forall|j: int| 0 <= j < i ==> value_ok(#[trigger] values_view(vs@)[j]),
            out@ == start + varint(vs@.len() as u64) + many_wire(
                values_view(vs@).subrange(0, i as int),
                w,
            ),
        decreases vs@.len() - i,
    {
        write_value(out, &vs[i]);
        proof {
            lemma_many_snoc(values_view(vs@).subrange(0, i as int), values_view(vs@)[i as int], w);
            assert(values_view(vs@).subrange(0, i as int).push(values_view(vs@)[i as int])
                =~= values_view(vs@).subrange(0, (i + 1) as int));
        }
        i = i + 1;
    }
    assert(values_view(vs@).subrange(0, i as int) =~= values_view(vs@));
}

pub proof fn lemma_many_snoc<T>(xs: Seq<T>, x: T, w: spec_fn(T) -> Seq<u8>)
    ensures
        many_wire(xs.push(x), w) == many_wire(xs, w) + w(x),
    decreases xs.len(),
{
    if xs.len() == 0 {
        assert(xs.push(x).subrange(1, 1) =~= Seq::<T>::empty());
        assert(many_wire(Seq::<T>::empty(), w) =~= Seq::<u8>::empty());
        assert(xs.push(x)[0] == x);
        assert(many_wire(xs.push(x), w) =~= w(x));
    } else {
        let ys = xs.subrange(1, xs.len() as int);
        lemma_many_snoc(ys, x, w);
        assert(xs.push(x).subrange(1, (xs.len() + 1) as int) =~= ys.push(x));
        assert(many_wire(xs.push(x), w) =~= w(xs[0]) + many_wire(ys.push(x), w));
        assert(many_wire(xs.push(x), w) =~= many_wire(xs, w) + w(x));
    }
}

/// Reads the list of values at `pos`.
pub fn read_values(b: &[u8], pos: usize) -> (r: Option<(Vec<Value>, usize)>)
    requires
        pos <= b@.len(),
    ensures
        reads_as(
            r,
            parse_list(rest(b@, pos as int), value_parser()),
            pos as int,
            |vs: Vec<Value>| values_view(vs@),
        ),
        r matches Some((v, e)) ==> pos < e <= b@.len(),
{
    let ghost p = value_parser();
    let (count, start) = match read_varint(b, pos) {
        Some(x) => x,
        None => {
            return None;
        },
    };
    proof {
        lemma_parse_varint_bounds(rest(b@, pos as int));

        assert(rest(b@, start as int) =~= rest(b@, pos as int).subrange(
            start - pos,
            rest(b@, pos as int).len() as int,
        ));
    }
    let mut acc: Vec<Value> = Vec::new();
    let mut cur = start;
    let mut i: u64 = 0;
    assert(glue(values_view(acc@), 0, parse_many(rest(b@, start as int), count as nat, p))
        =~= parse_many(rest(b@, start as int), count as nat, p)) by {
        assert(values_view(acc@) =~= Seq::<ValueModel>::empty());
        match parse_many(rest(b@, start as int), count as nat, p) {
            Some((xs, m)) => {
                assert(Seq::<ValueModel>::empty() + xs =~= xs);
            },
            None => {},
        }
    }
    while i < count
        invariant
            p == value_parser(),
            parse_varint(rest(b@, pos as int)) == Some((count, start - pos)),
            rest(b@, start as int) == rest(b@, pos as int).subrange(
                start - pos,
                rest(b@, pos as int).len() as int,
            ),
            pos < start <= cur <= b@.len(),
            i <= count,
            parse_many(rest(b@, start as int), count as nat, p) == glue(
                values_view(acc@),
                cur - start,
                parse_many(rest(b@, cur as int), (count - i) as nat, p),
            ),
        decreases count - i,
    {
        proof {
            lemma_many_step(rest(b@, cur as int), (count - i) as nat, p);
        }
        match read_value(b, cur) {
            None => {
                return None;
            },
            Some((v, e)) => {
                let ghost x = v@;
                let ghost old_acc = values_view(acc@);
                acc.push(v);
                proof {
                    let n = e - cur;
                    assert(rest(b@, cur as int).subrange(n, rest(b@, cur as int).len() as int)
                        =~= rest(b@, e as int));
                    assert(values_view(acc@) =~= old_acc + seq![x]);
                    match parse_many(rest(b@, e as int), (count - i - 1) as nat, p) {
                        Some((xs, m)) => {
                            assert(old_acc + (seq![x] + xs) =~= (old_acc + seq![x]) + xs);
                        },
                        None => {},
                    }
                }
                cur = e;
            },
        }
        i = i + 1;
    }
    proof {
        assert(values_view(acc@) + Seq::<ValueModel>::empty() =~= values_view(acc@));
    }
    Some((acc, cur))
}

pub open spec fn pair_wire(p: PairModel) -> Seq<u8> {
    text(p.key) + value_wire(p.value)
}

pub open spec fn parse_pair(s: Seq<u8>) -> Option<(PairModel, int)> {
    match parse_text(s) {
        Some((k, n)) => if 0 <= n <= s.len() {
            match parse_value(s.subrange(n, s.len() as int)) {
                Some((v, m)) => Some((PairModel { key: k, value: v }, n + m)),
                None => None,
            }
        } else {
            None
        },
        None => None,
    }
}

pub open spec fn pair_ok(p: PairModel) -> bool {
    text_ok(p.key) && value_ok(p.value)
}

pub open spec fn pair_parser() -> spec_fn(Seq<u8>) -> Option<(PairModel, int)> {
    |s: Seq<u8>| parse_pair(s)
}

pub open spec fn pair_writer() -> spec_fn(PairModel) -> Seq<u8> {
    |p: PairModel| pair_wire(p)
}

pub open spec fn text_parser() -> spec_fn(Seq<u8>) -> Option<(Seq<char>, int)> {
    |s: Seq<u8>| parse_text(s)
}

pub open spec fn text_writer() -> spec_fn(Seq<char>) -> Seq<u8> {
    |c: Seq<char>| text(c)
}

pub proof fn lemma_pair_round_trip(p: PairModel, tail: Seq<u8>)
    requires
        pair_ok(p),
    ensures
        parse_pair(pair_wire(p) + tail) == Some((p, pair_wire(p).len() as int)),
{
    let t2 = value_wire(p.value) + tail;
    assert(pair_wire(p) + tail =~= text(p.key) + t2);
    lemma_parse_text(p.key, t2);
    assert((text(p.key) + t2).subrange(text(p.key).len() as int, (text(p.key) + t2).len() as int)
        =~= t2);
    lemma_value_round_trip(p.value, tail);
}

/// Appends the encoding of `p`.
pub fn write_pair(out: &mut Vec<u8>, p: &Kvpair)
    ensures
        final(out)@ == old(out)@ + pair_wire(p@),
        pair_ok(p@),
{
    let ghost start = out@;
    write_text(out, p.key.as_str());
    write_value(out, &p.value);
    assert(out@ =~= start + pair_wire(p@));
}

/// Reads the pair at `pos`.
pub fn read_pair(b: &[u8], pos: usize) -> (r: Option<(Kvpair, usize)>)
    requires
        pos <= b@.len(),
    ensures
        reads_as(r, parse_pair(rest(b@, pos as int)), pos as int, |p: Kvpair| p@),
        r matches Some((v, e)) ==> pos < e <= b@.len(),
{
    match read_text(b, pos) {
        None => None,
        Some((key, k)) => {
            proof {
                assert(rest(b@, k as int) =~= rest(b@, pos as int).subrange(
                    k - pos,
                    rest(b@, pos as int).len() as int,
                ));
            }
            match read_value(b, k) {
                None => None,
                Some((value, e)) => Some((Kvpair { key, value }, e)),
            }
        },
    }
}

/// Appends the list of `ps`.
pub fn write_pairs(out: &mut Vec<u8>, vs: &Vec<Kvpair>)
    ensures
        final(out)@ == old(out)@ + list_wire(pairs_view(vs@), pair_writer()),
        pairs_ok(pairs_view(vs@)),
{
    let ghost w = pair_writer();
    let ghost start = out@;
    put_varint(out, vs.len() as u64);
    let mut i: usize = 0;
    while i < vs.len()
        invariant
            w == pair_writer(),
            i <= vs@.len(),
            forall|j: int| 0 <= j < i ==> pair_ok(#[trigger] pairs_view(vs@)[j]),
            out@ == start + varint(vs@.len() as u64) + many_wire(
                pairs_view(vs@).subrange(0, i as int),
                w,
            ),
        decreases vs@.len() - i,
    {
        write_pair(out, &vs[i]);
        proof {
            lemma_many_snoc(pairs_view(vs@).subrange(0, i as int), pairs_view(vs@)[i as int], w);
            assert(pairs_view(vs@).subrange(0, i as int).push(pairs_view(vs@)[i as int])
                =~= pairs_view(vs@).subrange(0, (i + 1) as int));
        }
        i = i + 1;
    }
    assert(pairs_view(vs@).subrange(0, i as int) =~= pairs_view(vs@));
}

/// Reads the list of pairs at `pos`.
pub fn read_pairs(b: &[u8], pos: usize) -> (r: Option<(Vec<Kvpair>, usize)>)
    requires
        pos <= b@.len(),
    ensures
        reads_as(
            r,
            parse_list(rest(b@, pos as int), pair_parser()),
            pos as int,
            |vs: Vec<Kvpair>| pairs_view(vs@),
        ),
        r matches Some((v, e)) ==> pos < e <= b@.len(),
{
    let ghost p = pair_parser();
    let (count, start) = match read_varint(b, pos) {
        Some(x) => x,
        None => {
            return None;
        },
    };
    proof {
        lemma_parse_varint_bounds(rest(b@, pos as int));

        assert(rest(b@, start as int) =~= rest(b@, pos as int).subrange(
            start - pos,
            rest(b@, pos as int).len() as int,
        ));
    }
    let mut acc: Vec<Kvpair> = Vec::new();
    let mut cur = start;
    let mut i: u64 = 0;
    assert(glue(pairs_view(acc@), 0, parse_many(rest(b@, start as int), count as nat, p))
        =~= parse_many(rest(b@, start as int), count as nat, p)) by {
        assert(pairs_view(acc@) =~= Seq::<PairModel>::empty());
        match parse_many(rest(b@, start as int), count as nat, p) {
            Some((xs, m)) => {
                assert(Seq::<PairModel>::empty() + xs =~= xs);
            },
            None => {},
        }
    }
    while i < count
        invariant
            p == pair_parser(),
            parse_varint(rest(b@, pos as int)) == Some((count, start - pos)),
            rest(b@, start as int) == rest(b@, pos as int).subrange(
                start - pos,
                rest(b@, pos as int).len() as int,
            ),
            pos < start <= cur <= b@.len(),
            i <= count,
            parse_many(rest(b@, start as int), count as nat, p) == glue(
                pairs_view(acc@),
                cur - start,
                parse_many(rest(b@, cur as int), (count - i) as nat, p),
            ),
        decreases count - i,
    {
        proof {
            lemma_many_step(rest(b@, cur as int), (count - i) as nat, p);
        }
        match read_pair(b, cur) {
            None => {
                return None;
            },
            Some((v, e)) => {
                let ghost x = v@;
                let ghost old_acc = pairs_view(acc@);
                acc.push(v);
                proof {
                    let n = e - cur;
                    assert(rest(b@, cur as int).subrange(n, rest(b@, cur as int).len() as int)
                        =~= rest(b@, e as int));
                    assert(pairs_view(acc@) =~= old_acc + seq![x]);
                    match parse_many(rest(b@, e as int), (count - i - 1) as nat, p) {
                        Some((xs, m)) => {
                            assert(old_acc + (seq![x] + xs) =~= (old_acc + seq![x]) + xs);
                        },
                        None => {},
                    }
                }
                cur = e;
            },
        }
        i = i + 1;
    }
    proof {
        assert(pairs_view(acc@) + Seq::<PairModel>::empty() =~= pairs_view(acc@));
    }
    Some((acc, cur))
}

/// Appends the list of `ks`.
pub fn write_keys(out: &mut Vec<u8>, vs: &Vec<String>)
    ensures
        final(out)@ == old(out)@ + list_wire(keys_view(vs@), text_writer()),
        texts_ok(keys_view(vs@)),
{
    let ghost w = text_writer();
    let ghost start = out@;
    put_varint(out, vs.len() as u64);
    let mut i: usize = 0;
    while i < vs.len()
        invariant
            w == text_writer(),
            i <= vs@.len(),
            forall|j: int| 0 <= j < i ==> text_ok(#[trigger] keys_view(vs@)[j]),
            out@ == start + varint(vs@.len() as u64) + many_wire(
                keys_view(vs@).subrange(0, i as int),
                w,
            ),
        decreases vs@.len() - i,
    {
        write_text(out, vs[i].as_str());
        proof {
            lemma_many_snoc(keys_view(vs@).subrange(0, i as int), keys_view(vs@)[i as int], w);
            assert(keys_view(vs@).subrange(0, i as int).push(keys_view(vs@)[i as int])
                =~= keys_view(vs@).subrange(0, (i + 1) as int));
        }
        i = i + 1;
    }
    assert(keys_view(vs@).subrange(0, i as int) =~= keys_view(vs@));
}

/// Reads the list of texts at `pos`.
pub fn read_keys(b: &[u8], pos: usize) -> (r: Option<(Vec<String>, usize)>)
    requires
        pos <= b@.len(),
    ensures
        reads_as(
            r,
            parse_list(rest(b@, pos as int), text_parser()),
            pos as int,
            |vs: Vec<String>| keys_view(vs@),
        ),
        r matches Some((v, e)) ==> pos < e <= b@.len(),
{
    let ghost p = text_parser();
    let (count, start) = match read_varint(b, pos) {
        Some(x) => x,
        None => {
            return None;
        },
    };
    proof {
        lemma_parse_varint_bounds(rest(b@, pos as int));

        assert(rest(b@, start as int) =~= rest(b@, pos as int).subrange(
            start - pos,
            rest(b@, pos as int).len() as int,
        ));
    }
    let mut acc: Vec<String> = Vec::new();
    let mut cur = start;
    let mut i: u64 = 0;
    assert(glue(keys_view(acc@), 0, parse_many(rest(b@, start as int), count as nat, p))
        =~= parse_many(rest(b@, start as int), count as nat, p)) by {
        assert(keys_view(acc@) =~= Seq::<Seq<char>>::empty());
        match parse_many(rest(b@, start as int), count as nat, p) {
            Some((xs, m)) => {
                assert(Seq::<Seq<char>>::empty() + xs =~= xs);
            },
            None => {},
        }
    }
    while i < count
        invariant
            p == text_parser(),
            parse_varint(rest(b@, pos as int)) == Some((count, start - pos)),
            rest(b@, start as int) == rest(b@, pos as int).subrange(
                start - pos,
                rest(b@, pos as int).len() as int,
            ),
            pos < start <= cur <= b@.len(),
            i <= count,
            parse_many(rest(b@, start as int), count as nat, p) == glue(
                keys_view(acc@),
                cur - start,
                parse_many(rest(b@, cur as int), (count - i) as nat, p),
            ),
        decreases count - i,
    {
        proof {
            lemma_many_step(rest(b@, cur as int), (count - i) as nat, p);
        }
        match read_text(b, cur) {
            None => {
                return None;
            },
            Some((v, e)) => {
                let ghost x = v@;
                let ghost old_acc = keys_view(acc@);
                acc.push(v);
                proof {
                    let n = e - cur;
                    assert(rest(b@, cur as int).subrange(n, rest(b@, cur as int).len() as int)
                        =~= rest(b@, e as int));
                    assert(keys_view(acc@) =~= old_acc + seq![x]);
                    match parse_many(rest(b@, e as int), (count - i - 1) as nat, p) {
                        Some((xs, m)) => {
                            assert(old_acc + (seq![x] + xs) =~= (old_acc + seq![x]) + xs);
                        },
                        None => {},
                    }
                }
                cur = e;
            },
        }
        i = i + 1;
    }
    proof {
        assert(keys_view(acc@) + Seq::<Seq<char>>::empty() =~= keys_view(acc@));
    }
    Some((acc, cur))
}

/// The bytes of `s` after its first `n`.
pub open spec fn skip(s: Seq<u8>, n: int) -> Seq<u8> {
    s.subrange(n, s.len() as int)
}

pub open spec fn response_wire(r: ResponseModel) -> Seq<u8> {
    varint(r.status as u64) + text(r.message) + list_wire(r.values, value_writer()) + list_wire(
        r.pairs,
        pair_writer(),
    )
}

pub open spec fn parse_response(s: Seq<u8>) -> Option<(ResponseModel, int)> {
    match parse_varint(s) {
        Some((st, a)) => if st <= u32::MAX {
            match parse_text(skip(s, a)) {
                Some((m, b)) => match parse_list(skip(s, a + b), value_parser()) {
                    Some((vs, c)) => match parse_list(skip(s, a + b + c), pair_parser()) {
                        Some((ps, d)) => Some(
                            (
                                ResponseModel { status: st as u32, message: m, values: vs, pairs: ps },
                                a + b + c + d,
                            ),
                        ),
                        None => None,
                    },
                    None => None,
                },
                None => None,
            }
        } else {
            None
        },
        None => None,
    }
}

/// The response that `b` encodes, when it encodes one and nothing more.
pub open spec fn response_from_wire(b: Seq<u8>) -> Option<ResponseModel> {
    match parse_response(b) {
        Some((r, n)) => if n == b.len() {
            Some(r)
        } else {
            None
        },
        None => None,
    }
}

/// A response that the encoding can carry: every length fits in 64 bits.
pub open spec fn response_ok(r: ResponseModel) -> bool {
    &&& text_ok(r.message)
    &&& r.values.len() <= u64::MAX
    &&& r.pairs.len() <= u64::MAX
    &&& forall|i: int| 0 <= i < r.values.len() ==> value_ok(#[trigger] r.values[i])
    &&& forall|i: int| 0 <= i < r.pairs.len() ==> pair_ok(#[trigger] r.pairs[i])
}

pub proof fn lemma_value_parser_inverts()
    ensures
        forall|x: ValueModel, t: Seq<u8>|
            value_ok(x) ==> #[trigger] value_parser()(value_writer()(x) + t) == Some(
                (x, value_writer()(x).len() as int),
            ),
{
    assert forall|x: ValueModel, t: Seq<u8>| value_ok(x) implies #[trigger] value_parser()(
        value_writer()(x) + t,
    ) == Some((x, value_writer()(x).len() as int)) by {
        lemma_value_round_trip(x, t);
    }
}

pub proof fn lemma_pair_parser_inverts()
    ensures
        forall|x: PairModel, t: Seq<u8>|
            pair_ok(x) ==> #[trigger] pair_parser()(pair_writer()(x) + t) == Some(
                (x, pair_writer()(x).len() as int),
            ),
{
    assert forall|x: PairModel, t: Seq<u8>| pair_ok(x) implies #[trigger] pair_parser()(
        pair_writer()(x) + t,
    ) == Some((x, pair_writer()(x).len() as int)) by {
        lemma_pair_round_trip(x, t);
    }
}

pub proof fn lemma_text_parser_inverts()
    ensures
        forall|x: Seq<char>, t: Seq<u8>|
            text_ok(x) ==> #[trigger] text_parser()(text_writer()(x) + t) == Some(
                (x, text_writer()(x).len() as int),
            ),
{
    assert forall|x: Seq<char>, t: Seq<u8>| text_ok(x) implies #[trigger] text_parser()(
        text_writer()(x) + t,
    ) == Some((x, text_writer()(x).len() as int)) by {
        lemma_parse_text(x, t);
    }
}

/// Reading back the encoding of a response gives that response.
pub proof fn lemma_response_round_trip(r: ResponseModel)
    requires
        response_ok(r),
    ensures
        response_from_wire(response_wire(r)) == Some(r),
{
    let w0 = varint(r.status as u64);
    let w1 = text(r.message);
    let w2 = list_wire(r.values, value_writer());
    let w3 = list_wire(r.pairs, pair_writer());
    let s = response_wire(r);
    assert(s =~= w0 + (w1 + (w2 + w3)));
    lemma_parse_varint(r.status as u64, w1 + (w2 + w3));
    assert(skip(s, w0.len() as int) =~= w1 + (w2 + w3));
    lemma_parse_text(r.message, w2 + w3);
    assert(skip(s, (w0.len() + w1.len()) as int) =~= w2 + w3);
    lemma_value_parser_inverts();
    lemma_list_round_trip(r.values, w3, value_writer(), value_parser(), |x: ValueModel| value_ok(x));
    assert(skip(s, (w0.len() + w1.len() + w2.len()) as int) =~= w3 + Seq::<u8>::empty());
    lemma_pair_parser_inverts();
    lemma_list_round_trip(
        r.pairs,
        Seq::<u8>::empty(),
        pair_writer(),
        pair_parser(),
        |x: PairModel| pair_ok(x),
    );
}

/// Reads the response at `pos`.
#[verifier::rlimit(40)]
pub fn read_response(b: &[u8], pos: usize) -> (r: Option<(CommandResponse, usize)>)
    requires
        pos <= b@.len(),
    ensures
        reads_as(r, parse_response(rest(b@, pos as int)), pos as int, |x: CommandResponse| x@),
        r matches Some((v, e)) ==> pos < e <= b@.len(),
{
    let ghost s = rest(b@, pos as int);
    let (st, a) = match read_varint(b, pos) {
        Some(x) => x,
        None => {
            return None;
        },
    };
    if st > 4294967295u64 {
        return None;
    }
    assert(rest(b@, a as int) =~= skip(s, a - pos));
    let (message, m) = match read_text(b, a) {
        Some(x) => x,
        None => {
            return None;
        },
    };
    assert(rest(b@, m as int) =~= skip(s, m - pos));
    let (values, c) = match read_values(b, m) {
        Some(x) => x,
        None => {
            return None;
        },
    };
    assert(rest(b@, c as int) =~= skip(s, c - pos));
    let (pairs, d) = match read_pairs(b, c) {
        Some(x) => x,
        None => {
            return None;
        },
    };
    Some((CommandResponse { status: st as u32, message, values, pairs }, d))
}

impl CommandResponse {
    /// The encoding of this response.
    pub fn encode(&self) -> (r: Vec<u8>)
        ensures
            r@ == response_wire(self@),
            response_ok(self@),
    {
        let mut out: Vec<u8> = Vec::new();
        put_varint(&mut out, self.status as u64);
        write_text(&mut out, self.message.as_str());
        write_values(&mut out, &self.values);
        write_pairs(&mut out, &self.pairs);
        assert(out@ =~= response_wire(self@));
        out
    }

    /// Reads a response that fills all of `b`.
    pub fn decode(b: &[u8]) -> (r: Result<CommandResponse, KvError>)
        ensures
            match response_from_wire(b@) {
                Some(m) => r matches Ok(x) && x@ == m,
                None => r matches Err(KvError::DecodeError(_)),
            },
    {
        assert(rest(b@, 0) =~= b@);
        match read_response(b, 0) {
            Some((x, e)) => if e == b.len() {
                Ok(x)
            } else {
                Err(KvError::DecodeError(String::from_str("trailing bytes after a response")))
            },
            None => Err(KvError::DecodeError(String::from_str("malformed response"))),
        }
    }
}

pub open spec fn request_wire(m: Option<RequestModel>) -> Seq<u8> {
    match m {
        None => seq![0u8],
        Some(c) => match c {
            RequestModel::Hget { table, key } => seq![1u8] + text(table) + text(key),
            RequestModel::Hgetall { table } => seq![2u8] + text(table),
            RequestModel::Hmget { table, keys } => seq![3u8] + text(table) + list_wire(
                keys,
                text_writer(),
            ),
            RequestModel::Hset { table, pair } => seq![4u8] + text(table) + pair_wire(pair),
            RequestModel::Hmset { table, pairs } => seq![5u8] + text(table) + list_wire(
                pairs,
                pair_writer(),
            ),
            RequestModel::Hdel { table, key } => seq![6u8] + text(table) + text(key),
            RequestModel::Hmdel { table, keys } => seq![7u8] + text(table) + list_wire(
                keys,
                text_writer(),
            ),
            RequestModel::Hexist { table, key } => seq![8u8] + text(table) + text(key),
            RequestModel::Hmexist { table, keys } => seq![9u8] + text(table) + list_wire(
                keys,
                text_writer(),
            ),
            RequestModel::Subscribe { topic } => seq![10u8] + text(topic),
            RequestModel::Unsubscribe { topic, id } => seq![11u8] + text(topic) + varint(
                id as u64,
            ),
            RequestModel::Publish { topic, data } => seq![12u8] + text(topic) + list_wire(
                data,
                value_writer(),
            ),
        },
    }
}

/// Reads the second field of a request whose tag is `tag` and whose first
/// field is `name`, from `u`; `a` bytes came before `u`.
pub open spec fn parse_request_rest(tag: u8, name: Seq<char>, u: Seq<u8>, a: int) -> Option<
    (Option<RequestModel>, int),
> {
    if tag == 2 {
        Some((Some(RequestModel::Hgetall { table: name }), a))
    } else if tag == 10 {
        Some((Some(RequestModel::Subscribe { topic: name }), a))
    } else if tag == 1 || tag == 6 || tag == 8 {
        match parse_text(u) {
            Some((key, b)) => Some(
                (
                    Some(
                        if tag == 1 {
                            RequestModel::Hget { table: name, key }
                        } else if tag == 6 {
                            RequestModel::Hdel { table: name, key }
                        } else {
                            RequestModel::Hexist { table: name, key }
                        },
                    ),
                    a + b,
                ),
            ),
            None => None,
        }
    } else if tag == 3 || tag == 7 || tag == 9 {
        match parse_list(u, text_parser()) {
            Some((keys, b)) => Some(
                (
                    Some(
                        if tag == 3 {
                            RequestModel::Hmget { table: name, keys }
                        } else if tag == 7 {
                            RequestModel::Hmdel { table: name, keys }
                        } else {
                            RequestModel::Hmexist { table: name, keys }
                        },
                    ),
                    a + b,
                ),
            ),
            None => None,
        }
    } else if tag == 4 {
        match parse_pair(u) {
            Some((pair, b)) => Some((Some(RequestModel::Hset { table: name, pair }), a + b)),
            None => None,
        }
    } else if tag == 5 {
        match parse_list(u, pair_parser()) {
            Some((pairs, b)) => Some((Some(RequestModel::Hmset { table: name, pairs }), a + b)),
            None => None,
        }
    } else if tag == 11 {
        match parse_varint(u) {
            Some((id, b)) => if id <= u32::MAX {
                Some((Some(RequestModel::Unsubscribe { topic: name, id: id as u32 }), a + b))
            } else {
                None
            },
            None => None,
        }
    } else if tag == 12 {
        match parse_list(u, value_parser()) {
            Some((data, b)) => Some((Some(RequestModel::Publish { topic: name, data }), a + b)),
            None => None,
        }
    } else {
        None
    }
}

pub open spec fn parse_request(s: Seq<u8>) -> Option<(Option<RequestModel>, int)> {
    if s.len() == 0 {
        None
    } else if s[0] == 0 {
        Some((None, 1))
    } else if 1 <= s[0] <= 12 {
        match parse_text(skip(s, 1)) {
            Some((name, a)) => parse_request_rest(s[0], name, skip(s, 1 + a), 1 + a),
            None => None,
        }
    } else {
        None
    }
}

/// The request that `b` encodes, when it encodes one and nothing more.
pub open spec fn request_from_wire(b: Seq<u8>) -> Option<Option<RequestModel>> {
    match parse_request(b) {
        Some((m, n)) => if n == b.len() {
            Some(m)
        } else {
            None
        },
        None => None,
    }
}

pub open spec fn texts_ok(ks: Seq<Seq<char>>) -> bool {
    ks.len() <= u64::MAX && forall|i: int| 0 <= i < ks.len() ==> text_ok(#[trigger] ks[i])
}

pub open spec fn values_ok(vs: Seq<ValueModel>) -> bool {
    vs.len() <= u64::MAX && forall|i: int| 0 <= i < vs.len() ==> value_ok(#[trigger] vs[i])
}

pub open spec fn pairs_ok(ps: Seq<PairModel>) -> bool {
    ps.len() <= u64::MAX && forall|i: int| 0 <= i < ps.len() ==> pair_ok(#[trigger] ps[i])
}

/// A request that the encoding can carry: every length fits in 64 bits.
pub open spec fn request_ok(m: Option<RequestModel>) -> bool {
    match m {
        None => true,
        Some(c) => match c {
            RequestModel::Hget { table, key } => text_ok(table) && text_ok(key),
            RequestModel::Hgetall { table } => text_ok(table),
            RequestModel::Hmget { table, keys } => text_ok(table) && texts_ok(keys),
            RequestModel::Hset { table, pair } => text_ok(table) && pair_ok(pair),
            RequestModel::Hmset { table, pairs } => text_ok(table) && pairs_ok(pairs),
            RequestModel::Hdel { table, key } => text_ok(table) && text_ok(key),
            RequestModel::Hmdel { table, keys } => text_ok(table) && texts_ok(keys),
            RequestModel::Hexist { table, key } => text_ok(table) && text_ok(key),
            RequestModel::Hmexist { table, keys } => text_ok(table) && texts_ok(keys),
            RequestModel::Subscribe { topic } => text_ok(topic),
            RequestModel::Unsubscribe { topic, id } => text_ok(topic),
            RequestModel::Publish { topic, data } => text_ok(topic) && values_ok(data),
        },
    }
}

/// Reading back the encoding of a request gives that request.
pub proof fn lemma_request_round_trip(m: Option<RequestModel>)
    requires
        request_ok(m),
    ensures
        request_from_wire(request_wire(m)) == Some(m),
{
    let s = request_wire(m);
    let e = Seq::<u8>::empty();
    lemma_value_parser_inverts();
    lemma_pair_parser_inverts();
    lemma_text_parser_inverts();
    match m {
        None => {},
        Some(c) => {
            let (name, second): (Seq<char>, Seq<u8>) = match c {
                RequestModel::Hget { table, key } => (table, text(key)),
                RequestModel::Hgetall { table } => (table, e),
                RequestModel::Hmget { table, keys } => (table, list_wire(keys, text_writer())),
                RequestModel::Hset { table, pair } => (table, pair_wire(pair)),
                RequestModel::Hmset { table, pairs } => (table, list_wire(pairs, pair_writer())),
                RequestModel::Hdel { table, key } => (table, text(key)),
                RequestModel::Hmdel { table, keys } => (table, list_wire(keys, text_writer())),
                RequestModel::Hexist { table, key } => (table, text(key)),
                RequestModel::Hmexist { table, keys } => (table, list_wire(keys, text_writer())),
                RequestModel::Subscribe { topic } => (topic, e),
                RequestModel::Unsubscribe { topic, id } => (topic, varint(id as u64)),
                RequestModel::Publish { topic, data } => (topic, list_wire(data, value_writer())),
            };
            assert(s =~= seq![s[0]] + (text(name) + second));
            assert(skip(s, 1) =~= text(name) + second);
            lemma_parse_text(name, second);
            let a = text(name).len() as int;
            assert(skip(s, 1 + a) =~= second + e);
            match c {
                RequestModel::Hget { table, key } => {
                    lemma_parse_text(key, e);
                },
                RequestModel::Hdel { table, key } => {
                    lemma_parse_text(key, e);
                },
                RequestModel::Hexist { table, key } => {
                    lemma_parse_text(key, e);
                },
                RequestModel::Hmget { table, keys } => {
                    lemma_list_round_trip(keys, e, text_writer(), text_parser(), |x: Seq<char>| text_ok(x));
                },
                RequestModel::Hmdel { table, keys } => {
                    lemma_list_round_trip(keys, e, text_writer(), text_parser(), |x: Seq<char>| text_ok(x));
                },
                RequestModel::Hmexist { table, keys } => {
                    lemma_list_round_trip(keys, e, text_writer(), text_parser(), |x: Seq<char>| text_ok(x));
                },
                RequestModel::Hset { table, pair } => {
                    lemma_pair_round_trip(pair, e);
                },
                RequestModel::Hmset { table, pairs } => {
                    lemma_list_round_trip(pairs, e, pair_writer(), pair_parser(), |x: PairModel| pair_ok(x));
                },
                RequestModel::Unsubscribe { topic, id } => {
                    lemma_parse_varint(id as u64, e);
                },
                RequestModel::Publish { topic, data } => {
                    lemma_list_round_trip(data, e, value_writer(), value_parser(), |x: ValueModel| value_ok(x));
                },
                _ => {},
            }
        },
    }
}

/// Reads the request at `pos`.
#[verifier::rlimit(40)]
pub fn read_request(b: &[u8], pos: usize) -> (r: Option<(CommandRequest, usize)>)
    requires
        pos <= b@.len(),
    ensures
        reads_as(r, parse_request(rest(b@, pos as int)), pos as int, |x: CommandRequest| x@),
        r matches Some((v, e)) ==> pos < e <= b@.len(),
{
    let ghost s = rest(b@, pos as int);
    if pos >= b.len() {
        return None;
    }
    let tag = b[pos];
    if tag == 0 {
        return Some((CommandRequest { request_data: None }, pos + 1));
    }
    if tag > 12 {
        return None;
    }
    assert(rest(b@, pos + 1) =~= skip(s, 1));
    let (name, a) = match read_text(b, pos + 1) {
        Some(x) => x,
        None => {
            return None;
        },
    };
    assert(rest(b@, a as int) =~= skip(s, a - pos));
    let data = if tag == 2 {
        RequestData::Hgetall(Hgetall { table: name })
    } else if tag == 10 {
        RequestData::Subscribe(Subscribe { topic: name })
    } else if tag == 1 || tag == 6 || tag == 8 {
        let (key, e) = match read_text(b, a) {
            Some(x) => x,
            None => {
                return None;
            },
        };
        let d = if tag == 1 {
            RequestData::Hget(Hget { table: name, key })
        } else if tag == 6 {
            RequestData::Hdel(Hdel { table: name, key })
        } else {
            RequestData::Hexist(Hexist { table: name, key })
        };
        return Some((CommandRequest { request_data: Some(d) }, e));
    } else if tag == 3 || tag == 7 || tag == 9 {
        let (keys, e) = match read_keys(b, a) {
            Some(x) => x,
            None => {
                return None;
            },
        };
        let d = if tag == 3 {
            RequestData::Hmget(Hmget { table: name, keys })
        } else if tag == 7 {
            RequestData::Hmdel(Hmdel { table: name, keys })
        } else {
            RequestData::Hmexist(Hmexist { table: name, keys })
        };
        return Some((CommandRequest { request_data: Some(d) }, e));
    } else if tag == 4 {
        let (pair, e) = match read_pair(b, a) {
            Some(x) => x,
            None => {
                return None;
            },
        };
        let d = RequestData::Hset(Hset { table: name, pair });
        return Some((CommandRequest { request_data: Some(d) }, e));
    } else if tag == 5 {
        let (pairs, e) = match read_pairs(b, a) {
            Some(x) => x,
            None => {
                return None;
            },
        };
        let d = RequestData::Hmset(Hmset { table: name, pairs });
        return Some((CommandRequest { request_data: Some(d) }, e));
    } else if tag == 11 {
        let (id, e) = match read_varint(b, a) {
            Some(x) => x,
            None => {
                return None;
            },
        };
        if id > 4294967295u64 {
            return None;
        }
        let d = RequestData::Unsubscribe(Unsubscribe { topic: name, id: id as u32 });
        return Some((CommandRequest { request_data: Some(d) }, e));
    } else {
        let (data, e) = match read_values(b, a) {
            Some(x) => x,
            None => {
                return None;
            },
        };
        let d = RequestData::Publish(Publish { topic: name, data });
        return Some((CommandRequest { request_data: Some(d) }, e));
    };
    Some((CommandRequest { request_data: Some(data) }, a))
}

impl CommandRequest {
    /// The encoding of this request.
    pub fn encode(&self) -> (r: Vec<u8>)
        ensures
            r@ == request_wire(self@),
            request_ok(self@),
    {
        let mut out: Vec<u8> = Vec::new();
        match &self.request_data {
            None => {
                out.push(0u8);
            },
            Some(d) => match d {
                RequestData::Hget(c) => {
                    out.push(1u8);
                    write_text(&mut out, c.table.as_str());
                    write_text(&mut out, c.key.as_str());
                },
                RequestData::Hgetall(c) => {
                    out.push(2u8);
                    write_text(&mut out, c.table.as_str());
                },
                RequestData::Hmget(c) => {
                    out.push(3u8);
                    write_text(&mut out, c.table.as_str());
                    write_keys(&mut out, &c.keys);
                },
                RequestData::Hset(c) => {
                    out.push(4u8);
                    write_text(&mut out, c.table.as_str());
                    write_pair(&mut out, &c.pair);
                },
                RequestData::Hmset(c) => {
                    out.push(5u8);
                    write_text(&mut out, c.table.as_str());
                    write_pairs(&mut out, &c.pairs);
                },
                RequestData::Hdel(c) => {
                    out.push(6u8);
                    write_text(&mut out, c.table.as_str());
                    write_text(&mut out, c.key.as_str());
                },
                RequestData::Hmdel(c) => {
                    out.push(7u8);
                    write_text(&mut out, c.table.as_str());
                    write_keys(&mut out, &c.keys);
                },
                RequestData::Hexist(c) => {
                    out.push(8u8);
                    write_text(&mut out, c.table.as_str());
                    write_text(&mut out, c.key.as_str());
                },
                RequestData::Hmexist(c) => {
                    out.push(9u8);
                    write_text(&mut out, c.table.as_str());
                    write_keys(&mut out, &c.keys);
                },
                RequestData::Subscribe(c) => {
                    out.push(10u8);
                    write_text(&mut out, c.topic.as_str());
                },
                RequestData::Unsubscribe(c) => {
                    out.push(11u8);
                    write_text(&mut out, c.topic.as_str());
                    put_varint(&mut out, c.id as u64);
                },
                RequestData::Publish(c) => {
                    out.push(12u8);
                    write_text(&mut out, c.topic.as_str());
                    write_values(&mut out, &c.data);
                },
            },
        }
        assert(out@ =~= request_wire(self@));
        out
    }

    /// Reads a request that fills all of `b`.
    pub fn decode(b: &[u8]) -> (r: Result<CommandRequest, KvError>)
        ensures
            match request_from_wire(b@) {
                Some(m) => r matches Ok(x) && x@ == m,
                None => r matches Err(KvError::DecodeError(_)),
            },
    {
        assert(rest(b@, 0) =~= b@);
        match read_request(b, 0) {
            Some((x, e)) => if e == b.len() {
                Ok(x)
            } else {
                Err(KvError::DecodeError(String::from_str("trailing bytes after a request")))
            },
            None => Err(KvError::DecodeError(String::from_str("malformed request"))),
        }
    }
}

/// The value that `b` encodes, when it encodes one and nothing more.
pub open spec fn value_from_wire(b: Seq<u8>) -> Option<ValueModel> {
    match parse_value(b) {
        Some((v, n)) => if n == b.len() {
            Some(v)
        } else {
            None
        },
        None => None,
    }
}

impl Value {
    /// The encoding of this value, as a persistent backend stores it.
    pub fn to_bytes(&self) -> (r: Vec<u8>)
        ensures
            r@ == value_wire(self@),
            value_from_wire(r@) == Some(self@),
    {
        let mut out: Vec<u8> = Vec::new();
        write_value(&mut out, self);
        proof {
            assert(out@ =~= value_wire(self@));
            lemma_value_round_trip(self@, Seq::empty());
            assert(value_wire(self@) + Seq::<u8>::empty() =~= value_wire(self@));
        }
        out
    }

    /// Reads a value that fills all of `b`.
    pub fn from_bytes(b: &[u8]) -> (r: Result<Value, KvError>)
        ensures
            match value_from_wire(b@) {
                Some(m) => r matches Ok(x) && x@ == m,
                None => r matches Err(KvError::DecodeError(_)),
            },
    {
        assert(rest(b@, 0) =~= b@);
        match read_value(b, 0) {
            Some((x, e)) => if e == b.len() {
                Ok(x)
            } else {
                Err(KvError::DecodeError(String::from_str("trailing bytes after a value")))
            },
            None => Err(KvError::DecodeError(String::from_str("malformed value"))),
        }
    }
}

} // verus!
