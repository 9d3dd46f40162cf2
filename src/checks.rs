//! Comparisons of a response with what it should hold.
use vstd::prelude::*;
use vstd::string::StrSliceExecFns;
use vstd::utf8::encode_utf8;
use crate::command::CommandResponse;
use crate::value::{Kvpair, PairModel, Value, pairs_view, values_view};

verus! {

/// How many times `x` stands in `s`.
pub open spec fn count_of(s: Seq<PairModel>, x: PairModel) -> nat
    decreases s.len(),
{
    if s.len() == 0 {
        0
    } else {
        count_of(s.drop_last(), x) + if s.last() == x {
            1nat
        } else {
            0nat
        }
    }
}

/// `a` and `b` hold the same pairs, each as often: they are equal as
/// multisets.
pub open spec fn same_pairs(a: Seq<PairModel>, b: Seq<PairModel>) -> bool {
    forall|x: PairModel| #[trigger] count_of(a, x) == count_of(b, x)
}

proof fn lemma_count_absent(s: Seq<PairModel>, x: PairModel)
    requires
        !s.contains(x),
    ensures
        count_of(s, x) == 0,
    decreases s.len(),
{
    if s.len() > 0 {
        assert(!s.drop_last().contains(x)) by {
            if s.drop_last().contains(x) {
                let i = choose|i: int| 0 <= i < s.len() - 1 && s.drop_last()[i] == x;
                assert(s[i] == x);
            }
        }
        lemma_count_absent(s.drop_last(), x);
        assert(s.last() == s[s.len() - 1]);
    }
}

/// How many times `p` stands in `ps`.
fn count_in(p: &Kvpair, ps: &[Kvpair]) -> (r: usize)
    ensures
        r == count_of(pairs_view(ps@), p@),
{
    let mut n: usize = 0;
    let mut i: usize = 0;
    while i < ps.len()
        invariant
            i <= ps@.len(),
            n <= i,
            n == count_of(pairs_view(ps@).subrange(0, i as int), p@),
        decreases ps@.len() - i,
    {
        proof {
            let pv = pairs_view(ps@);
            assert(pv.subrange(0, i + 1).drop_last() =~= pv.subrange(0, i as int));
            assert(pv.subrange(0, i + 1).last() == ps@[i as int]@);
        }
        if ps[i].same(p) {
            n = n + 1;
        }
        i = i + 1;
    }
    assert(pairs_view(ps@).subrange(0, i as int) =~= pairs_view(ps@));
    n
}

/// Whether each pair of `a` stands in `b` as often as in `a`.
fn counts_agree(a: &[Kvpair], b: &[Kvpair]) -> (r: bool)
    ensures
        r == forall|i: int|
            0 <= i < a@.len() ==> count_of(pairs_view(a@), #[trigger] pairs_view(a@)[i]) == count_of(
                pairs_view(b@),
                pairs_view(a@)[i],
            ),
{
    let mut i: usize = 0;
    while i < a.len()
        invariant
            i <= a@.len(),
            forall|j: int|
                0 <= j < i ==> count_of(pairs_view(a@), #[trigger] pairs_view(a@)[j]) == count_of(
                    pairs_view(b@),
                    pairs_view(a@)[j],
                ),
        decreases a@.len() - i,
    {
        assert(pairs_view(a@)[i as int] == a@[i as int]@);
        if count_in(&a[i], a) != count_in(&a[i], b) {
            return false;
        }
        i = i + 1;
    }
    true
}

/// `n` stands somewhere inside `h`.
pub open spec fn is_infix(n: Seq<u8>, h: Seq<u8>) -> bool {
    exists|i: int| 0 <= i && i + n.len() <= h.len() && #[trigger] h.subrange(i, i + n.len()) == n
}

fn same_values(a: &[Value], b: &[Value]) -> (r: bool)
    ensures
        r == (values_view(a@) == values_view(b@)),
{
    if a.len() != b.len() {
        assert(values_view(a@).len() != values_view(b@).len());
        return false;
    }
    let mut i: usize = 0;
    while i < a.len()
        invariant
            a@.len() == b@.len(),
            i <= a@.len(),
            forall|j: int| 0 <= j < i ==> a@[j]@ == b@[j]@,
        decreases a@.len() - i,
    {
        if !a[i].same(&b[i]) {
            assert(values_view(a@)[i as int] != values_view(b@)[i as int]);
            return false;
        }
        i = i + 1;
    }
    assert(values_view(a@) =~= values_view(b@));
    true
}

/// Whether `res` is a success carrying `values`, and `pairs` in any order.
pub fn assert_res_ok(res: &CommandResponse, values: &[Value], pairs: &[Kvpair]) -> (r: bool)
    ensures
        r == (res@.status == 200 && res@.message.len() == 0 && res@.values == values_view(values@)
            && same_pairs(res@.pairs, pairs_view(pairs@))),
{
    let got = res.pairs.as_slice();
    res.status == 200 && res.message.as_str().unicode_len() == 0 && same_values(res.values.as_slice(), values)
        && pairs_agree(got, pairs)
}

/// Whether `a` and `b` hold the same pairs, each as often.
fn pairs_agree(a: &[Kvpair], b: &[Kvpair]) -> (r: bool)
    ensures
        r == same_pairs(pairs_view(a@), pairs_view(b@)),
{
    let ab = counts_agree(a, b);
    let ba = counts_agree(b, a);
    proof {
        let av = pairs_view(a@);
        let bv = pairs_view(b@);
        if ab && ba {
            assert forall|x: PairModel| #[trigger] count_of(av, x) == count_of(bv, x) by {
                if av.contains(x) {
                    let i = choose|i: int| 0 <= i < av.len() && av[i] == x;
                } else if bv.contains(x) {
                    let j = choose|j: int| 0 <= j < bv.len() && bv[j] == x;
                } else {
                    lemma_count_absent(av, x);
                    lemma_count_absent(bv, x);
                }
            }
        } else if !ab {
            let i = choose|i: int| 0 <= i < a@.len() && !(count_of(av, #[trigger] av[i]) == count_of(bv, av[i]));
            assert(count_of(av, av[i]) != count_of(bv, av[i]));
        } else {
            let j = choose|j: int| 0 <= j < b@.len() && !(count_of(bv, #[trigger] bv[j]) == count_of(av, bv[j]));
            assert(count_of(bv, bv[j]) != count_of(av, bv[j]));
        }
    }
    ab && ba
}

/// Whether `h` holds the bytes of `n` from `i` on.
fn bytes_at(h: &[u8], i: usize, n: &[u8]) -> (r: bool)
    requires
        i + n@.len() <= h@.len(),
    ensures
        r == (h@.subrange(i as int, i + n@.len()) == n@),
{
    let hl = h.len();
    let mut j: usize = 0;
    while j < n.len()
        invariant
            hl == h@.len(),
            i + n@.len() <= h@.len(),
            j <= n@.len(),
            forall|k: int| 0 <= k < j ==> h@[i + k] == n@[k],
        decreases n@.len() - j,
    {
        if h[i + j] != n[j] {
            assert(h@.subrange(i as int, i + n@.len())[j as int] != n@[j as int]);
            return false;
        }
        j = j + 1;
    }
    assert(h@.subrange(i as int, i + n@.len()) =~= n@);
    true
}

fn contains_bytes(h: &[u8], n: &[u8]) -> (r: bool)
    ensures
        r == is_infix(n@, h@),
{
    if n.len() > h.len() {
        return false;
    }
    if n.len() == 0 {
        assert(h@.subrange(0, 0 + n@.len() as int) =~= n@);
        return true;
    }
    let last = h.len() - n.len();
    let mut i: usize = 0;
    while i <= last
        invariant
            last == h@.len() - n@.len(),
            last < h@.len(),
            h@.len() <= usize::MAX,
            n@.len() > 0,
            i <= last + 1,
            forall|k: int| 0 <= k < i ==> #[trigger] h@.subrange(k, k + n@.len()) != n@,
        decreases last + 1 - i,
    {
        if bytes_at(h, i, n) {
            return true;
        }
        i = i + 1;
    }
    false
}

/// Whether `res` reports failure `code` with a message that contains `msg`,
/// and carries nothing else.
pub fn assert_res_error(res: &CommandResponse, code: u32, msg: &str) -> (r: bool)
    ensures
        r == (res@.status == code && is_infix(encode_utf8(msg@), encode_utf8(res@.message))
            && res@.values.len() == 0 && res@.pairs.len() == 0),
{
    res.status == code && contains_bytes(res.message.as_str().as_bytes(), msg.as_bytes())
        && res.values.len() == 0 && res.pairs.len() == 0
}

} // verus!
