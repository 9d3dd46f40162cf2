//! How a persistent backend lays pairs out: one entry per pair, keyed
//! `"<table>:<key>"`, its value in the value encoding of the codec.
use vstd::prelude::*;
use vstd::slice::{slice_subrange, slice_to_vec};
use vstd::string::StringExecFns;
use vstd::utf8::{decode_utf8, valid_utf8};
use crate::wire::string_from_utf8;

verus! {

/// The entry key for `key` in `table`.
pub fn get_full_key(table: &str, key: &str) -> (r: String)
    ensures
        r@ == table@ + ":"@ + key@,
{
    String::from_str(table).concat(":").concat(key)
}

/// The prefix that every entry key of `table` starts with.
pub fn get_table_prefix(table: &str) -> (r: String)
    ensures
        r@ == table@ + ":"@,
{
    String::from_str(table).concat(":")
}

/// Where the first `:` stands in `b`, if anywhere.
pub open spec fn first_colon(b: Seq<u8>) -> Option<int> {
    if exists|i: int| 0 <= i < b.len() && b[i] == 58u8 {
        Some(
            choose|i: int|
                0 <= i < b.len() && b[i] == 58u8 && forall|j: int| 0 <= j < i ==> b[j] != 58u8,
        )
    } else {
        None
    }
}

/// The key that the entry key `b` names: the text after its first `:`.
pub open spec fn key_of_entry(b: Seq<u8>) -> Option<Seq<char>> {
    match first_colon(b) {
        Some(i) => {
            let rest = b.subrange(i + 1, b.len() as int);
            if valid_utf8(rest) {
                Some(decode_utf8(rest))
            } else {
                None
            }
        },
        None => None,
    }
}

/// The key named by the entry key `ivec`: the text after its first `:`.
/// `None` where there is no `:` or the rest is not UTF-8.
pub fn ivec_to_key(ivec: &[u8]) -> (r: Option<String>)
    ensures
        match key_of_entry(ivec@) {
            Some(k) => r matches Some(s) && s@ == k,
            None => r is None,
        },
{
    let mut i: usize = 0;
    while i < ivec.len()
        invariant
            i <= ivec@.len(),
            forall|j: int| 0 <= j < i ==> ivec@[j] != 58u8,
        decreases ivec@.len() - i,
    {
        if ivec[i] == 58u8 {
            proof {
                let c = choose|c: int|
                    0 <= c < ivec@.len() && ivec@[c] == 58u8 && forall|j: int|
                        0 <= j < c ==> ivec@[j] != 58u8;
                assert(c == i) by {
                    if c < i {
                    } else if c > i {
                        assert(ivec@[i as int] == 58u8);
                    }
                }
            }
            let rest = slice_to_vec(slice_subrange(ivec, i + 1, ivec.len()));
            return string_from_utf8(rest);
        }
        i = i + 1;
    }
    None
}

/// Turns a missing-or-failed lookup inside out: an absent result is no
/// failure.
pub fn flip<T, E>(x: Option<Result<T, E>>) -> (r: Result<Option<T>, E>)
    ensures
        match x {
            None => r == Ok::<Option<T>, E>(None),
            Some(Ok(v)) => r == Ok::<Option<T>, E>(Some(v)),
            Some(Err(e)) => r == Err::<Option<T>, E>(e),
        },
{
    match x {
        None => Ok(None),
        Some(Ok(v)) => Ok(Some(v)),
        Some(Err(e)) => Err(e),
    }
}

} // verus!
