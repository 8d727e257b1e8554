//! Association sequences: key/value pairs kept in push order.
//!
//! Each sequence denotes the finite map obtained by inserting its pairs from
//! first to last, so a later pair for the same key supersedes an earlier one.
//! Appending a pair is therefore exactly a map `insert`, and lookup scans
//! backwards to find the pair that wins. Duplicate keys may stay in the
//! sequence; they are invisible in the denoted map.

use vstd::prelude::*;

verus! {

/// The map denoted by a sequence of `(u32, value)` pairs, later pairs winning.
pub open spec fn kv_map<V>(s: Seq<(u32, V)>) -> Map<u32, V>
    decreases s.len(),
{
    if s.len() == 0 {
        Map::empty()
    } else {
        kv_map(s.drop_last()).insert(s.last().0, s.last().1)
    }
}

/// Looks a key up in an association vector, returning the latest pair's value.
pub fn kv_get<'a, V>(entries: &'a Vec<(u32, V)>, k: u32) -> (r: Option<&'a V>)
    ensures
        match r {
            Some(v) => kv_map(entries@).contains_key(k) && *v == kv_map(entries@)[k],
            None => !kv_map(entries@).contains_key(k),
        },
{
    let mut hi: usize = entries.len();
    proof {
        assert(entries@.take(entries@.len() as int) =~= entries@);
    }
    while hi > 0
        invariant
            hi <= entries@.len(),
            kv_map(entries@).contains_key(k) == kv_map(entries@.take(hi as int)).contains_key(k),
            kv_map(entries@).contains_key(k) ==> kv_map(entries@.take(hi as int))[k] == kv_map(
                entries@,
            )[k],
        decreases hi,
    {
        proof {
            assert(entries@.take(hi as int).drop_last() =~= entries@.take(hi - 1));
        }
        let p = &entries[hi - 1];
        if p.0 == k {
            return Some(&p.1);
        }
        hi = hi - 1;
    }
    proof {
        assert(entries@.take(0) =~= Seq::<(u32, V)>::empty());
    }
    None
}

/// The map denoted by `(String, u32)` pairs, keyed by the string's characters.
pub open spec fn skv_map(s: Seq<(String, u32)>) -> Map<Seq<char>, u32>
    decreases s.len(),
{
    if s.len() == 0 {
        Map::empty()
    } else {
        skv_map(s.drop_last()).insert(s.last().0@, s.last().1)
    }
}

/// Looks a string key up in an association vector of `(String, u32)` pairs.
pub fn skv_get(entries: &Vec<(String, u32)>, k: &String) -> (r: Option<u32>)
    ensures
        match r {
            Some(v) => skv_map(entries@).contains_key(k@) && v == skv_map(entries@)[k@],
            None => !skv_map(entries@).contains_key(k@),
        },
{
    let mut hi: usize = entries.len();
    proof {
        assert(entries@.take(entries@.len() as int) =~= entries@);
    }
    while hi > 0
        invariant
            hi <= entries@.len(),
            skv_map(entries@).contains_key(k@) == skv_map(entries@.take(hi as int)).contains_key(
                k@,
            ),
            skv_map(entries@).contains_key(k@) ==> skv_map(entries@.take(hi as int))[k@] == skv_map(
                entries@,
            )[k@],
        decreases hi,
    {
        proof {
            assert(entries@.take(hi as int).drop_last() =~= entries@.take(hi - 1));
        }
        let p = &entries[hi - 1];
        if p.0 == *k {
            return Some(p.1);
        }
        hi = hi - 1;
    }
    proof {
        assert(entries@.take(0) =~= Seq::<(String, u32)>::empty());
    }
    None
}

/// The map denoted by `(Vec<u8>, Vec<u8>)` pairs, keyed and valued by views.
pub open spec fn bkv_map(s: Seq<(Vec<u8>, Vec<u8>)>) -> Map<Seq<u8>, Seq<u8>>
    decreases s.len(),
{
    if s.len() == 0 {
        Map::empty()
    } else {
        bkv_map(s.drop_last()).insert(s.last().0@, s.last().1@)
    }
}

/// Looks a byte-string key up in an association vector of byte entries.
pub fn bkv_get<'a>(entries: &'a Vec<(Vec<u8>, Vec<u8>)>, k: &Vec<u8>) -> (r: Option<&'a Vec<u8>>)
    ensures
        match r {
            Some(v) => bkv_map(entries@).contains_key(k@) && v@ == bkv_map(entries@)[k@],
            None => !bkv_map(entries@).contains_key(k@),
        },
{
    let mut hi: usize = entries.len();
    proof {
        assert(entries@.take(entries@.len() as int) =~= entries@);
    }
    while hi > 0
        invariant
            hi <= entries@.len(),
            bkv_map(entries@).contains_key(k@) == bkv_map(entries@.take(hi as int)).contains_key(
                k@,
            ),
            bkv_map(entries@).contains_key(k@) ==> bkv_map(entries@.take(hi as int))[k@] == bkv_map(
                entries@,
            )[k@],
        decreases hi,
    {
        proof {
            assert(entries@.take(hi as int).drop_last() =~= entries@.take(hi - 1));
        }
        let p = &entries[hi - 1];
        if p.0 == *k {
            proof {
                assert(p.0@ =~= k@);
            }
            return Some(&p.1);
        }
        hi = hi - 1;
    }
    proof {
        assert(entries@.take(0) =~= Seq::<(Vec<u8>, Vec<u8>)>::empty());
    }
    None
}

} // verus!
