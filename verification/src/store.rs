//! Holding store queries: the flat directory of encoded entries, seen as
//! the sequence of stored names a scan yields. Locating a path filters that
//! sequence through the codec and keeps every match — the same path dropped
//! more than once has several entries, and recover and purge act on all of
//! them. Choosing the name for a new drop picks the smallest serial that
//! no present entry already uses, so that two drops of the same path within
//! the same second never collide.

use crate::codec;
use vstd::prelude::*;
use vstd::relations::injective_on;
use vstd::set_lib::lemma_int_range;
use vstd::set_lib::lemma_len_subset;
use vstd::set_lib::lemma_map_size;
use vstd::set_lib::set_int_range;

verus! {

/// The views of a vector of stored names.
pub open spec fn views_of(names: Seq<Vec<u8>>) -> Seq<Seq<u8>> {
    names.map_values(|v: Vec<u8>| v@)
}

/// Whether a stored name decodes to the original path `q`.
pub open spec fn decodes_to_path(name: Seq<u8>, q: Seq<u8>) -> bool {
    match codec::spec_decode(name) {
        Some(e) => e.2 == q,
        None => false,
    }
}

/// Every stored name in the scan that claims `q` as its original path, in
/// scan order.
pub open spec fn names_for(names: Seq<Seq<u8>>, q: Seq<u8>) -> Seq<Seq<u8>> {
    names.filter(|n: Seq<u8>| decodes_to_path(n, q))
}

/// The store after a purge of `q`: every match is gone, everything else
/// stays.
pub open spec fn without_matches(names: Seq<Seq<u8>>, q: Seq<u8>) -> Seq<Seq<u8>> {
    names.filter(|n: Seq<u8>| !decodes_to_path(n, q))
}

/// Filtering a sequence extended by one element keeps the old result and
/// appends the element exactly when it passes.
proof fn lemma_filter_push(s: Seq<Seq<u8>>, x: Seq<u8>, pred: spec_fn(Seq<u8>) -> bool)
    ensures
        s.push(x).filter(pred) == if pred(x) {
            s.filter(pred).push(x)
        } else {
            s.filter(pred)
        },
{
    reveal(Seq::filter);
    assert(s.push(x).drop_last() =~= s);
    assert(s.push(x).last() == x);
}

/// Whether `a` and `b` hold the same bytes.
pub fn bytes_eq(a: &[u8], b: &[u8]) -> (r: bool)
    ensures
        r == (a@ == b@),
{
    if a.len() != b.len() {
        return false;
    }
    let mut i: usize = 0;
    while i < a.len()
        invariant
            a@.len() == b@.len(),
            0 <= i <= a@.len(),
            forall|j: int| 0 <= j < i ==> a@[j] == b@[j],
        decreases a@.len() - i,
    {
        if a[i] != b[i] {
            return false;
        }
        i += 1;
    }
    proof {
        assert(a@ =~= b@);
    }
    true
}

/// Whether the scan already holds a given stored name.
pub fn contains_name(names: &Vec<Vec<u8>>, name: &[u8]) -> (r: bool)
    ensures
        r == views_of(names@).contains(name@),
{
    let mut i: usize = 0;
    while i < names.len()
        invariant
            0 <= i <= names@.len(),
            forall|j: int| 0 <= j < i ==> views_of(names@)[j] != name@,
        decreases names@.len() - i,
    {
        if bytes_eq(names[i].as_slice(), name) {
            proof {
                assert(views_of(names@)[i as int] == name@);
            }
            return true;
        }
        i += 1;
    }
    proof {
        if views_of(names@).contains(name@) {
            let j = choose|j: int|
                0 <= j < views_of(names@).len() && views_of(names@)[j] == name@;
            assert(views_of(names@)[j] != name@);
        }
    }
    false
}

/// Every stored entry whose decoded original path equals `query`, in scan
/// order — all of them, since the same path may have been dropped at
/// several moments.
pub fn locate(names: &Vec<Vec<u8>>, query: &[u8]) -> (r: Vec<Vec<u8>>)
    ensures
        views_of(r@) == names_for(views_of(names@), query@),
{
    let mut r: Vec<Vec<u8>> = Vec::new();
    let mut i: usize = 0;
    while i < names.len()
        invariant
            0 <= i <= names@.len(),
            views_of(r@) == names_for(views_of(names@).take(i as int), query@),
        decreases names@.len() - i,
    {
        let name = &names[i];
        let mut keep = false;
        match codec::decode(name.as_slice()) {
            Some(e) => {
                if bytes_eq(e.original_path.as_slice(), query) {
                    keep = true;
                }
            },
            None => {},
        }
        proof {
            let pred = |n: Seq<u8>| decodes_to_path(n, query@);
            let pre = views_of(names@).take(i as int);
            assert(views_of(names@)[i as int] == name@);
            assert(views_of(names@).take(i as int + 1) =~= pre.push(name@));
            lemma_filter_push(pre, name@, pred);
            assert(keep == pred(name@));
        }
        if keep {
            let ghost prev = r@;
            r.push(name.clone());
            proof {
                assert(views_of(r@) =~= views_of(prev).push(name@));
            }
        }
        i += 1;
    }
    proof {
        assert(views_of(names@).take(names@.len() as int) =~= views_of(names@));
    }
    r
}

/// Among the serials `0 ..= names.len()` at least one gives a stored name
/// that the scan does not hold yet: there are more candidates than entries.
proof fn lemma_free_serial_exists(t: u64, p: Seq<u8>, names: Seq<Seq<u8>>)
    requires
        names.len() <= u64::MAX,
    ensures
        exists|n: u64| n <= names.len() && !names.contains(codec::encoded_name(t, n, p)),
{
    let len = names.len() as int;
    if forall|n: u64| n <= names.len() ==> names.contains(#[trigger] codec::encoded_name(t, n, p)) {
        let f = |i: int| codec::encoded_name(t, i as u64, p);
        let rng = set_int_range(0, len + 1);
        lemma_int_range(0, len + 1);
        assert(injective_on(f, rng)) by {
            assert forall|i: int, j: int|
                rng.contains(i) && rng.contains(j) && #[trigger] f(i) == #[trigger] f(j) implies i
                == j by {
                codec::lemma_round_trip(t, i as u64, p);
                codec::lemma_round_trip(t, j as u64, p);
            }
        }
        let img = rng.map(f);
        lemma_map_size(rng, img, f);
        names.lemma_cardinality_of_set();
        assert(img.subset_of(names.to_set())) by {
            assert forall|x: Seq<u8>| img.contains(x) implies names.to_set().contains(x) by {
                let i = choose|i: int| rng.contains(i) && x == f(i);
                assert(i as u64 <= names.len());
                assert(names.contains(codec::encoded_name(t, i as u64, p)));
            }
        }
        lemma_len_subset(img, names.to_set());
        assert(false);
    }
}

/// `stored` is the name a drop of `p` at `t` chooses against the scanned
/// names: not yet present, and the encoding of `p` under the smallest
/// serial that achieves that.
pub open spec fn chosen_name(stored: Seq<u8>, t: u64, p: Seq<u8>, names: Seq<Seq<u8>>) -> bool {
    &&& !names.contains(stored)
    &&& exists|n: u64|
        {
            &&& stored == #[trigger] codec::encoded_name(t, n, p)
            &&& forall|m: u64|
                m < n ==> names.contains(#[trigger] codec::encoded_name(t, m, p))
        }
}

/// The stored name for a new drop of `path` at `drop_timestamp`: the
/// smallest serial whose encoded name no present holding entry uses. The
/// encoding alone would let two drops of the same path within one second
/// collide byte for byte; checking against the scan closes that gap.
pub fn fresh_name(drop_timestamp: u64, path: &[u8], existing: &Vec<Vec<u8>>) -> (r: Vec<u8>)
    ensures
        chosen_name(r@, drop_timestamp, path@, views_of(existing@)),
{
    let elen = existing.len();
    proof {
        assert(existing@.len() == elen);
        assert(usize::MAX <= u64::MAX);
        lemma_free_serial_exists(drop_timestamp, path@, views_of(existing@));
    }
    let ghost bound = choose|n: u64|
        n <= views_of(existing@).len() && !views_of(existing@).contains(
            codec::encoded_name(drop_timestamp, n, path@),
        );
    let mut serial: u64 = 0;
    loop
        invariant
            serial <= bound,
            !views_of(existing@).contains(codec::encoded_name(drop_timestamp, bound, path@)),
            forall|m: u64|
                m < serial ==> views_of(existing@).contains(
                    #[trigger] codec::encoded_name(drop_timestamp, m, path@),
                ),
        decreases bound - serial,
    {
        let candidate = codec::encode(drop_timestamp, serial, path);
        if !contains_name(existing, candidate.as_slice()) {
            return candidate;
        }
        proof {
            assert(serial != bound);
        }
        serial = serial + 1;
    }
}

/// Dropping the same path twice in immediate succession yields two
/// distinct holding entries, never a silent overwrite: the second choice
/// sees the first's name already in the store.
pub proof fn lemma_double_drop_distinct(names: Seq<Seq<u8>>, first: Seq<u8>, second: Seq<u8>)
    requires
        !names.contains(first),
        !names.push(first).contains(second),
    ensures
        first != second,
{
    assert(names.push(first)[names.len() as int] == first);
}

/// What a drop stores, a later scan locates: after the new entry is added,
/// locating its path yields exactly the earlier matches plus the new name.
pub proof fn lemma_drop_then_locate(names: Seq<Seq<u8>>, t: u64, serial: u64, p: Seq<u8>)
    ensures
        names_for(names.push(codec::encoded_name(t, serial, p)), p) == names_for(
            names,
            p,
        ).push(codec::encoded_name(t, serial, p)),
{
    codec::lemma_round_trip(t, serial, p);
    lemma_filter_push(names, codec::encoded_name(t, serial, p), |n: Seq<u8>| decodes_to_path(n, p));
}

/// A drop of one path leaves every other path's matches untouched.
pub proof fn lemma_drop_leaves_others(names: Seq<Seq<u8>>, t: u64, serial: u64, p: Seq<u8>, q: Seq<u8>)
    requires
        q != p,
    ensures
        names_for(names.push(codec::encoded_name(t, serial, p)), q) == names_for(names, q),
{
    codec::lemma_round_trip(t, serial, p);
    lemma_filter_push(names, codec::encoded_name(t, serial, p), |n: Seq<u8>| decodes_to_path(n, q));
}

/// Purge is irreversible and complete: once every match for `q` is removed
/// from the store, a later scan locates none, so a recover of `q` can only
/// report that nothing matches.
pub proof fn lemma_purge_removes_all(names: Seq<Seq<u8>>, q: Seq<u8>)
    ensures
        names_for(without_matches(names, q), q) == Seq::<Seq<u8>>::empty(),
    decreases names.len(),
{
    reveal(Seq::filter);
    if names.len() == 0 {
    } else {
        lemma_purge_removes_all(names.drop_last(), q);
        let n0 = names.drop_last();
        assert(names =~= n0.push(names.last()));
        lemma_filter_push(n0, names.last(), |n: Seq<u8>| !decodes_to_path(n, q));
        if !decodes_to_path(names.last(), q) {
            lemma_filter_push(
                without_matches(n0, q),
                names.last(),
                |n: Seq<u8>| decodes_to_path(n, q),
            );
        }
    }
}

} // verus!
