//! The order of keys in a table, and the run of keys under a nibble prefix.
use vstd::prelude::*;

use crate::nibbles::{is_path, padded_nibble, seek_key, starts_with, unpacked};
use crate::primitives::B256;

verus! {

/// `a` and `b` agree on their first `i` elements and `a` has the smaller one there.
pub open spec fn parts_below(a: Seq<u8>, b: Seq<u8>, i: int) -> bool {
    &&& 0 <= i < a.len()
    &&& i < b.len()
    &&& forall|j: int| 0 <= j < i ==> a[j] == b[j]
    &&& a[i] < b[i]
}

/// `a` comes before `b` among keys of one length.
pub open spec fn key_before(a: Seq<u8>, b: Seq<u8>) -> bool {
    exists|i: int| #[trigger] parts_below(a, b, i)
}

/// The keys of a table, each once, in ascending order.
pub open spec fn ascending(keys: Seq<B256>) -> bool {
    forall|i: int, j: int|
        0 <= i < j < keys.len() ==> key_before(#[trigger] keys[i]@, #[trigger] keys[j]@)
}

/// The nibbles of `key` begin with `prefix`.
pub open spec fn key_under(key: B256, prefix: Seq<u8>) -> bool {
    starts_with(unpacked(key@), prefix)
}

/// The keys under `prefix`.
pub open spec fn keys_under(keys: Seq<B256>, prefix: Seq<u8>) -> Seq<B256> {
    keys.filter(|key: B256| key_under(key, prefix))
}

/// Whether `a` comes before `b`.
pub fn is_key_before(a: &B256, b: &B256) -> (r: bool)
    ensures
        r == key_before(a@, b@),
        !r ==> a@ == b@ || key_before(b@, a@),
{
    let mut i: usize = 0;
    while i < 32
        invariant
            i <= 32,
            forall|j: int| 0 <= j < i ==> a@[j] == b@[j],
        decreases 32 - i,
    {
        if a[i] != b[i] {
            proof {
                if a@[i as int] < b@[i as int] {
                    assert(parts_below(a@, b@, i as int));
                } else {
                    assert(parts_below(b@, a@, i as int));
                    if key_before(a@, b@) {
                        let k = choose|k: int| parts_below(a@, b@, k);
                        assert(k < i ==> a@[k] == b@[k]);
                    }
                }
            }
            return a[i] < b[i];
        }
        i = i + 1;
    }
    assert(a@ =~= b@);
    false
}

/// Keys are ordered as their nibbles are.
proof fn lemma_nibble_order(a: Seq<u8>, b: Seq<u8>) -> (n: int)
    requires
        a.len() == b.len(),
        key_before(a, b),
    ensures
        parts_below(unpacked(a), unpacked(b), n),
{
    let i = choose|i: int| parts_below(a, b, i);
    let x = unpacked(a);
    let y = unpacked(b);
    assert forall|j: int| 0 <= j < 2 * i implies x[j] == y[j] by {
        assert(a[j / 2] == b[j / 2]);
    }
    if a[i] / 16 < b[i] / 16 {
        assert(parts_below(x, y, 2 * i));
        2 * i
    } else {
        assert(a[i] / 16 == b[i] / 16);
        assert(x[2 * i] == y[2 * i]);
        assert((2 * i + 1) / 2 == i);
        assert(parts_below(x, y, 2 * i + 1));
        2 * i + 1
    }
}

/// The seek key has the nibbles of its prefix and then zeros.
proof fn lemma_seek_nibbles(prefix: Seq<u8>)
    requires
        is_path(prefix),
    ensures
        unpacked(seek_key(prefix)).len() == 64,
        forall|j: int| 0 <= j < 64 ==> unpacked(seek_key(prefix))[j] == padded_nibble(prefix, j),
{
    let s = seek_key(prefix);
    assert forall|j: int| 0 <= j < 64 implies unpacked(s)[j] == padded_nibble(prefix, j) by {
        let i = j / 2;
        let hi = padded_nibble(prefix, 2 * i);
        let lo = padded_nibble(prefix, 2 * i + 1);
        assert(hi < 16 && lo < 16);
        assert(s[i] == hi * 16 + lo);
        assert(j == 2 * i || j == 2 * i + 1);
    }
}

/// A key before the seek key of a prefix is not under the prefix.
pub proof fn lemma_before_seek(key: B256, prefix: Seq<u8>)
    requires
        is_path(prefix),
        key_before(key@, seek_key(prefix)),
    ensures
        !key_under(key, prefix),
{
    lemma_seek_nibbles(prefix);
    let n = lemma_nibble_order(key@, seek_key(prefix));
    assert(padded_nibble(prefix, n) > 0);
    assert(unpacked(key@)[n] != prefix[n]);
}

/// Once a key at or past the seek key of a prefix is not under the prefix, no later key is.
pub proof fn lemma_past_prefix(key: B256, later: B256, prefix: Seq<u8>)
    requires
        is_path(prefix),
        !key_before(key@, seek_key(prefix)),
        key@ == seek_key(prefix) || key_before(seek_key(prefix), key@),
        !key_under(key, prefix),
        key_before(key@, later@),
    ensures
        !key_under(later, prefix),
{
    lemma_seek_nibbles(prefix);
    let k = unpacked(key@);
    let l = unpacked(later@);
    if key@ == seek_key(prefix) {
        assert(starts_with(k, prefix));
    } else {
        let s = unpacked(seek_key(prefix));
        let n = lemma_nibble_order(seek_key(prefix), key@);
        let m = lemma_nibble_order(key@, later@);
        if n >= prefix.len() {
            assert forall|j: int| 0 <= j < prefix.len() implies k[j] == prefix[j] by {
                assert(s[j] == k[j]);
            }
            assert(starts_with(k, prefix));
        } else {
            assert(s[n] == prefix[n] && s[n] < k[n]);
            if m < n {
                assert(s[m] == k[m]);
                assert(l[m] != prefix[m]);
            } else {
                assert(l[n] != prefix[n]);
            }
        }
    }
}

/// The index of the first key that is not before `key`, as a cursor's seek finds it.
pub fn seek(keys: &[B256], key: &B256) -> (at: usize)
    ensures
        at <= keys@.len(),
        forall|i: int| 0 <= i < at ==> key_before(#[trigger] keys@[i]@, key@),
        at < keys@.len() ==> !key_before(keys@[at as int]@, key@) && (keys@[at as int]@ == key@
            || key_before(key@, keys@[at as int]@)),
{
    let mut at: usize = 0;
    while at < keys.len() && is_key_before(&keys[at], key)
        invariant
            at <= keys@.len(),
            forall|i: int| 0 <= i < at ==> key_before(#[trigger] keys@[i]@, key@),
        decreases keys.len() - at,
    {
        at = at + 1;
    }
    at
}

/// The keys under a prefix are the run of them that starts where a search for the seek key ends:
/// all keys from `lo` to `hi` are under the prefix, and the one at `hi` is not.
pub proof fn lemma_run_is_all(keys: Seq<B256>, prefix: Seq<u8>, lo: int, hi: int)
    requires
        is_path(prefix),
        ascending(keys),
        0 <= lo <= hi <= keys.len(),
        forall|i: int| 0 <= i < lo ==> key_before(#[trigger] keys[i]@, seek_key(prefix)),
        lo < keys.len() ==> !key_before(keys[lo]@, seek_key(prefix)) && (keys[lo]@ == seek_key(
            prefix,
        ) || key_before(seek_key(prefix), keys[lo]@)),
        forall|i: int| lo <= i < hi ==> key_under(#[trigger] keys[i], prefix),
        hi < keys.len() ==> !key_under(keys[hi], prefix),
    ensures
        keys_under(keys, prefix) == keys.subrange(lo, hi),
{
    let under = |key: B256| key_under(key, prefix);
    assert forall|i: int| 0 <= i < keys.len() implies under(#[trigger] keys[i]) == (lo <= i
        < hi) by {
        if i < lo {
            lemma_before_seek(keys[i], prefix);
        } else if i >= hi {
            lemma_past_run(keys, prefix, lo, hi, i);
        }
    }
    lemma_filter_run(keys, under, lo, hi);
}

/// No key past the end of a run is under the prefix.
proof fn lemma_past_run(keys: Seq<B256>, prefix: Seq<u8>, lo: int, hi: int, i: int)
    requires
        is_path(prefix),
        ascending(keys),
        0 <= lo <= hi <= i < keys.len(),
        !key_before(keys[lo]@, seek_key(prefix)),
        keys[lo]@ == seek_key(prefix) || key_before(seek_key(prefix), keys[lo]@),
        !key_under(keys[hi], prefix),
    ensures
        !key_under(keys[i], prefix),
{
    if hi > lo {
        lemma_order_transitive(keys, lo, hi, prefix);
    }
    if i > hi {
        lemma_past_prefix(keys[hi], keys[i], prefix);
    }
}

/// Keys after one that is not before the seek key are past the seek key.
proof fn lemma_order_transitive(keys: Seq<B256>, lo: int, hi: int, prefix: Seq<u8>)
    requires
        ascending(keys),
        0 <= lo < hi < keys.len(),
        keys[lo]@ == seek_key(prefix) || key_before(seek_key(prefix), keys[lo]@),
    ensures
        key_before(seek_key(prefix), keys[hi]@),
        !key_before(keys[hi]@, seek_key(prefix)),
{
    let s = seek_key(prefix);
    let a = keys[lo]@;
    let b = keys[hi]@;
    assert(key_before(a, b));
    let j = choose|j: int| parts_below(a, b, j);
    let n = if a == s {
        j
    } else {
        let i = choose|i: int| parts_below(s, a, i);
        if i < j {
            i
        } else {
            j
        }
    };
    assert(parts_below(s, b, n));
    if key_before(b, s) {
        let m = choose|m: int| parts_below(b, s, m);
        assert(m < n ==> s[m] == b[m]);
        assert(n < m ==> s[n] == b[n]);
    }
}

/// A filter that keeps exactly a run keeps that run.
proof fn lemma_filter_run(keys: Seq<B256>, keep: spec_fn(B256) -> bool, lo: int, hi: int)
    requires
        0 <= lo <= hi <= keys.len(),
        forall|i: int| 0 <= i < keys.len() ==> keep(#[trigger] keys[i]) == (lo <= i < hi),
    ensures
        keys.filter(keep) == keys.subrange(lo, hi),
    decreases keys.len(),
{
    reveal(Seq::filter);
    if keys.len() == 0 {
        assert(keys.filter(keep) =~= keys.subrange(lo, hi));
    } else {
        let init = keys.drop_last();
        assert(keep(keys.last()) == (hi == keys.len() && lo < hi));
        if hi == keys.len() && lo < hi {
            lemma_filter_run(init, keep, lo, hi - 1);
            assert(keys.subrange(lo, hi) =~= init.subrange(lo, hi - 1).push(keys.last()));
        } else if hi == keys.len() {
            lemma_filter_run(init, keep, lo - 1, hi - 1);
            assert(keys.subrange(lo, hi) =~= init.subrange(lo - 1, hi - 1));
        } else {
            lemma_filter_run(init, keep, lo, hi);
            assert(keys.subrange(lo, hi) =~= init.subrange(lo, hi));
        }
    }
}

/// Keys are ordered by the first byte in which they differ.
pub proof fn lemma_first_difference_orders(
    common: Seq<u8>,
    a: Seq<u8>,
    b: Seq<u8>,
)
    requires
        a.len() > 0,
        b.len() > 0,
        a[0] != b[0],
    ensures
        key_before(common + a, common + b) <==> a[0] < b[0],
        !key_before(common, common),
{
    let k = common.len() as int;
    let x = common + a;
    let y = common + b;
    if a[0] < b[0] {
        assert(parts_below(x, y, k));
    } else if key_before(x, y) {
        let i = choose|i: int| parts_below(x, y, i);
        assert(i < k ==> x[i] == y[i]);
        assert(k < i ==> x[k] == y[k]);
    }
}

/// A key is under a prefix exactly where its nibbles are the prefix and something more; the keys
/// under a prefix are those of a table, in its order, that are.
pub proof fn lemma_keys_under(keys: Seq<B256>, prefix: Seq<u8>)
    ensures
        forall|key: B256| #[trigger]
            key_under(key, prefix) <==> prefix.len() <= 64 && unpacked(key@).take(
                prefix.len() as int,
            ) == prefix,
        keys_under(keys, prefix) == keys.filter(
            |key: B256| prefix.len() <= 64 && unpacked(key@).take(prefix.len() as int) == prefix,
        ),
{
    assert forall|key: B256| #[trigger] key_under(key, prefix) <==> prefix.len() <= 64 && unpacked(
        key@,
    ).take(prefix.len() as int) == prefix by {
        let nibbles = unpacked(key@);
        assert(nibbles.len() == 64);
        if key_under(key, prefix) {
            assert(nibbles.take(prefix.len() as int) =~= prefix);
        }
        if prefix.len() <= 64 && nibbles.take(prefix.len() as int) == prefix {
            assert forall|i: int| 0 <= i < prefix.len() implies nibbles[i] == prefix[i] by {
                assert(nibbles.take(prefix.len() as int)[i] == nibbles[i]);
            }
        }
    }
    let under = |key: B256| key_under(key, prefix);
    let begins = |key: B256|
        prefix.len() <= 64 && unpacked(key@).take(prefix.len() as int) == prefix;
    assert(under =~= begins);
}

} // verus!
