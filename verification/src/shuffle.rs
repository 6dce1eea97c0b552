//! The salt-seeded deterministic shuffle.
//!
//! This is not a uniform random shuffle: it is an intentionally simple,
//! fully reproducible pseudo-permutation. The same byte sequence and the
//! same salt always produce the same permutation, which is essential since
//! the decoder must independently reconstruct the exact permutation the
//! encoder used.

use vstd::arithmetic::div_mod::lemma_small_mod;
use vstd::prelude::*;

verus! {

/// One pass of the shuffle, iterating the write index `i` downward while the
/// salt cursor `v` and the running sum `p` of consumed salt bytes evolve.
pub open spec fn shuffle_round(values: Seq<u8>, salt: Seq<u8>, i: nat, v: nat, p: nat) -> Seq<u8>
    decreases i,
{
    if i == 0 || salt.len() == 0 || i >= values.len() {
        values
    } else {
        let vi = v % salt.len();
        let n = salt[vi as int] as nat;
        let p2 = p + n;
        let j = (n + vi + p2) % i;
        let swapped = values.update(i as int, values[j as int]).update(j as int, values[i as int]);
        shuffle_round(swapped, salt, (i - 1) as nat, vi + 1, p2)
    }
}

/// The permutation of `values` that the salt determines: a no-op for an
/// empty salt, otherwise `shuffle_round` starting at the last index.
pub open spec fn shuffle_spec(values: Seq<u8>, salt: Seq<u8>) -> Seq<u8> {
    if values.len() == 0 {
        values
    } else {
        shuffle_round(values, salt, (values.len() - 1) as nat, 0, 0)
    }
}

/// Swapping two entries keeps the members and keeps distinctness.
proof fn lemma_swap_props(s: Seq<u8>, i: int, j: int)
    requires
        0 <= i < s.len(),
        0 <= j < s.len(),
    ensures
        ({
            let w = s.update(i, s[j]).update(j, s[i]);
            (forall|b: u8| w.contains(b) <==> s.contains(b)) && (w.no_duplicates()
                <==> s.no_duplicates())
        }),
{
    let w = s.update(i, s[j]).update(j, s[i]);
    assert(forall|k: int|
        0 <= k < s.len() ==> w[k] == (if k == j {
            s[i]
        } else if k == i {
            s[j]
        } else {
            s[k]
        }));
    assert forall|b: u8| w.contains(b) <==> s.contains(b) by {
        if w.contains(b) {
            let k = choose|k: int| 0 <= k < w.len() && w[k] == b;
            if k == j {
                assert(s[i] == b);
            } else if k == i {
                assert(s[j] == b);
            } else {
                assert(s[k] == b);
            }
        }
        if s.contains(b) {
            let k = choose|k: int| 0 <= k < s.len() && s[k] == b;
            if k == i {
                assert(w[j] == b);
            } else if k == j {
                assert(w[i] == b);
            } else {
                assert(w[k] == b);
            }
        }
    }
    if s.no_duplicates() {
        assert forall|k: int, l: int| 0 <= k < l < w.len() implies w[k] != w[l] by {
            reveal(Seq::no_duplicates);
        }
        assert(w.no_duplicates()) by {
            reveal(Seq::no_duplicates);
        }
    }
    if w.no_duplicates() {
        assert forall|k: int, l: int| 0 <= k < l < s.len() implies s[k] != s[l] by {
            reveal(Seq::no_duplicates);
            let k2 = if k == i {
                j
            } else if k == j {
                i
            } else {
                k
            };
            let l2 = if l == i {
                j
            } else if l == j {
                i
            } else {
                l
            };
            assert(s[k] == w[k2] && s[l] == w[l2]);
            assert(k2 != l2);
            assert(w[k2] != w[l2]);
        }
        assert(s.no_duplicates()) by {
            reveal(Seq::no_duplicates);
        }
    }
}

/// The shuffle only permutes: membership and distinctness are unchanged.
pub proof fn lemma_shuffle_round_props(values: Seq<u8>, salt: Seq<u8>, i: nat, v: nat, p: nat)
    ensures
        ({
            let w = shuffle_round(values, salt, i, v, p);
            w.len() == values.len() && (forall|b: u8| w.contains(b) <==> values.contains(b)) && (
            w.no_duplicates() <==> values.no_duplicates())
        }),
    decreases i,
{
    if !(i == 0 || salt.len() == 0 || i >= values.len()) {
        let vi = v % salt.len();
        let n = salt[vi as int] as nat;
        let p2 = p + n;
        let j = (n + vi + p2) % i;
        lemma_swap_props(values, i as int, j as int);
        let swapped = values.update(i as int, values[j as int]).update(j as int, values[i as int]);
        lemma_shuffle_round_props(swapped, salt, (i - 1) as nat, vi + 1, p2);
    }
}

/// The salt-driven permutation keeps the members and keeps distinctness.
pub proof fn lemma_shuffle_spec_props(values: Seq<u8>, salt: Seq<u8>)
    ensures
        ({
            let w = shuffle_spec(values, salt);
            w.len() == values.len() && (forall|b: u8| w.contains(b) <==> values.contains(b)) && (
            w.no_duplicates() <==> values.no_duplicates())
        }),
{
    if values.len() > 0 {
        lemma_shuffle_round_props(values, salt, (values.len() - 1) as nat, 0, 0);
    }
}

/// Permutes `values` in place, driven by `salt`; a no-op if the salt is empty.
pub fn shuffle(values: &mut Vec<u8>, salt: &[u8])
    requires
        old(values)@.len() <= u32::MAX as nat,
        salt@.len() <= u32::MAX as nat,
    ensures
        final(values)@ == shuffle_spec(old(values)@, salt@),
        final(values)@.len() == old(values)@.len(),
{
    let ghost orig = values@;
    if salt.len() == 0 || values.len() <= 1 {
        proof {
            if orig.len() > 0 {
                assert(shuffle_round(orig, salt@, (orig.len() - 1) as nat, 0, 0) == orig);
            }
        }
        return;
    }
    let len = values.len();
    let salt_len = salt.len();
    let mut v: usize = 0;
    let mut p: u64 = 0;
    let mut i: usize = len - 1;
    while i > 0
        invariant
            values@.len() == len,
            len == orig.len(),
            1 <= len <= u32::MAX,
            salt_len == salt@.len(),
            0 < salt_len <= u32::MAX,
            i < len,
            v <= salt_len,
            p <= 255 * (len - 1 - i),
            shuffle_round(values@, salt@, i as nat, v as nat, p as nat) == shuffle_spec(
                orig,
                salt@,
            ),
        decreases i,
    {
        let ghost pre = values@;
        v = v % salt_len;
        let n = salt[v];
        let n64 = n as u64;
        proof {
            assert(p + n64 <= 255 * (len - 1 - i) + 255);
        }
        p = p + n64;
        let j = ((n64 + v as u64 + p) % (i as u64)) as usize;
        let byte_i = values[i];
        let byte_j = values[j];
        values[i] = byte_j;
        values[j] = byte_i;
        proof {
            assert(v < salt_len);
            lemma_small_mod(v as nat, salt_len as nat);
            let vi = (v as nat) % salt@.len();
            assert(vi == v as nat);
            assert(values@ =~= pre.update(i as int, pre[j as int]).update(j as int, pre[i as int]));
            assert(shuffle_round(pre, salt@, i as nat, v as nat, (p - n64) as nat)
                == shuffle_round(values@, salt@, (i - 1) as nat, (v + 1) as nat, p as nat));
        }
        v = v + 1;
        i = i - 1;
    }
}

} // verus!
