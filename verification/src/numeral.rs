//! The per-value transform: one unsigned integer to and from a positional
//! numeral over a byte alphabet. The base is the alphabet length; each
//! digit is the alphabet byte at the digit's value.

use crate::util::{all_ascii, ascii_to_string, chars_of_bytes, find_index, pos_of};
use vstd::prelude::*;

verus! {

/// The numeral digits of `value` over `alphabet`, most significant first.
/// Always at least one digit; `0` encodes as the alphabet's first byte.
pub open spec fn hash_spec(value: nat, alphabet: Seq<u8>) -> Seq<u8>
    decreases value,
    via hash_spec_decreases
{
    if alphabet.len() < 2 {
        Seq::empty()
    } else if value < alphabet.len() {
        seq![alphabet[value as int]]
    } else {
        hash_spec(value / alphabet.len(), alphabet).push(
            alphabet[(value % alphabet.len()) as int],
        )
    }
}

#[via_fn]
proof fn hash_spec_decreases(value: nat, alphabet: Seq<u8>) {
    if alphabet.len() >= 2 && value >= alphabet.len() {
        assert(value / alphabet.len() < value) by (nonlinear_arith)
            requires value >= alphabet.len() >= 2;
    }
}

/// The value that `input` denotes as a positional numeral over `alphabet`:
/// `None` if any byte is absent from the alphabet, otherwise the digits
/// accumulated most significant first.
pub open spec fn unhash_val(input: Seq<u8>, alphabet: Seq<u8>) -> Option<int>
    decreases input.len(),
{
    if input.len() == 0 {
        Some(0int)
    } else {
        match (unhash_val(input.drop_last(), alphabet), pos_of(alphabet, input.last())) {
            (Some(h), Some(p)) => Some(h * alphabet.len() + p),
            _ => None,
        }
    }
}

/// What decoding one segment yields: an empty segment is a decode failure.
pub open spec fn unhash_spec(input: Seq<u8>, alphabet: Seq<u8>) -> Option<int> {
    if input.len() == 0 {
        None
    } else {
        unhash_val(input, alphabet)
    }
}

/// The digits of `value`, as a byte vector.
pub(crate) fn hash_bytes(value: u64, alphabet: &[u8]) -> (r: Vec<u8>)
    requires
        2 <= alphabet@.len(),
    ensures
        r@ == hash_spec(value as nat, alphabet@),
        r@.len() >= 1,
{
    let base = alphabet.len() as u64;
    let mut buf: Vec<u8> = Vec::new();
    let mut v = value;
    loop
        invariant_except_break
            2 <= alphabet@.len(),
            base == alphabet@.len(),
            buf@.len() == 0 ==> v == value,
            buf@.len() > 0 ==> v > 0,
            hash_spec(value as nat, alphabet@) == if buf@.len() == 0 {
                hash_spec(v as nat, alphabet@)
            } else {
                hash_spec(v as nat, alphabet@) + buf@
            },
        ensures
            hash_spec(value as nat, alphabet@) == buf@,
            buf@.len() >= 1,
        decreases v,
    {
        let d = alphabet[(v % base) as usize];
        buf.insert(0, d);
        let ghost v_in = v as nat;
        let ghost buf_in = buf@.skip(1);
        v = v / base;
        proof {
            assert(buf@ =~= seq![d] + buf_in);
            if v_in < base {
                assert(v_in % (base as nat) == v_in && v_in / (base as nat) == 0)
                    by (nonlinear_arith)
                    requires 0 <= v_in < base, base >= 2;
                assert(hash_spec(v_in, alphabet@) =~= seq![d]);
                assert(hash_spec(v_in, alphabet@) + buf_in =~= buf@);
            } else {
                assert(v_in / (base as nat) >= 1) by (nonlinear_arith)
                    requires v_in >= base, base >= 2;
                assert(hash_spec(v_in, alphabet@) =~= hash_spec(v as nat, alphabet@) + seq![d]);
                assert(hash_spec(v_in, alphabet@) + buf_in =~= hash_spec(v as nat, alphabet@)
                    + buf@);
            }
        }
        if v == 0 {
            break;
        }
    }
    buf
}

/// Converts one value to its numeral string over the given alphabet.
pub fn hash(value: u64, alphabet: &[u8]) -> (r: String)
    requires
        2 <= alphabet@.len(),
        all_ascii(alphabet@),
    ensures
        r@ == chars_of_bytes(hash_spec(value as nat, alphabet@)),
{
    let bytes = hash_bytes(value, alphabet);
    proof {
        lemma_hash_spec_digits(value as nat, alphabet@);
    }
    ascii_to_string(bytes)
}

/// Every digit that `hash_spec` emits is a byte of the alphabet.
pub proof fn lemma_hash_spec_digits(value: nat, alphabet: Seq<u8>)
    ensures
        forall|i: int|
            0 <= i < hash_spec(value, alphabet).len() ==> alphabet.contains(
                #[trigger] hash_spec(value, alphabet)[i],
            ),
    decreases value,
{
    if alphabet.len() >= 2 && value >= alphabet.len() {
        assert(value / alphabet.len() < value) by (nonlinear_arith)
            requires value >= alphabet.len() >= 2;
        lemma_hash_spec_digits(value / alphabet.len(), alphabet);
        let rec = hash_spec(value / alphabet.len(), alphabet);
        let d = alphabet[(value % alphabet.len()) as int];
        assert(alphabet.contains(d));
        assert forall|i: int| 0 <= i < hash_spec(value, alphabet).len() implies alphabet.contains(
            #[trigger] hash_spec(value, alphabet)[i],
        ) by {
            if i < rec.len() {
                assert(hash_spec(value, alphabet)[i] == rec[i]);
            } else {
                assert(hash_spec(value, alphabet)[i] == d);
            }
        }
    } else if alphabet.len() >= 2 {
        assert(alphabet.contains(alphabet[value as int]));
    }
}

/// If a prefix of `input` already denotes no value, neither does `input`.
proof fn lemma_unhash_prefix_none(input: Seq<u8>, alphabet: Seq<u8>, k: int)
    requires
        0 <= k <= input.len(),
        unhash_val(input.take(k), alphabet) is None,
    ensures
        unhash_val(input, alphabet) is None,
    decreases input.len(),
{
    if k < input.len() {
        assert(input.drop_last().take(k) =~= input.take(k));
        lemma_unhash_prefix_none(input.drop_last(), alphabet, k);
    } else {
        assert(input.take(k) =~= input);
    }
}

/// A numeral's value is at least the value of any of its prefixes.
proof fn lemma_unhash_prefix_monotone(input: Seq<u8>, alphabet: Seq<u8>, k: int)
    requires
        0 <= k <= input.len(),
        unhash_val(input, alphabet) is Some,
    ensures
        unhash_val(input.take(k), alphabet) is Some,
        unhash_val(input.take(k), alphabet).unwrap() <= unhash_val(input, alphabet).unwrap(),
        unhash_val(input, alphabet).unwrap() >= 0,
    decreases input.len(),
{
    if input.len() == 0 {
        assert(input.take(k) =~= input);
    } else {
        let h = unhash_val(input.drop_last(), alphabet).unwrap();
        let p = pos_of(alphabet, input.last()).unwrap();
        lemma_unhash_prefix_monotone(input.drop_last(), alphabet, input.len() - 1);
        crate::util::lemma_pos_of(alphabet, input.last());
        assert(h * alphabet.len() + p >= h) by (nonlinear_arith)
            requires h >= 0, p >= 0, alphabet.len() >= 1;
        if k < input.len() {
            assert(input.drop_last().take(k) =~= input.take(k));
            lemma_unhash_prefix_monotone(input.drop_last(), alphabet, k);
        } else {
            assert(input.take(k) =~= input);
        }
    }
}

/// A numeral holding any byte foreign to the alphabet denotes no value.
pub proof fn lemma_unhash_foreign(input: Seq<u8>, alphabet: Seq<u8>, j: int)
    requires
        0 <= j < input.len(),
        !alphabet.contains(input[j]),
    ensures
        unhash_val(input, alphabet) is None,
    decreases input.len(),
{
    if j == input.len() - 1 {
        crate::util::lemma_pos_of_contains(alphabet, input.last());
    } else {
        assert(input.drop_last()[j] == input[j]);
        lemma_unhash_foreign(input.drop_last(), alphabet, j);
    }
}

/// Reads `input` as a numeral over `alphabet`. Fails on an empty input, on
/// any byte absent from the alphabet, and on a value beyond `u64` range.
pub fn unhash(input: &[u8], alphabet: &[u8]) -> (r: Option<u64>)
    ensures
        r is Some <==> (unhash_spec(input@, alphabet@) is Some
            && unhash_spec(input@, alphabet@).unwrap() <= u64::MAX),
        r is Some ==> unhash_spec(input@, alphabet@) == Some(r.unwrap() as int),
{
    if input.len() == 0 {
        return None;
    }
    let mut acc: u64 = 0;
    let mut idx: usize = 0;
    while idx < input.len()
        invariant
            0 <= idx <= input@.len(),
            input@.len() > 0,
            unhash_val(input@.take(idx as int), alphabet@) == Some(acc as int),
        decreases input@.len() - idx,
    {
        let ghost pre = input@.take(idx as int);
        let ghost cur = input@.take(idx + 1);
        proof {
            assert(cur.drop_last() =~= pre);
            assert(cur.last() == input@[idx as int]);
        }
        match find_index(alphabet, input[idx]) {
            None => {
                proof {
                    lemma_unhash_prefix_none(input@, alphabet@, idx + 1);
                }
                return None;
            },
            Some(p) => {
                proof {
                    crate::util::lemma_pos_of(alphabet@, input@[idx as int]);
                }
                let base = alphabet.len() as u64;
                let p64 = p as u64;
                if acc > (u64::MAX - p64) / base {
                    proof {
                        let full = unhash_val(input@, alphabet@);
                        if full is Some {
                            lemma_unhash_prefix_monotone(input@, alphabet@, idx + 1);
                            assert(acc * base + p64 > u64::MAX) by (nonlinear_arith)
                                requires
                                    base >= 1,
                                    0 <= p64 < base,
                                    acc > (u64::MAX - p64) as int / (base as int),
                                    acc >= 0;
                        }
                    }
                    return None;
                }
                proof {
                    assert(acc * base + p64 <= u64::MAX) by (nonlinear_arith)
                        requires
                            base >= 1,
                            p64 >= 0,
                            acc <= (u64::MAX - p64) as int / (base as int),
                            acc >= 0;
                }
                acc = acc * base + p64;
            },
        }
        idx = idx + 1;
    }
    proof {
        assert(input@.take(idx as int) =~= input@);
    }
    Some(acc)
}

} // verus!
