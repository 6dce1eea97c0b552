//! Laws of the codec, stated and proved once and for all inputs: what a
//! test can only sample, these establish for every configuration.

use crate::codec::{decode_from, decode_spec, encode_spec, key_spec, stripped_of_guards, Harsh};
use crate::numeral::{hash_spec, lemma_unhash_foreign, unhash_spec, unhash_val};
use crate::shuffle::{lemma_shuffle_spec_props, shuffle_spec};
use crate::util::{first_in, lemma_first_in, lemma_pos_of, pos_of};
use vstd::prelude::*;

verus! {

/// Determinism: encoding the same values with the same configuration gives
/// byte-identical output. Two instances whose resolved fields agree encode
/// every value sequence identically.
pub proof fn lemma_encode_deterministic(h1: Harsh, h2: Harsh, values: Seq<u64>)
    requires
        h1.salt@ == h2.salt@,
        h1.alphabet@ == h2.alphabet@,
        h1.separators@ == h2.separators@,
        h1.guards@ == h2.guards@,
        h1.hash_length == h2.hash_length,
    ensures
        encode_spec(h1, values) == encode_spec(h2, values),
{
}

/// In a duplicate-free alphabet, each byte's first occurrence is its only
/// occurrence: looking up the byte at an index returns that index.
proof fn lemma_pos_of_nodup(alphabet: Seq<u8>, i: int)
    requires
        alphabet.no_duplicates(),
        0 <= i < alphabet.len(),
    ensures
        pos_of(alphabet, alphabet[i]) == Some(i),
{
    lemma_pos_of(alphabet, alphabet[i]);
    assert(alphabet.contains(alphabet[i]));
    match pos_of(alphabet, alphabet[i]) {
        Some(w) => {
            if w != i {
                assert(alphabet[w] == alphabet[i]);
            }
        },
        None => {
            assert(alphabet[i] != alphabet[i]);
        },
    }
}

/// The per-value round trip: a numeral written over a duplicate-free
/// alphabet reads back as exactly the value it was written from.
pub proof fn lemma_numeral_round_trip(value: u64, alphabet: Seq<u8>)
    requires
        2 <= alphabet.len(),
        alphabet.no_duplicates(),
    ensures
        unhash_spec(hash_spec(value as nat, alphabet), alphabet) == Some(value as int),
    decreases value,
{
    let v = value as nat;
    let len = alphabet.len();
    if v < len {
        let digits = hash_spec(v, alphabet);
        assert(digits =~= seq![alphabet[v as int]]);
        lemma_pos_of_nodup(alphabet, v as int);
        assert(digits.len() == 1);
        assert(digits.last() == alphabet[v as int]);
        assert(pos_of(alphabet, digits.last()) == Some(v as int));
        assert(digits.drop_last() =~= Seq::<u8>::empty());
        assert(unhash_val(digits.drop_last(), alphabet) == Some(0int));
        assert(unhash_val(digits, alphabet) == Some(0int * (len as int) + v as int));
        assert(0int * (len as int) + v as int == v as int);
    } else {
        let q = (value as u64) / (len as u64);
        assert(q as nat == v / len && (q as u64) < value) by (nonlinear_arith)
            requires v == value as nat, v >= len >= 2, q == value / (len as u64);
        lemma_numeral_round_trip(q, alphabet);
        let rec = hash_spec(q as nat, alphabet);
        let d = alphabet[(v % len) as int];
        let digits = hash_spec(v, alphabet);
        assert(digits == rec.push(d));
        assert(digits.drop_last() =~= rec);
        assert(digits.last() == d);
        assert(0 <= (v % len) < len) by (nonlinear_arith)
            requires len >= 2;
        lemma_pos_of_nodup(alphabet, (v % len) as int);
        assert(rec.len() >= 1);
        assert(unhash_val(rec, alphabet) == Some(q as int));
        assert(unhash_val(digits, alphabet) == Some((q as int) * len + (v % len)));
        assert((q as int) * len + (v % len) == v) by (nonlinear_arith)
            requires q as int == v as int / len as int, len >= 2, v >= 0;
    }
}

/// A byte foreign to both the alphabet and the separators fails the
/// per-segment decoding of any suffix it sits in.
proof fn lemma_decode_from_foreign(
    salt: Seq<u8>,
    seps: Seq<u8>,
    s: Seq<u8>,
    lottery: u8,
    alphabet: Seq<u8>,
    k: int,
)
    requires
        0 <= k < s.len(),
        !alphabet.contains(s[k]),
        !seps.contains(s[k]),
    ensures
        decode_from(salt, seps, s, lottery, alphabet) is None,
    decreases s.len(),
{
    lemma_first_in(s, seps);
    let segend = match first_in(s, seps) {
        Some(w) => w,
        None => s.len() as int,
    };
    let seg = s.take(segend);
    let key = key_spec(lottery, salt, alphabet);
    let alpha2 = shuffle_spec(alphabet, key);
    lemma_shuffle_spec_props(alphabet, key);
    if k < segend {
        assert(seg[k] == s[k]);
        assert(!alpha2.contains(s[k]));
        lemma_unhash_foreign(seg, alpha2, k);
    } else {
        assert(segend < s.len());
        assert(k != segend) by {
            if first_in(s, seps) is Some && k == segend {
                assert(seps.contains(s[segend]));
            }
        }
        let rest = s.skip(segend + 1);
        assert(rest[k - segend - 1] == s[k]);
        lemma_decode_from_foreign(salt, seps, rest, lottery, alpha2, k - segend - 1);
    }
}

/// Failure on a foreign byte: when the remainder that guard stripping
/// leaves holds, beyond its lottery byte, a byte that belongs neither to
/// the alphabet nor to the separators, the whole decode yields nothing.
pub proof fn lemma_decode_foreign_fails(h: Harsh, s: Seq<u8>, k: int)
    requires
        ({
            let s2 = stripped_of_guards(h.guards@, s);
            1 <= k < s2.len() && !h.alphabet@.contains(s2[k]) && !h.separators@.contains(s2[k])
        }),
    ensures
        decode_spec(h, s) is None,
{
    let s2 = stripped_of_guards(h.guards@, s);
    if s2.len() >= 2 {
        let body = s2.skip(1);
        assert(body[k - 1] == s2[k]);
        lemma_decode_from_foreign(h.salt@, h.separators@, body, s2[0], h.alphabet@, k - 1);
    }
}

/// The per-value loop emits at least one byte per remaining value, and
/// every emitted byte belongs to the alphabet or to the separators.
proof fn lemma_encode_from_emits(
    salt: Seq<u8>,
    seps: Seq<u8>,
    values: Seq<u64>,
    i: int,
    lottery: u8,
    alphabet: Seq<u8>,
)
    requires
        0 <= i,
        alphabet.len() >= 2,
        seps.len() >= 1,
    ensures
        crate::codec::encode_from(salt, seps, values, i, lottery, alphabet).0.len() >= values.len()
            - i,
        forall|b: u8|
            crate::codec::encode_from(salt, seps, values, i, lottery, alphabet).0.contains(b) ==> (
            alphabet.contains(b) || seps.contains(b)),
    decreases values.len() - i,
{
    if 0 <= i < values.len() {
        let key = key_spec(lottery, salt, alphabet);
        let alpha2 = shuffle_spec(alphabet, key);
        lemma_shuffle_spec_props(alphabet, key);
        let last = hash_spec(values[i] as nat, alpha2);
        crate::numeral::lemma_hash_spec_digits(values[i] as nat, alpha2);
        assert(forall|b: u8| last.contains(b) ==> alpha2.contains(b)) by {
            assert forall|b: u8| last.contains(b) implies alpha2.contains(b) by {
                let w = choose|w: int| 0 <= w < last.len() && last[w] == b;
                assert(alpha2.contains(last[w]));
            }
        }
        if i + 1 == values.len() {
            assert(last.len() >= 1);
        } else {
            let m = (values[i] as int) % (last[0] + i);
            let sep = seps[m % seps.len() as int];
            lemma_encode_from_emits(salt, seps, values, i + 1, lottery, alpha2);
            let rec = crate::codec::encode_from(salt, seps, values, i + 1, lottery, alpha2);
            let emitted = crate::codec::encode_from(salt, seps, values, i, lottery, alphabet).0;
            assert(emitted == last + seq![sep] + rec.0);
            assert(emitted.len() == last.len() + 1 + rec.0.len());
            assert forall|b: u8| emitted.contains(b) implies (alphabet.contains(b)
                || seps.contains(b)) by {
                let w = choose|w: int| 0 <= w < emitted.len() && emitted[w] == b;
                if w < last.len() {
                    assert(last[w] == b);
                    assert(last.contains(b));
                } else if w == last.len() {
                    assert(b == sep);
                    assert(0 <= m % (seps.len() as int) && m % (seps.len() as int) < seps.len());
                    assert(seps[m % seps.len() as int] == sep);
                    assert(seps.contains(sep));
                } else {
                    assert(rec.0[w - last.len() - 1] == b);
                    assert(rec.0.contains(b));
                }
            }
        }
    }
}

/// The per-value inversion: what the encoding loop emits from position `i`,
/// the decoding loop reads back as exactly the remaining values, provided
/// the alphabet is duplicate-free, free of the zero byte, and disjoint from
/// the separators.
proof fn lemma_decode_inverts(
    salt: Seq<u8>,
    seps: Seq<u8>,
    values: Seq<u64>,
    i: int,
    lottery: u8,
    alphabet: Seq<u8>,
)
    requires
        0 <= i < values.len(),
        alphabet.no_duplicates(),
        alphabet.len() >= 2,
        !alphabet.contains(0u8),
        seps.len() >= 1,
        forall|b: u8| alphabet.contains(b) ==> !seps.contains(b),
    ensures
        decode_from(
            salt,
            seps,
            crate::codec::encode_from(salt, seps, values, i, lottery, alphabet).0,
            lottery,
            alphabet,
        ) == Some(values.subrange(i, values.len() as int)),
    decreases values.len() - i,
{
    let key = key_spec(lottery, salt, alphabet);
    let alpha2 = shuffle_spec(alphabet, key);
    lemma_shuffle_spec_props(alphabet, key);
    let last = hash_spec(values[i] as nat, alpha2);
    crate::numeral::lemma_hash_spec_digits(values[i] as nat, alpha2);
    assert forall|w: int| 0 <= w < last.len() implies !seps.contains(#[trigger] last[w]) by {
        assert(alpha2.contains(last[w]));
        assert(alphabet.contains(last[w]));
    }
    lemma_numeral_round_trip(values[i], alpha2);
    let emitted = crate::codec::encode_from(salt, seps, values, i, lottery, alphabet).0;
    if i + 1 == values.len() {
        assert(emitted == last);
        lemma_first_in(emitted, seps);
        if first_in(emitted, seps) is Some {
            let w = first_in(emitted, seps).unwrap();
            assert(!seps.contains(emitted[w]));
        }
        assert(emitted.take(emitted.len() as int) =~= emitted);
        assert(decode_from(salt, seps, emitted, lottery, alphabet) == Some(
            seq![values[i]],
        ));
        assert(values.subrange(i, values.len() as int) =~= seq![values[i]]);
    } else {
        assert(last[0] != 0 && last[0] + i > 0) by {
            assert(alpha2.contains(last[0]));
            assert(alphabet.contains(last[0]));
        }
        let m = (values[i] as int) % (last[0] + i);
        let sep = seps[m % seps.len() as int];
        assert(0 <= m % (seps.len() as int) && m % (seps.len() as int) < seps.len());
        assert(seps.contains(sep)) by {
            assert(seps[m % seps.len() as int] == sep);
        }
        let rec = crate::codec::encode_from(salt, seps, values, i + 1, lottery, alpha2);
        assert(emitted == last + seq![sep] + rec.0);
        let sl = last.len() as int;
        assert(emitted[sl] == sep);
        assert(forall|w: int| 0 <= w < sl ==> emitted[w] == last[w]);
        lemma_first_in(emitted, seps);
        assert(first_in(emitted, seps) == Some(sl)) by {
            match first_in(emitted, seps) {
                Some(w) => {
                    if w < sl {
                        assert(!seps.contains(emitted[w]));
                    }
                    if w > sl {
                        assert(!seps.contains(emitted[sl]));
                    }
                },
                None => {
                    assert(!seps.contains(emitted[sl]));
                },
            }
        }
        assert(emitted.take(sl) =~= last);
        assert(emitted.skip(sl + 1) =~= rec.0);
        lemma_decode_inverts(salt, seps, values, i + 1, lottery, alpha2);
        assert(decode_from(salt, seps, rec.0, lottery, alpha2) == Some(
            values.subrange(i + 1, values.len() as int),
        ));
        assert(seq![values[i]] + values.subrange(i + 1, values.len() as int) =~= values.subrange(
            i,
            values.len() as int,
        ));
    }
}

/// Round trip: with no minimum length configured (so neither guards nor
/// padding touch the output), decoding an encoding recovers exactly the
/// values that were encoded, for every duplicate-free, zero-free alphabet
/// disjoint from the separators and guards — precisely what `init`
/// establishes for a resolved configuration.
pub proof fn lemma_round_trip(h: Harsh, values: Seq<u64>)
    requires
        h.hash_length == 0,
        values.len() >= 1,
        h.alphabet@.len() >= 2,
        h.separators@.len() >= 1,
        h.alphabet@.no_duplicates(),
        !h.alphabet@.contains(0u8),
        forall|b: u8| h.alphabet@.contains(b) ==> !h.separators@.contains(b),
        forall|b: u8| h.alphabet@.contains(b) ==> !h.guards@.contains(b),
        forall|b: u8| h.separators@.contains(b) ==> !h.guards@.contains(b),
    ensures
        decode_spec(h, encode_spec(h, values)) == Some(values),
{
    let alpha0 = h.alphabet@;
    let nhash = crate::codec::nhash_spec(values);
    let li = nhash % alpha0.len() as int;
    let lottery = alpha0[li];
    let run = crate::codec::encode_from(h.salt@, h.separators@, values, 0, lottery, alpha0);
    let body = seq![lottery] + run.0;
    let encoded = encode_spec(h, values);
    assert(0 <= li < alpha0.len());
    assert(alpha0.contains(lottery)) by {
        assert(alpha0[li] == lottery);
    }
    lemma_encode_from_emits(h.salt@, h.separators@, values, 0, lottery, alpha0);
    assert(crate::codec::guard_wrap(h.guards@, h.hash_length as nat, nhash, body) == body);
    assert(crate::codec::pad_spec(h.hash_length as nat, body, run.1) == body);
    assert(encoded == body);
    assert(body.len() >= 1 + values.len());
    // no byte of the encoding is a guard byte, so stripping removes nothing
    assert forall|w: int| 0 <= w < body.len() implies !h.guards@.contains(#[trigger] body[w]) by {
        if w == 0 {
            assert(body[0] == lottery);
        } else {
            assert(run.0.contains(body[w])) by {
                assert(run.0[w - 1] == body[w]);
            }
        }
    }
    crate::util::lemma_first_in(body, h.guards@);
    if first_in(body, h.guards@) is Some {
        let w = first_in(body, h.guards@).unwrap();
        assert(!h.guards@.contains(body[w]));
    }
    crate::util::lemma_last_in(body, h.guards@);
    if crate::util::last_in(body, h.guards@) is Some {
        let w = crate::util::last_in(body, h.guards@).unwrap();
        assert(!h.guards@.contains(body[w]));
    }
    assert(stripped_of_guards(h.guards@, encoded) == body);
    assert(body[0] == lottery);
    assert(body.skip(1) =~= run.0);
    lemma_decode_inverts(h.salt@, h.separators@, values, 0, lottery, alpha0);
    assert(values.subrange(0, values.len() as int) =~= values);
}

/// Hex round trip: with no minimum length configured, a non-empty hex
/// string that parses without overflow encodes to a hashid whose decoding
/// renders back as exactly the input, lowercased.
pub proof fn lemma_hex_round_trip(h: Harsh, s: Seq<u8>)
    requires
        h.hash_length == 0,
        s.len() >= 1,
        crate::hex::values_of_hex(s) is Some,
        h.alphabet@.len() >= 2,
        h.separators@.len() >= 1,
        h.alphabet@.no_duplicates(),
        !h.alphabet@.contains(0u8),
        forall|b: u8| h.alphabet@.contains(b) ==> !h.separators@.contains(b),
        forall|b: u8| h.alphabet@.contains(b) ==> !h.guards@.contains(b),
        forall|b: u8| h.separators@.contains(b) ==> !h.guards@.contains(b),
    ensures
        ({
            let vs = crate::hex::values_of_hex(s).unwrap();
            decode_spec(h, encode_spec(h, vs)) == Some(vs) && crate::hex::hex_output(vs)
                == crate::hex::lower_hex(s)
        }),
{
    let vs = crate::hex::values_of_hex(s).unwrap();
    assert(vs.len() >= 1);
    lemma_round_trip(h, vs);
    crate::hex::lemma_hex_values_render_lower(s);
}

} // verus!
