//! The encoder and decoder: a resolved configuration, the value checksum
//! that picks the lottery byte, and the pipelines that turn integer
//! sequences into hashid strings and back.

use crate::config::{
    alpha_base, alphabet_and_separators, dedup_spec, default_separators, filter_bytes_in,
    filter_bytes_out, filter_in, filter_out, guard_count, guards, lemma_filter_len,
    lemma_rebalanced_lens, lemma_resolve_subsets, resolve_spec, sep_base, unique_alphabet, Error,
};
use crate::numeral::{hash_bytes, hash_spec, unhash, unhash_spec};
use crate::shuffle::{lemma_shuffle_spec_props, shuffle, shuffle_spec};
use crate::util::{
    all_ascii, ascii_to_string, chars_of_bytes, contains_byte, copy_bytes, find_first_in,
    find_last_in, first_in, last_in, lemma_first_in, lemma_last_in, subvec,
};
use vstd::prelude::*;
use vstd::string::StringSliceAdditionalSpecFns;

verus! {

/// A hashids-style codec instance: the resolved configuration.
///
/// Built through `HarshBuilder`; immutable afterwards. Encoding and
/// decoding take a private scratch copy of the alphabet and never mutate
/// the instance.
#[derive(Clone, Debug)]
pub struct Harsh {
    pub salt: Vec<u8>,
    pub alphabet: Vec<u8>,
    pub separators: Vec<u8>,
    pub hash_length: usize,
    pub guards: Vec<u8>,
}

impl Harsh {
    /// The sizes a resolved configuration always has: enough alphabet to
    /// form numerals, at least one separator and one guard, and lengths
    /// small enough for the index arithmetic.
    pub open spec fn wf_counts(&self) -> bool {
        &&& 2 <= self.alphabet@.len() <= u32::MAX
        &&& 1 <= self.separators@.len() <= u32::MAX
        &&& 1 <= self.guards@.len() <= u32::MAX
        &&& self.salt@.len() <= u32::MAX
    }

    /// Well-formedness: the counts, ASCII output bytes, and no zero byte
    /// in the alphabet (a first numeral digit enters a modulus).
    pub open spec fn wf(&self) -> bool {
        &&& self.wf_counts()
        &&& all_ascii(self.alphabet@)
        &&& all_ascii(self.separators@)
        &&& all_ascii(self.guards@)
        &&& !self.alphabet@.contains(0u8)
    }
}

/// The checksum over the input values that selects the lottery byte:
/// the sum of `values[i] mod (i + 100)`.
pub open spec fn nhash_spec(values: Seq<u64>) -> int
    decreases values.len(),
{
    if values.len() == 0 {
        0
    } else {
        nhash_spec(values.drop_last()) + (values.last() as int) % (values.len() - 1 + 100)
    }
}

/// The checksum stays below a quadratic bound in the value count.
pub proof fn lemma_nhash_bound(values: Seq<u64>)
    ensures
        0 <= 2 * nhash_spec(values) <= values.len() * (values.len() + 197),
    decreases values.len(),
{
    if values.len() > 0 {
        let n = values.len() as int;
        lemma_nhash_bound(values.drop_last());
        assert(0 <= (values.last() as int) % (n - 1 + 100) <= n + 98) by (nonlinear_arith)
            requires n >= 1;
        assert((n - 1) * (n - 1 + 197) + 2 * (n + 98) == n * (n + 197)) by (nonlinear_arith);
    }
}

/// Computes the lottery checksum of `values`.
pub fn create_nhash(values: &[u64]) -> (r: u64)
    requires
        values@.len() <= u32::MAX as nat,
    ensures
        r as int == nhash_spec(values@),
{
    let mut acc: u64 = 0;
    let mut i: usize = 0;
    while i < values.len()
        invariant
            i <= values@.len() <= u32::MAX,
            acc as int == nhash_spec(values@.take(i as int)),
        decreases values@.len() - i,
    {
        let ghost pre = values@.take(i as int);
        let ghost cur = values@.take(i + 1);
        proof {
            assert(cur.drop_last() =~= pre);
            assert(cur.last() == values@[i as int]);
            lemma_nhash_bound(cur);
            assert(cur.len() * (cur.len() + 197) <= (u32::MAX as int) * (u32::MAX as int + 197))
                by (nonlinear_arith)
                requires 0 <= cur.len() <= u32::MAX as int;
        }
        let term = values[i] % (i as u64 + 100);
        acc = acc + term;
        i = i + 1;
    }
    proof {
        assert(values@.take(values@.len() as int) =~= values@);
    }
    acc
}

/// The shuffle key for one position: the lottery byte, then the salt, then
/// the alphabet itself, truncated to the alphabet's length.
pub open spec fn key_spec(lottery: u8, salt: Seq<u8>, alphabet: Seq<u8>) -> Seq<u8> {
    (seq![lottery] + salt + alphabet).take(alphabet.len() as int)
}

/// Re-permutes the scratch alphabet for the next value, exactly as both
/// pipelines must: shuffled by lottery + salt + current alphabet.
fn next_alphabet(alphabet: &mut Vec<u8>, lottery: u8, salt: &[u8])
    requires
        old(alphabet)@.len() <= u32::MAX as nat,
        salt@.len() <= u32::MAX as nat,
    ensures
        final(alphabet)@ == shuffle_spec(
            old(alphabet)@,
            key_spec(lottery, salt@, old(alphabet)@),
        ),
        final(alphabet)@.len() == old(alphabet)@.len(),
        forall|b: u8| final(alphabet)@.contains(b) <==> old(alphabet)@.contains(b),
{
    let mut key: Vec<u8> = Vec::new();
    key.push(lottery);
    let mut salt_part = copy_bytes(salt);
    key.append(&mut salt_part);
    let mut alpha_part = copy_bytes(alphabet.as_slice());
    key.append(&mut alpha_part);
    key.truncate(alphabet.len());
    proof {
        assert(key@ =~= key_spec(lottery, salt@, alphabet@));
        lemma_shuffle_spec_props(alphabet@, key@);
    }
    shuffle(alphabet, key.as_slice());
}

/// What the per-value loop emits from position `i` on, and the alphabet
/// state it leaves behind: each value's numeral over a freshly permuted
/// alphabet, with a value-dependent separator after every value but the
/// last.
pub open spec fn encode_from(
    salt: Seq<u8>,
    seps: Seq<u8>,
    values: Seq<u64>,
    i: int,
    lottery: u8,
    alphabet: Seq<u8>,
) -> (Seq<u8>, Seq<u8>)
    decreases values.len() - i,
{
    if i < 0 || i >= values.len() {
        (Seq::empty(), alphabet)
    } else {
        let alpha2 = shuffle_spec(alphabet, key_spec(lottery, salt, alphabet));
        let last = hash_spec(values[i] as nat, alpha2);
        if i + 1 == values.len() {
            (last, alpha2)
        } else {
            let m = (values[i] as int) % (last[0] + i);
            let sep = seps[m % seps.len() as int];
            let rec = encode_from(salt, seps, values, i + 1, lottery, alpha2);
            (last + seq![sep] + rec.0, rec.1)
        }
    }
}

/// Guard insertion for a too-short output: one guard byte in front, chosen
/// by the checksum and the first byte; if still short, one more at the end,
/// chosen by the checksum and the third byte of the prepended buffer.
pub open spec fn guard_wrap(guards: Seq<u8>, hash_length: nat, nhash: int, body: Seq<u8>) -> Seq<
    u8,
> {
    if body.len() >= hash_length {
        body
    } else {
        let g1 = guards[(nhash + body[0]) % guards.len() as int];
        let b1 = seq![g1] + body;
        if b1.len() >= hash_length {
            b1
        } else {
            b1.push(guards[(nhash + b1[2]) % guards.len() as int])
        }
    }
}

/// Padding toward the minimum length: the scratch alphabet reshuffles with
/// itself as salt, its halves wrap the buffer, and an overshoot is trimmed
/// symmetrically.
pub open spec fn pad_spec(hash_length: nat, b: Seq<u8>, alphabet: Seq<u8>) -> Seq<u8>
    decreases hash_length - b.len(),
    via pad_spec_decreases
{
    if b.len() >= hash_length || alphabet.len() == 0 {
        b
    } else {
        let a2 = shuffle_spec(alphabet, alphabet);
        let half = alphabet.len() as int / 2;
        let wrapped = a2.skip(half) + b + a2.take(half);
        if wrapped.len() > hash_length {
            let marker = (wrapped.len() - hash_length) as int / 2;
            pad_spec(hash_length, wrapped.subrange(marker, marker + hash_length), a2)
        } else {
            pad_spec(hash_length, wrapped, a2)
        }
    }
}

#[via_fn]
proof fn pad_spec_decreases(hash_length: nat, b: Seq<u8>, alphabet: Seq<u8>) {
    if !(b.len() >= hash_length || alphabet.len() == 0) {
        lemma_shuffle_spec_props(alphabet, alphabet);
    }
}

/// The whole encoding of a non-empty value sequence: lottery byte, the
/// per-value numerals and separators, then guards and padding as the
/// minimum length demands.
pub open spec fn encode_spec(h: Harsh, values: Seq<u64>) -> Seq<u8> {
    let alpha0 = h.alphabet@;
    let nhash = nhash_spec(values);
    let lottery = alpha0[nhash % alpha0.len() as int];
    let run = encode_from(h.salt@, h.separators@, values, 0, lottery, alpha0);
    let body = seq![lottery] + run.0;
    let guarded = guard_wrap(h.guards@, h.hash_length as nat, nhash, body);
    pad_spec(h.hash_length as nat, guarded, run.1)
}

impl Harsh {
    /// Encodes a slice of `u64` values into a single hashid. Returns
    /// `None` exactly when `values` is empty; the output is the encoding
    /// that `encode_spec` pins down and is never shorter than the
    /// configured minimum length.
    pub fn encode(&self, values: &[u64]) -> (r: Option<String>)
        requires
            self.wf(),
            values@.len() <= u32::MAX as nat,
        ensures
            r is Some <==> values@.len() > 0,
            r is Some ==> r.unwrap()@ == chars_of_bytes(encode_spec(*self, values@)),
            r is Some ==> r.unwrap()@.len() >= self.hash_length,
    {
        if values.len() == 0 {
            return None;
        }
        let nhash = create_nhash(values);
        proof {
            lemma_nhash_bound(values@);
            assert(values@.len() * (values@.len() + 197) <= (u32::MAX as int) * (u32::MAX as int
                + 197)) by (nonlinear_arith)
                requires 0 <= values@.len() <= u32::MAX as int;
            assert(nhash as int + 255 <= u64::MAX as int);
        }
        let ghost alpha0 = self.alphabet@;
        let mut alphabet = copy_bytes(self.alphabet.as_slice());
        let alen = alphabet.len() as u64;
        let li = (nhash % alen) as usize;
        let lottery = alphabet[li];
        let mut buffer: Vec<u8> = Vec::new();
        buffer.push(lottery);
        let ghost run = encode_from(self.salt@, self.separators@, values@, 0, lottery, alpha0);
        proof {
            assert(alpha0.contains(lottery)) by {
                assert(alpha0[li as int] == lottery);
            }
            assert(all_ascii(buffer@));
        }
        let mut i: usize = 0;
        while i < values.len()
            invariant
                self.wf(),
                i <= values@.len() <= u32::MAX,
                1 <= values@.len(),
                alpha0 == self.alphabet@,
                alphabet@.len() == alpha0.len(),
                forall|b: u8| alphabet@.contains(b) ==> alpha0.contains(b),
                run == encode_from(self.salt@, self.separators@, values@, 0, lottery, alpha0),
                seq![lottery] + run.0 == buffer@ + encode_from(
                    self.salt@,
                    self.separators@,
                    values@,
                    i as int,
                    lottery,
                    alphabet@,
                ).0,
                run.1 == encode_from(
                    self.salt@,
                    self.separators@,
                    values@,
                    i as int,
                    lottery,
                    alphabet@,
                ).1,
                buffer@.len() >= 1 + i,
                all_ascii(buffer@),
            decreases values@.len() - i,
        {
            let ghost buffer_pre = buffer@;
            let ghost alpha_pre = alphabet@;
            next_alphabet(&mut alphabet, lottery, self.salt.as_slice());
            let last = hash_bytes(values[i], alphabet.as_slice());
            let ghost last_s = last@;
            let first = last[0];
            proof {
                crate::numeral::lemma_hash_spec_digits(values@[i as int] as nat, alphabet@);
                assert(alphabet@.contains(first)) by {
                    assert(last_s[0] == first);
                }
                assert(alpha0.contains(first));
                assert(first != 0 && first < 128);
            }
            let mut last_m = last;
            buffer.append(&mut last_m);
            proof {
                assert(all_ascii(buffer@)) by {
                    assert(forall|k: int|
                        0 <= k < buffer@.len() ==> buffer@[k] == (if k < buffer_pre.len() {
                            buffer_pre[k]
                        } else {
                            last_s[k - buffer_pre.len()]
                        }));
                    assert(forall|k: int|
                        0 <= k < last_s.len() ==> alpha0.contains(#[trigger] last_s[k]));
                }
            }
            let ghost ef_i = encode_from(
                self.salt@,
                self.separators@,
                values@,
                i as int,
                lottery,
                alpha_pre,
            );
            if i + 1 < values.len() {
                let d = first as u64 + i as u64;
                let v2 = values[i] % d;
                let sl = self.separators.len() as u64;
                let sep = self.separators[(v2 % sl) as usize];
                buffer.push(sep);
                proof {
                    assert(self.separators@.contains(sep)) by {
                        assert(self.separators@[(v2 % sl) as int] == sep);
                    }
                    assert(all_ascii(buffer@)) by {
                        lemma_push_ascii_stays(buffer@.drop_last(), sep);
                        assert(buffer@ =~= buffer@.drop_last().push(sep));
                    }
                    assert(ef_i.0 =~= last_s + seq![sep] + encode_from(
                        self.salt@,
                        self.separators@,
                        values@,
                        i + 1,
                        lottery,
                        alphabet@,
                    ).0);
                    assert(buffer@ =~= buffer_pre + last_s + seq![sep]);
                    assert(buffer_pre + ef_i.0 =~= buffer@ + encode_from(
                        self.salt@,
                        self.separators@,
                        values@,
                        i + 1,
                        lottery,
                        alphabet@,
                    ).0);
                }
            } else {
                proof {
                    assert(ef_i.0 == last_s && ef_i.1 == alphabet@);
                    assert(encode_from(
                        self.salt@,
                        self.separators@,
                        values@,
                        i + 1,
                        lottery,
                        alphabet@,
                    ).0 =~= Seq::<u8>::empty());
                    assert(buffer_pre + ef_i.0 =~= buffer@ + encode_from(
                        self.salt@,
                        self.separators@,
                        values@,
                        i + 1,
                        lottery,
                        alphabet@,
                    ).0);
                }
            }
            i = i + 1;
        }
        proof {
            assert(encode_from(
                self.salt@,
                self.separators@,
                values@,
                values@.len() as int,
                lottery,
                alphabet@,
            ).0 =~= Seq::<u8>::empty());
            assert(buffer@ =~= seq![lottery] + run.0);
            assert(alphabet@ == run.1);
        }
        let ghost body = buffer@;
        let hl = self.hash_length;
        if buffer.len() < hl {
            let glen = self.guards.len() as u64;
            let gi1 = ((nhash + buffer[0] as u64) % glen) as usize;
            let g1 = self.guards[gi1];
            let ghost pre_insert = buffer@;
            buffer.insert(0, g1);
            proof {
                assert(buffer@ =~= seq![g1] + pre_insert);
                assert(self.guards@.contains(g1)) by {
                    assert(self.guards@[gi1 as int] == g1);
                }
                assert(all_ascii(buffer@));
            }
            if buffer.len() < hl {
                let gi2 = ((nhash + buffer[2] as u64) % glen) as usize;
                let g2 = self.guards[gi2];
                let ghost pre_push = buffer@;
                buffer.push(g2);
                proof {
                    assert(self.guards@.contains(g2)) by {
                        assert(self.guards@[gi2 as int] == g2);
                    }
                    lemma_push_ascii_stays(pre_push, g2);
                }
            }
        }
        proof {
            assert(buffer@ == guard_wrap(self.guards@, hl as nat, nhash as int, body));
        }
        let ghost guarded = buffer@;
        let ghost alpha_g = alphabet@;
        let half = alphabet.len() / 2;
        while buffer.len() < hl
            invariant
                self.wf(),
                hl == self.hash_length,
                alpha0 == self.alphabet@,
                alphabet@.len() == alpha0.len(),
                half == alpha0.len() / 2,
                forall|b: u8| alphabet@.contains(b) ==> alpha0.contains(b),
                all_ascii(buffer@),
                pad_spec(hl as nat, buffer@, alphabet@) == pad_spec(hl as nat, guarded, alpha_g),
            decreases hl - buffer@.len(),
        {
            let ghost buffer_in = buffer@;
            let ghost alpha_pre = alphabet@;
            let acopy = copy_bytes(alphabet.as_slice());
            shuffle(&mut alphabet, acopy.as_slice());
            proof {
                lemma_shuffle_spec_props(alpha_pre, alpha_pre);
            }
            let mut nb = subvec(alphabet.as_slice(), half, alphabet.len());
            nb.append(&mut buffer);
            let mut left_part = subvec(alphabet.as_slice(), 0, half);
            nb.append(&mut left_part);
            buffer = nb;
            proof {
                assert(buffer@ =~= alphabet@.skip(half as int) + buffer_in + alphabet@.take(
                    half as int,
                ));
                assert(all_ascii(buffer@)) by {
                    assert(forall|k: int|
                        0 <= k < alphabet@.len() ==> alpha0.contains(#[trigger] alphabet@[k]));
                }
            }
            let ghost wrapped = buffer@;
            if buffer.len() > hl {
                let excess = buffer.len() - hl;
                let marker = excess / 2;
                let trimmed = subvec(buffer.as_slice(), marker, marker + hl);
                buffer = trimmed;
                proof {
                    assert(all_ascii(buffer@)) by {
                        assert(forall|k: int|
                            0 <= k < buffer@.len() ==> buffer@[k] == wrapped[k + marker]);
                    }
                }
            }
            proof {
                assert(pad_spec(hl as nat, buffer_in, alpha_pre) == pad_spec(
                    hl as nat,
                    buffer@,
                    alphabet@,
                ));
            }
        }
        proof {
            assert(pad_spec(hl as nat, buffer@, alphabet@) == buffer@);
            assert(buffer@ == encode_spec(*self, values@));
        }
        Some(ascii_to_string(buffer))
    }
}

/// What decoding the byte suffix `s` yields: the segment up to the next
/// separator is read as a numeral over a freshly permuted alphabet, and
/// the remaining suffix follows with the updated alphabet. Any unreadable
/// or out-of-range segment fails the whole decode.
pub open spec fn decode_from(
    salt: Seq<u8>,
    seps: Seq<u8>,
    s: Seq<u8>,
    lottery: u8,
    alphabet: Seq<u8>,
) -> Option<Seq<u64>>
    decreases s.len(),
    via decode_from_decreases
{
    let segend = match first_in(s, seps) {
        Some(k) => k,
        None => s.len() as int,
    };
    let seg = s.take(segend);
    let alpha2 = shuffle_spec(alphabet, key_spec(lottery, salt, alphabet));
    let val = unhash_spec(seg, alpha2);
    if val is None || val.unwrap() > u64::MAX {
        None
    } else if segend == s.len() {
        Some(seq![val.unwrap() as u64])
    } else {
        match decode_from(salt, seps, s.skip(segend + 1), lottery, alpha2) {
            Some(rest) => Some(seq![val.unwrap() as u64] + rest),
            None => None,
        }
    }
}

#[via_fn]
proof fn decode_from_decreases(
    salt: Seq<u8>,
    seps: Seq<u8>,
    s: Seq<u8>,
    lottery: u8,
    alphabet: Seq<u8>,
) {
    lemma_first_in(s, seps);
}

/// What guard stripping leaves: everything up to and including the first
/// guard byte goes, then everything from the last guard byte on.
pub open spec fn stripped_of_guards(guards: Seq<u8>, s: Seq<u8>) -> Seq<u8> {
    let s1 = match first_in(s, guards) {
        Some(g) => s.skip(g + 1),
        None => s,
    };
    match last_in(s1, guards) {
        Some(g) => s1.take(g),
        None => s1,
    }
}

/// The whole decoding of a hashid: strip the guards, require at least two
/// bytes, read the first as the lottery byte, and decode the rest.
pub open spec fn decode_spec(h: Harsh, s: Seq<u8>) -> Option<Seq<u64>> {
    let s2 = stripped_of_guards(h.guards@, s);
    if s2.len() < 2 {
        None
    } else {
        decode_from(h.salt@, h.separators@, s2.skip(1), s2[0], h.alphabet@)
    }
}

impl Harsh {
    /// Decodes a single hashid back into the `u64` values it encodes.
    /// Returns exactly what `decode_spec` pins down: `None` on malformed,
    /// truncated or foreign input.
    pub fn decode(&self, value: &str) -> (r: Option<Vec<u64>>)
        requires
            self.alphabet@.len() <= u32::MAX as nat,
            self.salt@.len() <= u32::MAX as nat,
        ensures
            r is Some <==> decode_spec(*self, value.spec_bytes()) is Some,
            r is Some ==> decode_spec(*self, value.spec_bytes()) == Some(r.unwrap()@),
    {
        let bytes = value.as_bytes();
        let blen = bytes.len();
        proof {
            lemma_first_in(bytes@, self.guards@);
            assert(bytes@.len() == blen);
        }
        let start: usize = match find_first_in(bytes, self.guards.as_slice()) {
            Some(g) => {
                proof {
                    assert(first_in(bytes@, self.guards@) == Some(g as int));
                    assert(g < bytes@.len());
                }
                g + 1
            },
            None => 0,
        };
        let s1 = subvec(bytes, start, bytes.len());
        proof {
            lemma_first_in(bytes@, self.guards@);
            assert(s1@ =~= match first_in(bytes@, self.guards@) {
                Some(g) => bytes@.skip(g + 1),
                None => bytes@,
            });
        }
        proof {
            lemma_last_in(s1@, self.guards@);
        }
        let end = match find_last_in(s1.as_slice(), self.guards.as_slice()) {
            Some(g) => g,
            None => s1.len(),
        };
        let s2 = subvec(s1.as_slice(), 0, end);
        proof {
            lemma_last_in(s1@, self.guards@);
            assert(s2@ =~= match last_in(s1@, self.guards@) {
                Some(g) => s1@.take(g),
                None => s1@,
            });
        }
        if s2.len() < 2 {
            proof {
                assert(decode_spec(*self, value.spec_bytes()) is None);
            }
            return None;
        }
        let lottery = s2[0];
        let body = subvec(s2.as_slice(), 1, s2.len());
        proof {
            assert(body@ =~= s2@.skip(1));
        }
        let mut alphabet = copy_bytes(self.alphabet.as_slice());
        let mut out: Vec<u64> = Vec::new();
        let ghost target = decode_from(
            self.salt@,
            self.separators@,
            body@,
            lottery,
            self.alphabet@,
        );
        proof {
            assert(decode_spec(*self, value.spec_bytes()) == target);
            assert(body@.skip(0) =~= body@);
            if target is Some {
                assert(Seq::<u64>::empty() + target.unwrap() =~= target.unwrap());
            }
        }
        let mut pos: usize = 0;
        loop
            invariant_except_break
                alphabet@.len() == self.alphabet@.len(),
                pos <= body@.len(),
                match decode_from(
                    self.salt@,
                    self.separators@,
                    body@.skip(pos as int),
                    lottery,
                    alphabet@,
                ) {
                    Some(rest) => target == Some(out@ + rest),
                    None => target is None,
                },
            invariant
                self.alphabet@.len() <= u32::MAX,
                self.salt@.len() <= u32::MAX,
                target == decode_from(self.salt@, self.separators@, body@, lottery, self.alphabet@),
                target == decode_spec(*self, value.spec_bytes()),
            ensures
                target == Some(out@),
            decreases body@.len() - pos,
        {
            let ghost rem = body@.skip(pos as int);
            let mut k: usize = pos;
            loop
                invariant_except_break
                    pos <= k <= body@.len(),
                    forall|m: int|
                        pos <= m < k ==> !self.separators@.contains(#[trigger] body@[m]),
                ensures
                    pos <= k <= body@.len(),
                    forall|m: int|
                        pos <= m < k ==> !self.separators@.contains(#[trigger] body@[m]),
                    k < body@.len() ==> self.separators@.contains(body@[k as int]),
                decreases body@.len() - k,
            {
                if k == body.len() {
                    break;
                }
                if contains_byte(self.separators.as_slice(), body[k]) {
                    break;
                }
                k = k + 1;
            }
            let ghost segend = match first_in(rem, self.separators@) {
                Some(w) => w,
                None => rem.len() as int,
            };
            proof {
                lemma_first_in(rem, self.separators@);
                assert(forall|m: int| 0 <= m < rem.len() ==> rem[m] == body@[pos + m]);
                match first_in(rem, self.separators@) {
                    Some(w) => {
                        if pos + w < k {
                            assert(!self.separators@.contains(body@[pos + w]));
                        }
                        if pos + w > k {
                            assert(k < body@.len());
                            assert(!self.separators@.contains(rem[k - pos]));
                        }
                        assert(segend == k - pos);
                    },
                    None => {
                        if k < body@.len() {
                            assert(!self.separators@.contains(rem[k - pos]));
                        }
                        assert(k == body@.len() && segend == rem.len());
                    },
                }
            }
            let seg = subvec(body.as_slice(), pos, k);
            let ghost alpha_in = alphabet@;
            proof {
                assert(seg@ =~= rem.take(segend));
            }
            next_alphabet(&mut alphabet, lottery, self.salt.as_slice());
            let ghost step = decode_from(self.salt@, self.separators@, rem, lottery, alpha_in);
            match unhash(seg.as_slice(), alphabet.as_slice()) {
                None => {
                    proof {
                        assert(seg@ == rem.take(segend));
                        assert(alphabet@ == shuffle_spec(
                            alpha_in,
                            key_spec(lottery, self.salt@, alpha_in),
                        ));
                        assert(step is None);
                        assert(target is None);
                    }
                    return None;
                },
                Some(v) => {
                    let ghost out_pre = out@;
                    out.push(v);
                    proof {
                        assert(out@ =~= out_pre + seq![v]);
                    }
                    if k == body.len() {
                        proof {
                            assert(segend == rem.len());
                            assert(step == Some(seq![v]));
                        }
                        break;
                    }
                    pos = k + 1;
                    proof {
                        assert(body@.skip(pos as int) =~= rem.skip(segend + 1));
                        let rest = decode_from(
                            self.salt@,
                            self.separators@,
                            rem.skip(segend + 1),
                            lottery,
                            alphabet@,
                        );
                        if rest is Some {
                            assert(step == Some(seq![v] + rest.unwrap()));
                            assert(out_pre + (seq![v] + rest.unwrap()) =~= out@ + rest.unwrap());
                        } else {
                            assert(step is None);
                        }
                    }
                },
            }
        }
        Some(out)
    }
}

/// The salt a builder resolves to: the supplied bytes, or none.
pub open spec fn builder_salt(b: HarshBuilder) -> Seq<u8> {
    match b.salt {
        Some(s) => s@,
        None => Seq::empty(),
    }
}

/// A builder used to configure and create a `Harsh` instance.
#[derive(Debug)]
pub struct HarshBuilder {
    pub salt: Option<Vec<u8>>,
    pub alphabet: Option<Vec<u8>>,
    pub separators: Option<Vec<u8>>,
    pub hash_length: usize,
}

impl HarshBuilder {
    /// Creates a new `HarshBuilder` instance: everything defaulted.
    pub fn new() -> (r: HarshBuilder)
        ensures
            r.salt is None,
            r.alphabet is None,
            r.separators is None,
            r.hash_length == 0,
    {
        HarshBuilder { salt: None, alphabet: None, separators: None, hash_length: 0 }
    }

    /// Provides a salt; its bytes seed every shuffle.
    pub fn salt(self, salt: &str) -> (r: HarshBuilder)
        ensures
            builder_salt(r) == salt.spec_bytes(),
            r.alphabet == self.alphabet,
            r.separators == self.separators,
            r.hash_length == self.hash_length,
    {
        let bytes = copy_bytes(salt.as_bytes());
        HarshBuilder {
            salt: Some(bytes),
            alphabet: self.alphabet,
            separators: self.separators,
            hash_length: self.hash_length,
        }
    }

    /// Provides an alphabet; its bytes become the working symbol set.
    pub fn alphabet(self, alphabet: &str) -> (r: HarshBuilder)
        ensures
            alpha_base(r.alphabet) == alphabet.spec_bytes(),
            r.salt == self.salt,
            r.separators == self.separators,
            r.hash_length == self.hash_length,
    {
        let bytes = copy_bytes(alphabet.as_bytes());
        HarshBuilder {
            salt: self.salt,
            alphabet: Some(bytes),
            separators: self.separators,
            hash_length: self.hash_length,
        }
    }

    /// Provides a set of separator candidates.
    pub fn separators(self, separators: &str) -> (r: HarshBuilder)
        ensures
            sep_base(r.separators) == separators.spec_bytes(),
            r.salt == self.salt,
            r.alphabet == self.alphabet,
            r.hash_length == self.hash_length,
    {
        let bytes = copy_bytes(separators.as_bytes());
        HarshBuilder {
            salt: self.salt,
            alphabet: self.alphabet,
            separators: Some(bytes),
            hash_length: self.hash_length,
        }
    }

    /// Provides a minimum hash length; outputs may be longer, never shorter.
    pub fn length(self, hash_length: usize) -> (r: HarshBuilder)
        ensures
            r.hash_length == hash_length,
            r.salt == self.salt,
            r.alphabet == self.alphabet,
            r.separators == self.separators,
    {
        HarshBuilder {
            salt: self.salt,
            alphabet: self.alphabet,
            separators: self.separators,
            hash_length,
        }
    }

    /// Initializes a new `Harsh` from this builder, resolving the working
    /// alphabet, separators and guards. Fails on a space in the alphabet,
    /// and when fewer than 16 distinct bytes remain after deduplication or
    /// after the separators claim their bytes.
    pub fn init(self) -> (r: Result<Harsh, Error>)
        requires
            alpha_base(self.alphabet).len() <= u32::MAX as nat,
            sep_base(self.separators).len() <= u32::MAX as nat,
            builder_salt(self).len() <= u32::MAX as nat,
        ensures
            ({
                let base = alpha_base(self.alphabet);
                let sbase = sep_base(self.separators);
                let salt = builder_salt(self);
                let deduped = dedup_spec(base);
                let seps1 = filter_in(sbase, deduped);
                let alpha1 = filter_out(deduped, seps1);
                match r {
                    Err(e) => (base.contains(32u8) && e == Error::IllegalCharacter(' ')) || (
                    !base.contains(32u8) && (deduped.len() < 16 || alpha1.len() < 16) && e
                        == Error::AlphabetLength),
                    Ok(h) => {
                        &&& !base.contains(32u8)
                        &&& deduped.len() >= 16
                        &&& alpha1.len() >= 16
                        &&& h.salt@ == salt
                        &&& h.hash_length == self.hash_length
                        &&& h.alphabet@ == resolve_spec(sbase, deduped, salt).0
                        &&& h.separators@ == resolve_spec(sbase, deduped, salt).1
                        &&& h.guards@ == resolve_spec(sbase, deduped, salt).2
                        &&& h.wf_counts()
                        &&& (all_ascii(base) && all_ascii(sbase) && !base.contains(0u8))
                            ==> h.wf()
                        &&& sbase.no_duplicates() ==> {
                            &&& h.alphabet@.no_duplicates()
                            &&& h.separators@.no_duplicates()
                            &&& h.guards@.no_duplicates()
                            &&& forall|x: u8|
                                h.alphabet@.contains(x) ==> !h.separators@.contains(x)
                            &&& forall|x: u8| h.alphabet@.contains(x) ==> !h.guards@.contains(x)
                            &&& forall|x: u8|
                                h.separators@.contains(x) ==> !h.guards@.contains(x)
                        }
                    },
                }
            }),
    {
        let alphabet = match unique_alphabet(&self.alphabet) {
            Ok(a) => a,
            Err(e) => {
                return Err(e);
            },
        };
        let salt: Vec<u8> = match &self.salt {
            Some(s) => copy_bytes(s.as_slice()),
            None => Vec::new(),
        };
        let seps_raw: Vec<u8> = match &self.separators {
            Some(s) => copy_bytes(s.as_slice()),
            None => default_separators(),
        };
        let seps_probe = filter_bytes_in(seps_raw.as_slice(), alphabet.as_slice());
        let alpha_probe = filter_bytes_out(alphabet.as_slice(), seps_probe.as_slice());
        if alpha_probe.len() < 16 {
            return Err(Error::AlphabetLength);
        }
        proof {
            lemma_filter_len(alpha_base(self.alphabet), alpha_base(self.alphabet));
            lemma_filter_len(sep_base(self.separators), alphabet@);
            lemma_filter_len(alphabet@, seps_probe@);
        }
        let pair = alphabet_and_separators(&self.separators, alphabet.as_slice(), salt.as_slice());
        let mut alphabet2 = pair.0;
        let mut separators = pair.1;
        let ghost deduped = dedup_spec(alpha_base(self.alphabet));
        let ghost sbase = sep_base(self.separators);
        let ghost seps1 = filter_in(sbase, deduped);
        let ghost alpha1 = filter_out(deduped, seps1);
        let ghost seps2 = shuffle_spec(seps1, salt@);
        proof {
            lemma_shuffle_spec_props(seps1, salt@);
            lemma_rebalanced_lens(alpha1, seps2);
            lemma_shuffle_spec_props(crate::config::rebalanced(alpha1, seps2).0, salt@);
            assert(alphabet2@.len() >= 11);
        }
        let guards_v = guards(&mut alphabet2, &mut separators);
        proof {
            let a = shuffle_spec(crate::config::rebalanced(alpha1, seps2).0, salt@);
            let gc = guard_count(a.len()) as int;
            assert(1 <= gc && a.len() - gc >= 2) by (nonlinear_arith)
                requires a.len() >= 11, gc == (a.len() + 11) / 12;
        }
        let h = Harsh {
            salt,
            alphabet: alphabet2,
            separators,
            hash_length: self.hash_length,
            guards: guards_v,
        };
        proof {
            let base = alpha_base(self.alphabet);
            assert(h.alphabet@ == resolve_spec(sbase, deduped, salt@).0);
            assert(h.separators@ == resolve_spec(sbase, deduped, salt@).1);
            assert(h.guards@ == resolve_spec(sbase, deduped, salt@).2);
            lemma_resolve_subsets(sbase, deduped, salt@);
            if sbase.no_duplicates() {
                crate::config::lemma_dedup_nodup(base);
                crate::config::lemma_resolve_distinct(sbase, deduped, salt@);
            }
            if all_ascii(base) && all_ascii(sbase) && !base.contains(0u8) {
                assert forall|k: int| 0 <= k < h.alphabet@.len() implies h.alphabet@[k] < 128
                    && h.alphabet@[k] != 0u8 by {
                    let x = h.alphabet@[k];
                    assert(resolve_spec(sbase, deduped, salt@).0.contains(x)) by {
                        assert(resolve_spec(sbase, deduped, salt@).0[k] == x);
                    }
                    assert(deduped.contains(x));
                    crate::config::lemma_dedup_contains(base, x);
                    assert(base.contains(x));
                    let w = choose|w: int| 0 <= w < base.len() && base[w] == x;
                    assert(base[w] < 128);
                }
                assert forall|k: int| 0 <= k < h.separators@.len() implies h.separators@[k]
                    < 128 by {
                    let x = h.separators@[k];
                    assert(resolve_spec(sbase, deduped, salt@).1.contains(x)) by {
                        assert(resolve_spec(sbase, deduped, salt@).1[k] == x);
                    }
                    lemma_base_byte_ascii(base, sbase, deduped, x);
                }
                assert forall|k: int| 0 <= k < h.guards@.len() implies h.guards@[k] < 128 by {
                    let x = h.guards@[k];
                    assert(resolve_spec(sbase, deduped, salt@).2.contains(x)) by {
                        assert(resolve_spec(sbase, deduped, salt@).2[k] == x);
                    }
                    lemma_base_byte_ascii(base, sbase, deduped, x);
                }
                assert(!h.alphabet@.contains(0u8)) by {
                    if h.alphabet@.contains(0u8) {
                        let w = choose|w: int| 0 <= w < h.alphabet@.len() && h.alphabet@[w]
                            == 0u8;
                        assert(h.alphabet@[w] != 0u8);
                    }
                }
            }
        }
        Ok(h)
    }
}

/// A byte drawn from the deduplicated alphabet or the separator candidates
/// is ASCII whenever both supplies are.
proof fn lemma_base_byte_ascii(base: Seq<u8>, sbase: Seq<u8>, deduped: Seq<u8>, b: u8)
    requires
        deduped == dedup_spec(base),
        all_ascii(base),
        all_ascii(sbase),
        deduped.contains(b) || sbase.contains(b),
    ensures
        b < 128,
{
    if deduped.contains(b) {
        crate::config::lemma_dedup_contains(base, b);
        let w = choose|w: int| 0 <= w < base.len() && base[w] == b;
        assert(base[w] < 128);
    } else {
        let w = choose|w: int| 0 <= w < sbase.len() && sbase[w] == b;
        assert(sbase[w] < 128);
    }
}

impl Default for Harsh {
    /// The configuration from all defaults: empty salt, the 62-byte
    /// alphabet, the default separators, no minimum length. Whenever the
    /// defaults resolve (and they keep well over 16 usable bytes), the
    /// result is the resolved instance; the fixed fallback below is out of
    /// reach for the actual default byte sets.
    fn default() -> (r: Harsh)
        ensures
            ({
                let base = crate::config::default_alphabet_spec();
                let sbase = crate::config::default_separators_spec();
                let deduped = dedup_spec(base);
                let alpha1 = filter_out(deduped, filter_in(sbase, deduped));
                (!base.contains(32u8) && deduped.len() >= 16 && alpha1.len() >= 16) ==> {
                    &&& r.salt@ == Seq::<u8>::empty()
                    &&& r.hash_length == 0
                    &&& r.alphabet@ == resolve_spec(sbase, deduped, Seq::<u8>::empty()).0
                    &&& r.separators@ == resolve_spec(sbase, deduped, Seq::<u8>::empty()).1
                    &&& r.guards@ == resolve_spec(sbase, deduped, Seq::<u8>::empty()).2
                    &&& r.wf_counts()
                    &&& (all_ascii(base) && all_ascii(sbase) && !base.contains(0u8)) ==> r.wf()
                }
            }),
    {
        proof {
            reveal_strlit("abcdefghijklmnopqrstuvwxyzABCDEFGHIJKLMNOPQRSTUVWXYZ1234567890");
            reveal_strlit("cfhistuCFHISTU");
        }
        match HarshBuilder::new().init() {
            Ok(h) => h,
            Err(_) => {
                let mut alphabet: Vec<u8> = Vec::new();
                alphabet.push(97u8);
                alphabet.push(98u8);
                let mut separators: Vec<u8> = Vec::new();
                separators.push(99u8);
                let mut guard_bytes: Vec<u8> = Vec::new();
                guard_bytes.push(100u8);
                Harsh {
                    salt: Vec::new(),
                    alphabet,
                    separators,
                    hash_length: 0,
                    guards: guard_bytes,
                }
            },
        }
    }
}

/// Pushing an ASCII byte onto an ASCII buffer keeps it ASCII.
proof fn lemma_push_ascii_stays(s: Seq<u8>, b: u8)
    requires
        all_ascii(s),
        b < 128,
    ensures
        all_ascii(s.push(b)),
{
    assert(forall|k: int|
        0 <= k < s.push(b).len() ==> s.push(b)[k] == (if k < s.len() {
            s[k]
        } else {
            b
        }));
}

} // verus!
