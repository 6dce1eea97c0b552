//! The configuration resolver: derives the working alphabet, the separator
//! set and the guard set from the user-supplied (or default) alphabet,
//! separators and salt.

use crate::shuffle::{shuffle, shuffle_spec};
use crate::util::{contains_byte, copy_bytes, pos_of, subvec};
use vstd::prelude::*;
use vstd::string::StringSliceAdditionalSpecFns;

verus! {

/// A configuration could not be built.
#[derive(Clone, Copy, Debug, PartialEq, Eq, Structural)]
pub enum Error {
    /// Fewer than 16 distinct usable bytes remain in the alphabet.
    AlphabetLength,
    /// The supplied alphabet holds a forbidden character.
    IllegalCharacter(char),
}

/// The default 62-byte alphabet: lowercase, uppercase, digits.
pub open spec fn default_alphabet_spec() -> Seq<u8> {
    "abcdefghijklmnopqrstuvwxyzABCDEFGHIJKLMNOPQRSTUVWXYZ1234567890"@.map_values(
        |c: char| c as u8,
    )
}

/// The default separator candidates.
pub open spec fn default_separators_spec() -> Seq<u8> {
    "cfhistuCFHISTU"@.map_values(|c: char| c as u8)
}

/// The default alphabet, as bytes.
pub fn default_alphabet() -> (r: Vec<u8>)
    ensures
        r@ == default_alphabet_spec(),
{
    let s = "abcdefghijklmnopqrstuvwxyzABCDEFGHIJKLMNOPQRSTUVWXYZ1234567890";
    proof {
        reveal_strlit("abcdefghijklmnopqrstuvwxyzABCDEFGHIJKLMNOPQRSTUVWXYZ1234567890");
        assert(vstd::string::is_ascii(s));
        vstd::string::is_ascii_spec_bytes(s);
        assert(s.spec_bytes() =~= default_alphabet_spec());
    }
    copy_bytes(s.as_bytes())
}

/// The default separator candidates, as bytes.
pub fn default_separators() -> (r: Vec<u8>)
    ensures
        r@ == default_separators_spec(),
{
    let s = "cfhistuCFHISTU";
    proof {
        reveal_strlit("cfhistuCFHISTU");
        assert(vstd::string::is_ascii(s));
        vstd::string::is_ascii_spec_bytes(s);
        assert(s.spec_bytes() =~= default_separators_spec());
    }
    copy_bytes(s.as_bytes())
}

/// `s` with every byte that later repeats an earlier one removed:
/// first occurrences survive, in the order they first appear.
pub open spec fn dedup_spec(s: Seq<u8>) -> Seq<u8>
    decreases s.len(),
{
    if s.len() == 0 {
        Seq::empty()
    } else {
        let d = dedup_spec(s.drop_last());
        if pos_of(s.drop_last(), s.last()) is Some {
            d
        } else {
            d.push(s.last())
        }
    }
}

/// The bytes of `s` that occur in `keep`, in order.
pub open spec fn filter_in(s: Seq<u8>, keep: Seq<u8>) -> Seq<u8>
    decreases s.len(),
{
    if s.len() == 0 {
        Seq::empty()
    } else {
        let d = filter_in(s.drop_last(), keep);
        if pos_of(keep, s.last()) is Some {
            d.push(s.last())
        } else {
            d
        }
    }
}

/// The bytes of `s` that do not occur in `remove`, in order.
pub open spec fn filter_out(s: Seq<u8>, remove: Seq<u8>) -> Seq<u8>
    decreases s.len(),
{
    if s.len() == 0 {
        Seq::empty()
    } else {
        let d = filter_out(s.drop_last(), remove);
        if pos_of(remove, s.last()) is Some {
            d
        } else {
            d.push(s.last())
        }
    }
}

/// Deduplication keeps exactly the bytes of the input.
pub proof fn lemma_dedup_contains(s: Seq<u8>, b: u8)
    ensures
        dedup_spec(s).contains(b) <==> s.contains(b),
    decreases s.len(),
{
    crate::util::lemma_pos_of_contains(s, b);
    if s.len() > 0 {
        let t = s.drop_last();
        lemma_dedup_contains(t, b);
        crate::util::lemma_pos_of_contains(t, s.last());
        crate::util::lemma_pos_of_contains(t, b);
        assert(s.contains(b) <==> (t.contains(b) || s.last() == b)) by {
            if s.contains(b) {
                let w = choose|k: int| 0 <= k < s.len() && s[k] == b;
                if w < s.len() - 1 {
                    assert(t[w] == b);
                }
            }
            if t.contains(b) {
                let w = choose|k: int| 0 <= k < t.len() && t[k] == b;
                assert(s[w] == b);
            }
            if s.last() == b {
                assert(s[s.len() - 1] == b);
            }
        }
        let d = dedup_spec(t);
        if pos_of(t, s.last()) is None {
            assert forall|x: u8| d.push(s.last()).contains(x) <==> (d.contains(x) || x
                == s.last()) by {
                let e = d.push(s.last());
                if e.contains(x) {
                    let w = choose|k: int| 0 <= k < e.len() && e[k] == x;
                    if w < d.len() {
                        assert(d[w] == x);
                    }
                }
                if d.contains(x) {
                    let w = choose|k: int| 0 <= k < d.len() && d[k] == x;
                    assert(e[w] == x);
                }
                if x == s.last() {
                    assert(e[e.len() - 1] == x);
                }
            }
        }
    }
}

/// Filtering against an empty remove-set changes nothing.
pub proof fn lemma_filter_out_empty(s: Seq<u8>, remove: Seq<u8>)
    requires
        remove.len() == 0,
    ensures
        filter_out(s, remove) == s,
    decreases s.len(),
{
    if s.len() > 0 {
        lemma_filter_out_empty(s.drop_last(), remove);
        assert(filter_out(s, remove) =~= s);
    }
}

/// A filtered sequence is no longer than its input.
pub proof fn lemma_filter_len(s: Seq<u8>, other: Seq<u8>)
    ensures
        filter_in(s, other).len() <= s.len(),
        filter_out(s, other).len() <= s.len(),
        dedup_spec(s).len() <= s.len(),
    decreases s.len(),
{
    if s.len() > 0 {
        lemma_filter_len(s.drop_last(), other);
    }
}

/// The separator count the rebalancing step aims for: the ratio of alphabet
/// to separators is kept at or under seven halves, with a floor of two.
pub open spec fn sep_target(alpha_len: nat) -> nat {
    let c = (2 * alpha_len + 6) / 7;
    if c == 1 {
        2
    } else {
        c
    }
}

/// Separator rebalancing: when separators are missing or too scarce for the
/// alphabet, bytes move from the front of the alphabet into the separators;
/// an oversupply is truncated instead.
pub open spec fn rebalanced(alphabet: Seq<u8>, seps: Seq<u8>) -> (Seq<u8>, Seq<u8>) {
    if seps.len() == 0 || 2 * alphabet.len() > 7 * seps.len() {
        let t = sep_target(alphabet.len());
        if t > seps.len() {
            let diff = (t - seps.len()) as int;
            (alphabet.skip(diff), seps + alphabet.take(diff))
        } else {
            (alphabet, seps.take(t as int))
        }
    } else {
        (alphabet, seps)
    }
}

/// The alphabet and separator pair that resolution derives before guards
/// are split off: filter, shuffle the separators, rebalance, then shuffle
/// the alphabet.
pub open spec fn alpha_seps_spec(seps0: Seq<u8>, alphabet0: Seq<u8>, salt: Seq<u8>) -> (
    Seq<u8>,
    Seq<u8>,
) {
    let seps1 = filter_in(seps0, alphabet0);
    let alpha1 = filter_out(alphabet0, seps1);
    let seps2 = shuffle_spec(seps1, salt);
    let pair = rebalanced(alpha1, seps2);
    (shuffle_spec(pair.0, salt), pair.1)
}

/// How many guard bytes a resolved alphabet of `alpha_len` bytes yields.
pub open spec fn guard_count(alpha_len: nat) -> nat {
    (alpha_len + 11) / 12
}

/// The final `(alphabet, separators, guards)` triple: guards come from the
/// front of the separators when the alphabet is tiny, otherwise from the
/// front of the alphabet.
pub open spec fn resolve_spec(seps0: Seq<u8>, alphabet0: Seq<u8>, salt: Seq<u8>) -> (
    Seq<u8>,
    Seq<u8>,
    Seq<u8>,
) {
    let pair = alpha_seps_spec(seps0, alphabet0, salt);
    let a = pair.0;
    let s = pair.1;
    let gc = guard_count(a.len()) as int;
    if a.len() < 3 {
        (a, s.skip(gc), s.take(gc))
    } else {
        (a.skip(gc), s, a.take(gc))
    }
}

/// Filtered bytes come from the input; filtering out really removes.
pub proof fn lemma_filter_subsets(s: Seq<u8>, other: Seq<u8>)
    ensures
        forall|b: u8| filter_in(s, other).contains(b) ==> s.contains(b),
        forall|b: u8| filter_out(s, other).contains(b) ==> (s.contains(b) && !other.contains(b)),
    decreases s.len(),
{
    if s.len() > 0 {
        let t = s.drop_last();
        lemma_filter_subsets(t, other);
        crate::util::lemma_pos_of_contains(other, s.last());
        assert(forall|b: u8| t.contains(b) ==> s.contains(b)) by {
            assert(forall|k: int| 0 <= k < t.len() ==> s[k] == t[k]);
        }
        assert(s.contains(s.last())) by {
            assert(s[s.len() - 1] == s.last());
        }
        crate::util::lemma_push_contains(filter_in(t, other), s.last(), 0u8);
        assert forall|b: u8| filter_in(s, other).contains(b) implies s.contains(b) by {
            crate::util::lemma_push_contains(filter_in(t, other), s.last(), b);
        }
        assert forall|b: u8| filter_out(s, other).contains(b) implies (s.contains(b)
            && !other.contains(b)) by {
            crate::util::lemma_push_contains(filter_out(t, other), s.last(), b);
        }
    }
}

/// Every byte of the resolved alphabet comes from the raw alphabet, and
/// every separator or guard byte comes from the raw alphabet or the raw
/// separator candidates.
pub proof fn lemma_resolve_subsets(seps0: Seq<u8>, alpha0: Seq<u8>, salt: Seq<u8>)
    requires
        filter_out(alpha0, filter_in(seps0, alpha0)).len() >= 16,
    ensures
        forall|b: u8| resolve_spec(seps0, alpha0, salt).0.contains(b) ==> alpha0.contains(b),
        forall|b: u8|
            resolve_spec(seps0, alpha0, salt).1.contains(b) ==> (alpha0.contains(b)
                || seps0.contains(b)),
        forall|b: u8|
            resolve_spec(seps0, alpha0, salt).2.contains(b) ==> (alpha0.contains(b)
                || seps0.contains(b)),
{
    let seps1 = filter_in(seps0, alpha0);
    let alpha1 = filter_out(alpha0, seps1);
    let seps2 = shuffle_spec(seps1, salt);
    lemma_filter_subsets(seps0, alpha0);
    lemma_filter_subsets(alpha0, seps1);
    crate::shuffle::lemma_shuffle_spec_props(seps1, salt);
    let pair = rebalanced(alpha1, seps2);
    if seps2.len() == 0 || 2 * alpha1.len() > 7 * seps2.len() {
        let t = sep_target(alpha1.len());
        if t > seps2.len() {
            let diff = (t - seps2.len()) as int;
            crate::util::lemma_take_skip_subset(alpha1, diff);
            crate::util::lemma_concat_contains(seps2, alpha1.take(diff));
        } else {
            crate::util::lemma_take_skip_subset(seps2, t as int);
        }
    }
    lemma_rebalanced_lens(alpha1, seps2);
    crate::shuffle::lemma_shuffle_spec_props(pair.0, salt);
    let a = alpha_seps_spec(seps0, alpha0, salt).0;
    let s = alpha_seps_spec(seps0, alpha0, salt).1;
    let gc = guard_count(a.len()) as int;
    assert(forall|b: u8| a.contains(b) ==> alpha0.contains(b));
    assert(forall|b: u8| s.contains(b) ==> (alpha0.contains(b) || seps0.contains(b)));
    assert(a.len() >= 11);
    assert(gc <= a.len()) by (nonlinear_arith)
        requires a.len() >= 11, gc == (a.len() + 11) / 12;
    crate::util::lemma_take_skip_subset(a, gc);
}

/// Deduplication leaves no duplicates.
pub proof fn lemma_dedup_nodup(s: Seq<u8>)
    ensures
        dedup_spec(s).no_duplicates(),
    decreases s.len(),
{
    if s.len() > 0 {
        let t = s.drop_last();
        lemma_dedup_nodup(t);
        if pos_of(t, s.last()) is None {
            crate::util::lemma_pos_of_contains(t, s.last());
            lemma_dedup_contains(t, s.last());
            crate::util::lemma_push_nodup(dedup_spec(t), s.last());
        }
    }
}

/// Filtering a duplicate-free sequence leaves it duplicate-free.
pub proof fn lemma_filter_nodup(s: Seq<u8>, other: Seq<u8>)
    requires
        s.no_duplicates(),
    ensures
        filter_in(s, other).no_duplicates(),
        filter_out(s, other).no_duplicates(),
    decreases s.len(),
{
    if s.len() > 0 {
        let t = s.drop_last();
        assert(t.no_duplicates()) by {
            assert(forall|k: int| 0 <= k < t.len() ==> t[k] == s[k]);
        }
        lemma_filter_nodup(t, other);
        lemma_filter_subsets(t, other);
        assert(!t.contains(s.last())) by {
            if t.contains(s.last()) {
                let w = choose|w: int| 0 <= w < t.len() && t[w] == s.last();
                assert(s[w] == s[s.len() - 1]);
            }
        }
        crate::util::lemma_push_nodup(filter_in(t, other), s.last());
        crate::util::lemma_push_nodup(filter_out(t, other), s.last());
    }
}

/// Distinctness of a resolved configuration: with duplicate-free raw inputs
/// and an alphabet that keeps at least 16 bytes after the separators claim
/// theirs, the resolved alphabet, separators and guards are each
/// duplicate-free and pairwise disjoint.
pub proof fn lemma_resolve_distinct(seps0: Seq<u8>, alpha0: Seq<u8>, salt: Seq<u8>)
    requires
        alpha0.no_duplicates(),
        seps0.no_duplicates(),
        filter_out(alpha0, filter_in(seps0, alpha0)).len() >= 16,
    ensures
        resolve_spec(seps0, alpha0, salt).0.no_duplicates(),
        resolve_spec(seps0, alpha0, salt).1.no_duplicates(),
        resolve_spec(seps0, alpha0, salt).2.no_duplicates(),
        forall|x: u8|
            resolve_spec(seps0, alpha0, salt).0.contains(x) ==> !resolve_spec(
                seps0,
                alpha0,
                salt,
            ).1.contains(x),
        forall|x: u8|
            resolve_spec(seps0, alpha0, salt).0.contains(x) ==> !resolve_spec(
                seps0,
                alpha0,
                salt,
            ).2.contains(x),
        forall|x: u8|
            resolve_spec(seps0, alpha0, salt).1.contains(x) ==> !resolve_spec(
                seps0,
                alpha0,
                salt,
            ).2.contains(x),
{
    let seps1 = filter_in(seps0, alpha0);
    let alpha1 = filter_out(alpha0, seps1);
    let seps2 = shuffle_spec(seps1, salt);
    lemma_filter_nodup(seps0, alpha0);
    lemma_filter_nodup(alpha0, seps1);
    lemma_filter_subsets(alpha0, seps1);
    crate::shuffle::lemma_shuffle_spec_props(seps1, salt);
    // alpha1 and seps2 are duplicate-free and disjoint
    assert(forall|x: u8| alpha1.contains(x) ==> !seps2.contains(x));
    let pair = rebalanced(alpha1, seps2);
    lemma_rebalanced_lens(alpha1, seps2);
    if seps2.len() == 0 || 2 * alpha1.len() > 7 * seps2.len() {
        let t = sep_target(alpha1.len());
        if t > seps2.len() {
            let diff = (t - seps2.len()) as int;
            crate::util::lemma_split_nodup(alpha1, diff);
            crate::util::lemma_take_skip_subset(alpha1, diff);
            crate::util::lemma_concat_nodup(seps2, alpha1.take(diff));
            crate::util::lemma_concat_contains(seps2, alpha1.take(diff));
            assert forall|x: u8| pair.0.contains(x) implies !pair.1.contains(x) by {
                assert(alpha1.contains(x));
                assert(!seps2.contains(x));
                if alpha1.take(diff).contains(x) {
                    assert(!alpha1.skip(diff).contains(x));
                }
            }
        } else {
            crate::util::lemma_split_nodup(seps2, t as int);
            crate::util::lemma_take_skip_subset(seps2, t as int);
        }
    }
    // the rebalanced pair is duplicate-free and disjoint
    assert(pair.0.no_duplicates() && pair.1.no_duplicates());
    assert(forall|x: u8| pair.0.contains(x) ==> !pair.1.contains(x));
    crate::shuffle::lemma_shuffle_spec_props(pair.0, salt);
    let a = alpha_seps_spec(seps0, alpha0, salt).0;
    let s = alpha_seps_spec(seps0, alpha0, salt).1;
    let gc = guard_count(a.len()) as int;
    assert(a.len() >= 11);
    assert(gc <= a.len()) by (nonlinear_arith)
        requires a.len() >= 11, gc == (a.len() + 11) / 12;
    crate::util::lemma_split_nodup(a, gc);
    crate::util::lemma_take_skip_subset(a, gc);
}

/// With at least 16 alphabet bytes going in, rebalancing leaves at least
/// 11 of them and at least one separator.
pub proof fn lemma_rebalanced_lens(alphabet: Seq<u8>, seps: Seq<u8>)
    requires
        alphabet.len() >= 16,
    ensures
        11 <= rebalanced(alphabet, seps).0.len() <= alphabet.len(),
        1 <= rebalanced(alphabet, seps).1.len() <= alphabet.len() + seps.len(),
        rebalanced(alphabet, seps).1.len() <= alphabet.len() || rebalanced(alphabet, seps).1.len()
            <= seps.len(),
{
    let a = alphabet.len();
    let s = seps.len();
    if s == 0 || 2 * a > 7 * s {
        let c = (2 * a + 6) / 7;
        assert(5 <= c && c <= a) by (nonlinear_arith)
            requires a >= 16, c == (2 * a + 6) / 7;
        let t = sep_target(a);
        assert(t == c);
        if t > s {
            assert(a - (t - s) >= 11) by (nonlinear_arith)
                requires a >= 16, t == (2 * a + 6) / 7, s >= 0;
        }
    }
}

/// The separator candidates an optional user supply resolves to.
pub open spec fn sep_base(seps: Option<Vec<u8>>) -> Seq<u8> {
    match seps {
        Some(s) => s@,
        None => default_separators_spec(),
    }
}

/// The raw alphabet an optional user supply resolves to.
pub open spec fn alpha_base(alphabet: Option<Vec<u8>>) -> Seq<u8> {
    match alphabet {
        Some(a) => a@,
        None => default_alphabet_spec(),
    }
}

/// The bytes of `s` that occur in `keep`, in order.
pub fn filter_bytes_in(s: &[u8], keep: &[u8]) -> (r: Vec<u8>)
    ensures
        r@ == filter_in(s@, keep@),
{
    let mut r: Vec<u8> = Vec::new();
    let mut i: usize = 0;
    while i < s.len()
        invariant
            i <= s@.len(),
            r@ == filter_in(s@.take(i as int), keep@),
        decreases s@.len() - i,
    {
        let ghost pre = s@.take(i as int);
        let ghost cur = s@.take(i + 1);
        proof {
            assert(cur.drop_last() =~= pre);
            crate::util::lemma_pos_of_contains(keep@, s@[i as int]);
        }
        if contains_byte(keep, s[i]) {
            r.push(s[i]);
        }
        i = i + 1;
    }
    proof {
        assert(s@.take(s@.len() as int) =~= s@);
    }
    r
}

/// The bytes of `s` that do not occur in `remove`, in order.
pub fn filter_bytes_out(s: &[u8], remove: &[u8]) -> (r: Vec<u8>)
    ensures
        r@ == filter_out(s@, remove@),
{
    let mut r: Vec<u8> = Vec::new();
    let mut i: usize = 0;
    while i < s.len()
        invariant
            i <= s@.len(),
            r@ == filter_out(s@.take(i as int), remove@),
        decreases s@.len() - i,
    {
        let ghost pre = s@.take(i as int);
        let ghost cur = s@.take(i + 1);
        proof {
            assert(cur.drop_last() =~= pre);
            crate::util::lemma_pos_of_contains(remove@, s@[i as int]);
        }
        if !contains_byte(remove, s[i]) {
            r.push(s[i]);
        }
        i = i + 1;
    }
    proof {
        assert(s@.take(s@.len() as int) =~= s@);
    }
    r
}

/// Scans the supplied alphabet left to right, rejecting a space byte and
/// keeping only first occurrences; without a supply, the default alphabet
/// is deduplicated the same way. Fails when fewer than 16 distinct bytes
/// survive.
pub fn unique_alphabet(alphabet: &Option<Vec<u8>>) -> (r: Result<Vec<u8>, Error>)
    ensures
        ({
            let base = alpha_base(*alphabet);
            match r {
                Ok(v) => !base.contains(32u8) && dedup_spec(base).len() >= 16 && v@ == dedup_spec(
                    base,
                ),
                Err(e) => if base.contains(32u8) {
                    e == Error::IllegalCharacter(' ')
                } else {
                    dedup_spec(base).len() < 16 && e == Error::AlphabetLength
                },
            }
        }),
{
    let base: Vec<u8> = match alphabet {
        None => default_alphabet(),
        Some(a) => copy_bytes(a.as_slice()),
    };
    let mut ret: Vec<u8> = Vec::new();
    let mut i: usize = 0;
    while i < base.len()
        invariant
            i <= base@.len(),
            base@ == alpha_base(*alphabet),
            ret@ == dedup_spec(base@.take(i as int)),
            forall|k: int| 0 <= k < i ==> base@[k] != 32u8,
        decreases base@.len() - i,
    {
        let ghost pre = base@.take(i as int);
        let ghost cur = base@.take(i + 1);
        proof {
            assert(cur.drop_last() =~= pre);
        }
        let item = base[i];
        if item == 32u8 {
            proof {
                assert(base@.contains(32u8)) by {
                    assert(base@[i as int] == 32u8);
                }
            }
            return Err(Error::IllegalCharacter(' '));
        }
        proof {
            lemma_dedup_contains(pre, item);
            crate::util::lemma_pos_of_contains(pre, item);
        }
        if !contains_byte(ret.as_slice(), item) {
            ret.push(item);
        }
        i = i + 1;
    }
    proof {
        assert(base@.take(base@.len() as int) =~= base@);
        if base@.contains(32u8) {
            let w = choose|k: int| 0 <= k < base@.len() && base@[k] == 32u8;
            assert(base@[w] != 32u8);
        }
    }
    if ret.len() < 16 {
        return Err(Error::AlphabetLength);
    }
    Ok(ret)
}

/// Partitions the raw alphabet into working alphabet and separators:
/// separator candidates absent from the alphabet are dropped, the claimed
/// bytes leave the alphabet, the separators are shuffled by the salt,
/// the separator density is rebalanced, and the alphabet is shuffled.
pub fn alphabet_and_separators(separators: &Option<Vec<u8>>, alphabet: &[u8], salt: &[u8]) -> (r: (
    Vec<u8>,
    Vec<u8>,
))
    requires
        alphabet@.len() <= u32::MAX as nat,
        sep_base(*separators).len() <= u32::MAX as nat,
        salt@.len() <= u32::MAX as nat,
        !(alphabet@.len() == 1 && filter_in(sep_base(*separators), alphabet@).len() == 0),
    ensures
        r.0@ == alpha_seps_spec(sep_base(*separators), alphabet@, salt@).0,
        r.1@ == alpha_seps_spec(sep_base(*separators), alphabet@, salt@).1,
        r.0@.len() <= alphabet@.len(),
        r.1@.len() <= alphabet@.len() + sep_base(*separators).len(),
{
    let seps_raw: Vec<u8> = match separators {
        None => default_separators(),
        Some(s) => copy_bytes(s.as_slice()),
    };
    let mut seps = filter_bytes_in(seps_raw.as_slice(), alphabet);
    let mut alpha = filter_bytes_out(alphabet, seps.as_slice());
    proof {
        lemma_filter_len(seps_raw@, alphabet@);
        lemma_filter_len(alphabet@, seps@);
    }
    shuffle(&mut seps, salt);
    let la = alpha.len() as u64;
    let ls = seps.len() as u64;
    if ls == 0 || 2 * la > 7 * ls {
        let c = (2 * la + 6) / 7;
        let t = if c == 1 {
            2u64
        } else {
            c
        };
        proof {
            assert(t == sep_target(alpha@.len()));
            if ls == 0 {
                lemma_filter_out_empty(alphabet@, filter_in(sep_base(*separators), alphabet@));
            }
            if t > ls {
                assert(t - ls <= alpha@.len()) by (nonlinear_arith)
                    requires
                        t == sep_target(alpha@.len()),
                        c == (2 * alpha@.len() + 6) / 7,
                        t == (if c == 1 { 2u64 } else { c }),
                        ls == seps@.len(),
                        la == alpha@.len(),
                        t > ls,
                        ls == 0 || 2 * la > 7 * ls,
                        !(la == 0),
                        !(la == 1 && ls == 0),
                        la <= u32::MAX;
            }
        }
        if t > ls {
            let diff = (t - ls) as usize;
            let ghost alpha1 = alpha@;
            let ghost seps2 = seps@;
            let mut k: usize = 0;
            while k < diff
                invariant
                    k <= diff,
                    diff <= alpha1.len(),
                    alpha@ == alpha1,
                    seps@ == seps2 + alpha1.take(k as int),
                decreases diff - k,
            {
                seps.push(alpha[k]);
                proof {
                    assert(seps@ =~= seps2 + alpha1.take(k + 1));
                }
                k = k + 1;
            }
            let rest = subvec(alpha.as_slice(), diff, alpha.len());
            alpha = rest;
            proof {
                assert(alpha@ =~= alpha1.skip(diff as int));
            }
        } else {
            seps.truncate(t as usize);
            proof {
                assert(seps@ =~= shuffle_spec(
                    filter_in(sep_base(*separators), alphabet@),
                    salt@,
                ).take(t as int));
            }
        }
    }
    shuffle(&mut alpha, salt);
    (alpha, seps)
}

/// Splits the guard bytes off the resolved pair: from the separators when
/// the alphabet has fewer than three bytes, else from the alphabet.
pub fn guards(alphabet: &mut Vec<u8>, separators: &mut Vec<u8>) -> (r: Vec<u8>)
    requires
        old(alphabet)@.len() <= u32::MAX as nat,
        old(alphabet)@.len() < 3 ==> guard_count(old(alphabet)@.len()) <= old(
            separators,
        )@.len(),
    ensures
        ({
            let gc = guard_count(old(alphabet)@.len()) as int;
            if old(alphabet)@.len() < 3 {
                r@ == old(separators)@.take(gc) && final(separators)@ == old(separators)@.skip(gc)
                    && final(alphabet)@ == old(alphabet)@
            } else {
                r@ == old(alphabet)@.take(gc) && final(alphabet)@ == old(alphabet)@.skip(gc)
                    && final(separators)@ == old(separators)@
            }
        }),
{
    let alen = alphabet.len();
    let gc = ((alen as u64 + 11) / 12) as usize;
    proof {
        assert(gc == guard_count(old(alphabet)@.len()));
        assert(alen >= 3 ==> gc <= alen) by (nonlinear_arith)
            requires gc == (alen as int + 11) / 12;
    }
    if alen < 3 {
        let g = subvec(separators.as_slice(), 0, gc);
        let rest = subvec(separators.as_slice(), gc, separators.len());
        *separators = rest;
        proof {
            assert(g@ =~= old(separators)@.take(gc as int));
            assert(separators@ =~= old(separators)@.skip(gc as int));
        }
        g
    } else {
        let g = subvec(alphabet.as_slice(), 0, gc);
        let rest = subvec(alphabet.as_slice(), gc, alphabet.len());
        *alphabet = rest;
        proof {
            assert(g@ =~= old(alphabet)@.take(gc as int));
            assert(alphabet@ =~= old(alphabet)@.skip(gc as int));
        }
        g
    }
}

} // verus!
