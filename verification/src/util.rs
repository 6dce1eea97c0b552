//! Small byte-sequence helpers shared by the codec: first-occurrence search,
//! membership tests, subranges, and the ASCII bytes-to-string boundary.

use vstd::prelude::*;

verus! {

/// The index of the first occurrence of `b` in `s`, if any.
pub open spec fn pos_of(s: Seq<u8>, b: u8) -> Option<int>
    decreases s.len(),
{
    if s.len() == 0 {
        None
    } else if s[0] == b {
        Some(0int)
    } else {
        match pos_of(s.skip(1), b) {
            Some(i) => Some(i + 1),
            None => None,
        }
    }
}

/// `pos_of` finds exactly the first occurrence.
pub proof fn lemma_pos_of(s: Seq<u8>, b: u8)
    ensures
        match pos_of(s, b) {
            Some(i) => 0 <= i < s.len() && s[i] == b && forall|k: int| 0 <= k < i ==> s[k] != b,
            None => forall|k: int| 0 <= k < s.len() ==> s[k] != b,
        },
    decreases s.len(),
{
    if s.len() > 0 && s[0] != b {
        let t = s.skip(1);
        lemma_pos_of(t, b);
        assert(forall|k: int| 0 <= k < t.len() ==> t[k] == s[k + 1]);
        match pos_of(t, b) {
            Some(j) => {
                assert(pos_of(s, b) == Some(j + 1));
                assert(s[j + 1] == t[j]);
                assert forall|k: int| 0 <= k < j + 1 implies s[k] != b by {
                    if k > 0 {
                        assert(s[k] == t[k - 1]);
                    }
                }
            },
            None => {
                assert forall|k: int| 0 <= k < s.len() implies s[k] != b by {
                    if k > 0 {
                        assert(s[k] == t[k - 1]);
                    }
                }
            },
        }
    }
}

/// A byte occurs in `s` exactly when `pos_of` finds it.
pub proof fn lemma_pos_of_contains(s: Seq<u8>, b: u8)
    ensures
        pos_of(s, b) is Some <==> s.contains(b),
{
    lemma_pos_of(s, b);
    if s.contains(b) && pos_of(s, b) is None {
        let w = choose|k: int| 0 <= k < s.len() && s[k] == b;
        assert(s[w] == b);
    }
}

/// What pushing one byte does to membership.
pub proof fn lemma_push_contains(s: Seq<u8>, x: u8, b: u8)
    ensures
        s.push(x).contains(b) <==> (s.contains(b) || b == x),
{
    let e = s.push(x);
    if e.contains(b) {
        let w = choose|k: int| 0 <= k < e.len() && e[k] == b;
        if w < s.len() {
            assert(s[w] == b);
        }
    }
    if s.contains(b) {
        let w = choose|k: int| 0 <= k < s.len() && s[k] == b;
        assert(e[w] == b);
    }
    if b == x {
        assert(e[e.len() - 1] == b);
    }
}

/// Linear scan for the first occurrence of `b` in `s`.
pub fn find_index(s: &[u8], b: u8) -> (r: Option<usize>)
    ensures
        match r {
            Some(i) => pos_of(s@, b) == Some(i as int),
            None => pos_of(s@, b) is None,
        },
{
    proof {
        lemma_pos_of(s@, b);
    }
    let mut i: usize = 0;
    while i < s.len()
        invariant
            i <= s@.len(),
            forall|k: int| 0 <= k < i ==> s@[k] != b,
        decreases s@.len() - i,
    {
        if s[i] == b {
            proof {
                lemma_pos_of(s@, b);
                if pos_of(s@, b) is None {
                    assert(s@[i as int] != b);
                } else {
                    let w = pos_of(s@, b).unwrap();
                    if w < i {
                        assert(s@[w] != b);
                    }
                    if w > i {
                        assert(s@[i as int] != b);
                    }
                }
            }
            return Some(i);
        }
        i = i + 1;
    }
    proof {
        lemma_pos_of(s@, b);
        if pos_of(s@, b) is Some {
            let w = pos_of(s@, b).unwrap();
            assert(s@[w] != b);
        }
    }
    None
}

/// Whether `b` occurs in `s`.
pub fn contains_byte(s: &[u8], b: u8) -> (r: bool)
    ensures
        r == s@.contains(b),
{
    proof {
        lemma_pos_of_contains(s@, b);
    }
    match find_index(s, b) {
        Some(_) => true,
        None => false,
    }
}

/// Membership in a concatenation comes from one of the halves.
pub proof fn lemma_concat_contains(a: Seq<u8>, b: Seq<u8>)
    ensures
        forall|x: u8| (a + b).contains(x) <==> (a.contains(x) || b.contains(x)),
{
    assert forall|x: u8| (a + b).contains(x) <==> (a.contains(x) || b.contains(x)) by {
        if (a + b).contains(x) {
            let k = choose|k: int| 0 <= k < (a + b).len() && (a + b)[k] == x;
            if k < a.len() {
                assert(a[k] == x);
            } else {
                assert(b[k - a.len()] == x);
            }
        }
        if a.contains(x) {
            let k = choose|k: int| 0 <= k < a.len() && a[k] == x;
            assert((a + b)[k] == x);
        }
        if b.contains(x) {
            let k = choose|k: int| 0 <= k < b.len() && b[k] == x;
            assert((a + b)[k + a.len()] == x);
        }
    }
}

/// Members of a prefix or a suffix are members of the whole.
pub proof fn lemma_take_skip_subset(s: Seq<u8>, d: int)
    requires
        0 <= d <= s.len(),
    ensures
        forall|x: u8| s.take(d).contains(x) ==> s.contains(x),
        forall|x: u8| s.skip(d).contains(x) ==> s.contains(x),
{
    assert forall|x: u8| s.take(d).contains(x) implies s.contains(x) by {
        let k = choose|k: int| 0 <= k < s.take(d).len() && s.take(d)[k] == x;
        assert(s[k] == x);
    }
    assert forall|x: u8| s.skip(d).contains(x) implies s.contains(x) by {
        let k = choose|k: int| 0 <= k < s.skip(d).len() && s.skip(d)[k] == x;
        assert(s[k + d] == x);
    }
}

/// Pushing a fresh byte keeps a sequence duplicate-free.
pub proof fn lemma_push_nodup(s: Seq<u8>, x: u8)
    requires
        s.no_duplicates(),
        !s.contains(x),
    ensures
        s.push(x).no_duplicates(),
{
    let e = s.push(x);
    assert forall|i: int, j: int| 0 <= i < j < e.len() implies e[i] != e[j] by {
        if j < s.len() {
            assert(e[i] == s[i] && e[j] == s[j]);
        } else {
            assert(e[j] == x && e[i] == s[i]);
            if s[i] == x {
                assert(s.contains(x));
            }
        }
    }
}

/// Splitting a duplicate-free sequence gives duplicate-free, disjoint halves.
pub proof fn lemma_split_nodup(s: Seq<u8>, d: int)
    requires
        s.no_duplicates(),
        0 <= d <= s.len(),
    ensures
        s.take(d).no_duplicates(),
        s.skip(d).no_duplicates(),
        forall|x: u8| s.take(d).contains(x) ==> !s.skip(d).contains(x),
{
    assert forall|i: int, j: int| 0 <= i < j < s.take(d).len() implies s.take(d)[i] != s.take(
        d,
    )[j] by {
        assert(s.take(d)[i] == s[i] && s.take(d)[j] == s[j]);
    }
    assert forall|i: int, j: int| 0 <= i < j < s.skip(d).len() implies s.skip(d)[i] != s.skip(
        d,
    )[j] by {
        assert(s.skip(d)[i] == s[i + d] && s.skip(d)[j] == s[j + d]);
    }
    assert forall|x: u8| s.take(d).contains(x) implies !s.skip(d).contains(x) by {
        let i = choose|i: int| 0 <= i < s.take(d).len() && s.take(d)[i] == x;
        if s.skip(d).contains(x) {
            let j = choose|j: int| 0 <= j < s.skip(d).len() && s.skip(d)[j] == x;
            assert(s[i] == x && s[j + d] == x);
        }
    }
}

/// Concatenating disjoint duplicate-free sequences stays duplicate-free.
pub proof fn lemma_concat_nodup(a: Seq<u8>, b: Seq<u8>)
    requires
        a.no_duplicates(),
        b.no_duplicates(),
        forall|x: u8| a.contains(x) ==> !b.contains(x),
    ensures
        (a + b).no_duplicates(),
{
    let e = a + b;
    assert forall|i: int, j: int| 0 <= i < j < e.len() implies e[i] != e[j] by {
        if j < a.len() {
            assert(e[i] == a[i] && e[j] == a[j]);
        } else if i >= a.len() {
            assert(e[i] == b[i - a.len()] && e[j] == b[j - a.len()]);
        } else {
            assert(e[i] == a[i] && e[j] == b[j - a.len()]);
            if a[i] == b[j - a.len()] {
                assert(a.contains(e[i]) && b.contains(e[j]));
            }
        }
    }
}

/// The first index of `s` holding a byte of `set`, if any.
pub open spec fn first_in(s: Seq<u8>, set: Seq<u8>) -> Option<int>
    decreases s.len(),
{
    if s.len() == 0 {
        None
    } else if set.contains(s[0]) {
        Some(0int)
    } else {
        match first_in(s.skip(1), set) {
            Some(i) => Some(i + 1),
            None => None,
        }
    }
}

/// The last index of `s` holding a byte of `set`, if any.
pub open spec fn last_in(s: Seq<u8>, set: Seq<u8>) -> Option<int>
    decreases s.len(),
{
    if s.len() == 0 {
        None
    } else if set.contains(s.last()) {
        Some(s.len() - 1)
    } else {
        last_in(s.drop_last(), set)
    }
}

/// `first_in` finds exactly the first member of `set`.
pub proof fn lemma_first_in(s: Seq<u8>, set: Seq<u8>)
    ensures
        match first_in(s, set) {
            Some(i) => 0 <= i < s.len() && set.contains(s[i]) && forall|k: int|
                0 <= k < i ==> !set.contains(#[trigger] s[k]),
            None => forall|k: int| 0 <= k < s.len() ==> !set.contains(#[trigger] s[k]),
        },
    decreases s.len(),
{
    if s.len() > 0 && !set.contains(s[0]) {
        let t = s.skip(1);
        lemma_first_in(t, set);
        assert(forall|k: int| 0 <= k < t.len() ==> t[k] == s[k + 1]);
        match first_in(t, set) {
            Some(j) => {
                assert(s[j + 1] == t[j]);
                assert forall|k: int| 0 <= k < j + 1 implies !set.contains(#[trigger] s[k]) by {
                    if k > 0 {
                        assert(s[k] == t[k - 1]);
                    }
                }
            },
            None => {
                assert forall|k: int| 0 <= k < s.len() implies !set.contains(#[trigger] s[k]) by {
                    if k > 0 {
                        assert(s[k] == t[k - 1]);
                    }
                }
            },
        }
    }
}

/// `last_in` finds exactly the last member of `set`.
pub proof fn lemma_last_in(s: Seq<u8>, set: Seq<u8>)
    ensures
        match last_in(s, set) {
            Some(i) => 0 <= i < s.len() && set.contains(s[i]) && forall|k: int|
                i < k < s.len() ==> !set.contains(#[trigger] s[k]),
            None => forall|k: int| 0 <= k < s.len() ==> !set.contains(#[trigger] s[k]),
        },
    decreases s.len(),
{
    if s.len() > 0 && !set.contains(s.last()) {
        let t = s.drop_last();
        lemma_last_in(t, set);
        assert(forall|k: int| 0 <= k < t.len() ==> t[k] == s[k]);
    }
}

/// Scans left to right for the first byte belonging to `set`.
pub fn find_first_in(s: &[u8], set: &[u8]) -> (r: Option<usize>)
    ensures
        match r {
            Some(i) => first_in(s@, set@) == Some(i as int),
            None => first_in(s@, set@) is None,
        },
{
    let mut i: usize = 0;
    while i < s.len()
        invariant
            i <= s@.len(),
            forall|k: int| 0 <= k < i ==> !set@.contains(#[trigger] s@[k]),
        decreases s@.len() - i,
    {
        if contains_byte(set, s[i]) {
            proof {
                lemma_first_in(s@, set@);
                match first_in(s@, set@) {
                    Some(w) => {
                        if w < i {
                            assert(!set@.contains(s@[w]));
                        }
                        if w > i {
                            assert(!set@.contains(s@[i as int]));
                        }
                    },
                    None => {
                        assert(!set@.contains(s@[i as int]));
                    },
                }
            }
            return Some(i);
        }
        i = i + 1;
    }
    proof {
        lemma_first_in(s@, set@);
        if first_in(s@, set@) is Some {
            let w = first_in(s@, set@).unwrap();
            assert(!set@.contains(s@[w]));
        }
    }
    None
}

/// Scans right to left for the last byte belonging to `set`.
pub fn find_last_in(s: &[u8], set: &[u8]) -> (r: Option<usize>)
    ensures
        match r {
            Some(i) => last_in(s@, set@) == Some(i as int),
            None => last_in(s@, set@) is None,
        },
{
    let mut i: usize = s.len();
    while i > 0
        invariant
            i <= s@.len(),
            forall|k: int| i <= k < s@.len() ==> !set@.contains(#[trigger] s@[k]),
        decreases i,
    {
        i = i - 1;
        if contains_byte(set, s[i]) {
            proof {
                lemma_last_in(s@, set@);
                match last_in(s@, set@) {
                    Some(w) => {
                        if w > i {
                            assert(!set@.contains(s@[w]));
                        }
                        if w < i {
                            assert(!set@.contains(s@[i as int]));
                        }
                    },
                    None => {
                        assert(!set@.contains(s@[i as int]));
                    },
                }
            }
            return Some(i);
        }
    }
    proof {
        lemma_last_in(s@, set@);
        if last_in(s@, set@) is Some {
            let w = last_in(s@, set@).unwrap();
            assert(!set@.contains(s@[w]));
        }
    }
    None
}

/// A fresh copy of `s[start..end]`.
pub fn subvec(s: &[u8], start: usize, end: usize) -> (r: Vec<u8>)
    requires
        start <= end <= s@.len(),
    ensures
        r@ == s@.subrange(start as int, end as int),
{
    let mut r: Vec<u8> = Vec::new();
    let mut i: usize = start;
    while i < end
        invariant
            start <= i <= end <= s@.len(),
            r@ == s@.subrange(start as int, i as int),
        decreases end - i,
    {
        r.push(s[i]);
        proof {
            assert(r@ =~= s@.subrange(start as int, i + 1 as int));
        }
        i = i + 1;
    }
    r
}

/// A fresh copy of the whole slice.
pub fn copy_bytes(s: &[u8]) -> (r: Vec<u8>)
    ensures
        r@ == s@,
{
    let r = subvec(s, 0, s.len());
    proof {
        assert(s@.subrange(0, s@.len() as int) =~= s@);
    }
    r
}

/// The characters that a sequence of ASCII bytes spells.
pub open spec fn chars_of_bytes(s: Seq<u8>) -> Seq<char> {
    Seq::new(s.len(), |i: int| s[i] as char)
}

/// Whether every byte of `s` is ASCII.
pub open spec fn all_ascii(s: Seq<u8>) -> bool {
    forall|i: int| 0 <= i < s.len() ==> s[i] < 128
}

/// Relies on `String::from_utf8`: a sequence of ASCII bytes is valid UTF-8
/// and decodes to the characters of the same values.
#[verifier::external_body]
pub fn ascii_to_string(bytes: Vec<u8>) -> (r: String)
    requires
        all_ascii(bytes@),
    ensures
        r@ == chars_of_bytes(bytes@),
{
    String::from_utf8(bytes).unwrap_or_default()
}

} // verus!

