//! The hex adapter: even or odd hex strings are cut into chunks of at most
//! twelve digits, each chunk is read with a leading `1` digit (so leading
//! zeroes and chunk boundaries survive), and the resulting values run
//! through the integer pipelines.

use crate::codec::{encode_spec, Harsh};
use crate::util::{all_ascii, ascii_to_string, chars_of_bytes, subvec};
use vstd::prelude::*;
use vstd::string::StringSliceAdditionalSpecFns;

verus! {

/// The value of one hex digit, upper or lower case.
pub open spec fn hex_digit_val(b: u8) -> Option<int> {
    if 48 <= b <= 57 {
        Some((b - 48) as int)
    } else if 97 <= b <= 102 {
        Some((b - 87) as int)
    } else if 65 <= b <= 70 {
        Some((b - 55) as int)
    } else {
        None
    }
}

/// The value of a hex digit string, or `None` if any byte is not hex.
pub open spec fn hex_val(s: Seq<u8>) -> Option<int>
    decreases s.len(),
{
    if s.len() == 0 {
        Some(0int)
    } else {
        match (hex_val(s.drop_last()), hex_digit_val(s.last())) {
            (Some(h), Some(d)) => Some(h * 16 + d),
            _ => None,
        }
    }
}

/// Sixteen to the `n`-th power.
pub open spec fn pow16(n: nat) -> int
    decreases n,
{
    if n == 0 {
        1
    } else {
        16 * pow16((n - 1) as nat)
    }
}

/// What one chunk parses to once a `1` digit is prefixed.
pub open spec fn chunk_val(s: Seq<u8>) -> Option<int> {
    match hex_val(s) {
        Some(v) => Some(pow16(s.len()) + v),
        None => None,
    }
}

/// The integer sequence a hex string turns into: chunks of at most twelve
/// digits, each with its leading `1`.
pub open spec fn values_of_hex(s: Seq<u8>) -> Option<Seq<u64>>
    decreases s.len(),
{
    if s.len() == 0 {
        Some(Seq::empty())
    } else {
        let c: int = if s.len() < 12 {
            s.len() as int
        } else {
            12
        };
        match (chunk_val(s.take(c)), values_of_hex(s.skip(c))) {
            (Some(v), Some(rest)) => Some(seq![v as u64] + rest),
            _ => None,
        }
    }
}

/// The lowercase hex digit for a value under sixteen.
pub open spec fn hex_char(d: int) -> u8 {
    if d < 10 {
        (48 + d) as u8
    } else {
        (87 + d) as u8
    }
}

/// The lowercase hex rendering of a value, most significant digit first.
pub open spec fn hex_of(v: nat) -> Seq<u8>
    decreases v,
{
    if v < 16 {
        seq![hex_char(v as int)]
    } else {
        hex_of(v / 16).push(hex_char((v % 16) as int))
    }
}

/// The concatenated output of decoding to hex: each value rendered and its
/// first digit (the protective `1`) dropped.
pub open spec fn hex_output(vs: Seq<u64>) -> Seq<u8>
    decreases vs.len(),
{
    if vs.len() == 0 {
        Seq::empty()
    } else {
        hex_output(vs.drop_last()) + hex_of(vs.last() as nat).skip(1)
    }
}

/// Powers of sixteen grow and stay positive.
proof fn lemma_pow16_pos(n: nat)
    ensures
        pow16(n) >= 1,
    decreases n,
{
    if n > 0 {
        lemma_pow16_pos((n - 1) as nat);
    }
}

/// A twelve-digit chunk with its leading `1` stays far under `u64` range.
proof fn lemma_pow16_twelve()
    ensures
        pow16(12) == 0x1000000000000,
{
    assert(pow16(0) == 1);
    assert(pow16(1) == 16);
    assert(pow16(2) == 256);
    assert(pow16(3) == 4096);
    assert(pow16(4) == 0x10000);
    assert(pow16(5) == 0x100000);
    assert(pow16(6) == 0x1000000);
    assert(pow16(7) == 0x10000000);
    assert(pow16(8) == 0x100000000);
    assert(pow16(9) == 0x1000000000);
    assert(pow16(10) == 0x10000000000);
    assert(pow16(11) == 0x100000000000);
    assert(pow16(12) == 0x1000000000000);
}

/// Powers of sixteen are monotone in the exponent.
proof fn lemma_pow16_mono(a: nat, b: nat)
    requires
        a <= b,
    ensures
        pow16(a) <= pow16(b),
    decreases b,
{
    if a < b {
        lemma_pow16_mono(a, (b - 1) as nat);
        lemma_pow16_pos((b - 1) as nat);
    }
}

/// A hex string's value is bounded by the power of its length.
proof fn lemma_hex_val_bound(s: Seq<u8>)
    requires
        hex_val(s) is Some,
    ensures
        0 <= hex_val(s).unwrap() < pow16(s.len()),
    decreases s.len(),
{
    if s.len() > 0 {
        let h = hex_val(s.drop_last()).unwrap();
        let d = hex_digit_val(s.last()).unwrap();
        lemma_hex_val_bound(s.drop_last());
        assert(h * 16 + d < 16 * pow16((s.len() - 1) as nat)) by (nonlinear_arith)
            requires
                0 <= h < pow16((s.len() - 1) as nat),
                0 <= d < 16;
    }
}

/// A hex digit byte, lowercased: letters `A` to `F` gain 32, everything
/// else is unchanged.
pub open spec fn lower_hex_byte(b: u8) -> u8 {
    if 65 <= b <= 70 {
        (b + 32) as u8
    } else {
        b
    }
}

/// A byte string, hex-lowercased pointwise.
pub open spec fn lower_hex(s: Seq<u8>) -> Seq<u8> {
    Seq::new(s.len(), |i: int| lower_hex_byte(s[i]))
}

/// The fixed-width lowercase rendering of `v` in `n` hex digits.
pub open spec fn width_hex(v: int, n: nat) -> Seq<u8>
    decreases n,
{
    if n == 0 {
        Seq::empty()
    } else {
        width_hex(v / 16, (n - 1) as nat).push(hex_char(v % 16))
    }
}

/// Rendering a `1`-prefixed chunk value gives the digit `1` and then the
/// chunk's fixed-width rendering.
proof fn lemma_hex_of_prefixed(v: int, n: nat)
    requires
        0 <= v < pow16(n),
    ensures
        hex_of((pow16(n) + v) as nat) == seq![49u8] + width_hex(v, n),
    decreases n,
{
    lemma_pow16_pos(n);
    let w = (pow16(n) + v) as nat;
    if n == 0 {
        assert(v == 0 && w == 1);
        assert(hex_of(1nat) =~= seq![49u8]);
        assert(width_hex(0, 0) =~= Seq::<u8>::empty());
        assert(seq![49u8] + Seq::<u8>::empty() =~= seq![49u8]);
    } else {
        lemma_pow16_pos((n - 1) as nat);
        assert(pow16(n) == 16 * pow16((n - 1) as nat));
        assert(w >= 16) by (nonlinear_arith)
            requires w == pow16(n) + v, pow16(n) == 16 * pow16((n - 1) as nat),
                pow16((n - 1) as nat) >= 1, v >= 0;
        assert(w as int / 16 == pow16((n - 1) as nat) + v / 16 && w as int % 16 == v % 16
            && 0 <= v / 16 < pow16((n - 1) as nat)) by (nonlinear_arith)
            requires
                w == pow16(n) + v,
                pow16(n) == 16 * pow16((n - 1) as nat),
                0 <= v < pow16(n);
        lemma_hex_of_prefixed(v / 16, (n - 1) as nat);
        assert(hex_of(w) == hex_of((w / 16) as nat).push(hex_char(w as int % 16)));
        assert((seq![49u8] + width_hex(v / 16, (n - 1) as nat)).push(hex_char(v % 16))
            =~= seq![49u8] + width_hex(v, n));
    }
}

/// The fixed-width rendering of a chunk's value is the chunk, lowercased.
proof fn lemma_width_hex_lower(chunk: Seq<u8>)
    requires
        hex_val(chunk) is Some,
    ensures
        width_hex(hex_val(chunk).unwrap(), chunk.len()) == lower_hex(chunk),
    decreases chunk.len(),
{
    if chunk.len() == 0 {
        assert(width_hex(0, 0) =~= lower_hex(chunk));
    } else {
        let t = chunk.drop_last();
        let h = hex_val(t).unwrap();
        let d = hex_digit_val(chunk.last()).unwrap();
        lemma_width_hex_lower(t);
        lemma_hex_val_bound(t);
        let v = hex_val(chunk).unwrap();
        assert(v == h * 16 + d);
        assert(v / 16 == h && v % 16 == d) by (nonlinear_arith)
            requires v == h * 16 + d, 0 <= d < 16, h >= 0;
        assert(hex_char(d) == lower_hex_byte(chunk.last()));
        assert(width_hex(h, t.len()) =~= lower_hex(t));
        assert(lower_hex(t).push(lower_hex_byte(chunk.last())) =~= lower_hex(chunk));
    }
}

/// Rendering every decoded chunk and dropping its leading `1` digit spells
/// the whole input hex string, lowercased.
proof fn lemma_hex_output_cons(v: u64, rest: Seq<u64>)
    ensures
        hex_output(seq![v] + rest) == hex_of(v as nat).skip(1) + hex_output(rest),
    decreases rest.len(),
{
    if rest.len() == 0 {
        assert(seq![v] + rest =~= seq![v]);
        assert(seq![v].drop_last() =~= Seq::<u64>::empty());
        assert(hex_output(Seq::<u64>::empty()) + hex_of(v as nat).skip(1) =~= hex_of(
            v as nat,
        ).skip(1) + hex_output(rest));
    } else {
        let whole = seq![v] + rest;
        assert(whole.drop_last() =~= seq![v] + rest.drop_last());
        assert(whole.last() == rest.last());
        lemma_hex_output_cons(v, rest.drop_last());
        assert((hex_of(v as nat).skip(1) + hex_output(rest.drop_last())) + hex_of(
            rest.last() as nat,
        ).skip(1) =~= hex_of(v as nat).skip(1) + hex_output(rest));
    }
}

/// What the hex pipeline hands back spells the input, lowercased: the
/// values a hex string parses to render back as exactly that string in
/// lowercase.
pub proof fn lemma_hex_values_render_lower(s: Seq<u8>)
    requires
        values_of_hex(s) is Some,
    ensures
        hex_output(values_of_hex(s).unwrap()) == lower_hex(s),
    decreases s.len(),
{
    if s.len() == 0 {
        assert(hex_output(Seq::<u64>::empty()) =~= lower_hex(s));
    } else {
        let c: int = if s.len() < 12 {
            s.len() as int
        } else {
            12
        };
        let chunk = s.take(c);
        let rest = s.skip(c);
        let cv = chunk_val(chunk).unwrap();
        let hv = hex_val(chunk).unwrap();
        lemma_hex_val_bound(chunk);
        lemma_pow16_twelve();
        lemma_pow16_mono(chunk.len(), 12);
        lemma_pow16_pos(chunk.len());
        assert(0 <= cv < 2 * pow16(12));
        assert(cv as u64 as int == cv);
        lemma_hex_values_render_lower(rest);
        lemma_hex_of_prefixed(hv, chunk.len());
        lemma_width_hex_lower(chunk);
        assert((seq![49u8] + width_hex(hv, chunk.len())).skip(1) =~= width_hex(hv, chunk.len()));
        let vs = values_of_hex(s).unwrap();
        assert(vs == seq![cv as u64] + values_of_hex(rest).unwrap());
        lemma_hex_output_cons(cv as u64, values_of_hex(rest).unwrap());
        assert(hex_of(cv as nat).skip(1) == lower_hex(chunk));
        assert(lower_hex(chunk) + lower_hex(rest) =~= lower_hex(s));
    }
}

/// Reads one hex digit byte.
fn hex_digit(b: u8) -> (r: Option<u8>)
    ensures
        match r {
            Some(d) => hex_digit_val(b) == Some(d as int) && d < 16,
            None => hex_digit_val(b) is None,
        },
{
    if 48 <= b && b <= 57 {
        Some(b - 48)
    } else if 97 <= b && b <= 102 {
        Some(b - 87)
    } else if 65 <= b && b <= 70 {
        Some(b - 55)
    } else {
        None
    }
}

/// Parses one chunk of at most twelve hex digits with its leading `1`.
fn parse_chunk(chunk: &[u8]) -> (r: Option<u64>)
    requires
        1 <= chunk@.len() <= 12,
    ensures
        match r {
            Some(v) => chunk_val(chunk@) == Some(v as int),
            None => chunk_val(chunk@) is None,
        },
{
    proof {
        lemma_pow16_twelve();
    }
    let mut acc: u64 = 1;
    let mut j: usize = 0;
    while j < chunk.len()
        invariant
            j <= chunk@.len() <= 12,
            hex_val(chunk@.take(j as int)) is Some,
            acc as int == pow16(j as nat) + hex_val(chunk@.take(j as int)).unwrap(),
            acc as int <= 2 * pow16(j as nat) - 1,
        decreases chunk@.len() - j,
    {
        let ghost pre = chunk@.take(j as int);
        let ghost cur = chunk@.take(j + 1);
        proof {
            assert(cur.drop_last() =~= pre);
            assert(cur.last() == chunk@[j as int]);
            lemma_pow16_twelve();
            lemma_pow16_mono((j + 1) as nat, 12);
            lemma_pow16_pos(j as nat);
            lemma_hex_val_bound(pre);
        }
        match hex_digit(chunk[j]) {
            None => {
                proof {
                    assert(hex_val(cur) is None);
                    lemma_hex_chunk_none(chunk@, j + 1);
                }
                return None;
            },
            Some(d) => {
                proof {
                    assert(acc as int * 16 + d <= 2 * pow16((j + 1) as nat) - 1) by (nonlinear_arith)
                        requires
                            acc as int <= 2 * pow16(j as nat) - 1,
                            pow16((j + 1) as nat) == 16 * pow16(j as nat),
                            0 <= d < 16,
                            pow16(j as nat) >= 1;
                    assert(2 * pow16((j + 1) as nat) <= 2 * pow16(12)) by {
                        lemma_pow16_mono((j + 1) as nat, 12);
                    }
                }
                acc = acc * 16 + d as u64;
                proof {
                    assert(acc as int == pow16((j + 1) as nat) + hex_val(cur).unwrap())
                        by (nonlinear_arith)
                        requires
                            acc as int == (pow16(j as nat) + hex_val(pre).unwrap()) * 16
                                + hex_digit_val(cur.last()).unwrap(),
                            hex_val(cur).unwrap() == hex_val(pre).unwrap() * 16 + hex_digit_val(
                                cur.last(),
                            ).unwrap(),
                            pow16((j + 1) as nat) == 16 * pow16(j as nat);
                }
            },
        }
        j = j + 1;
    }
    proof {
        assert(chunk@.take(chunk@.len() as int) =~= chunk@);
    }
    Some(acc)
}

/// If some prefix of a chunk is not hex, the chunk is not hex.
proof fn lemma_hex_chunk_none(s: Seq<u8>, k: int)
    requires
        0 <= k <= s.len(),
        hex_val(s.take(k)) is None,
    ensures
        hex_val(s) is None,
    decreases s.len(),
{
    if k < s.len() {
        assert(s.drop_last().take(k) =~= s.take(k));
        lemma_hex_chunk_none(s.drop_last(), k);
    } else {
        assert(s.take(k) =~= s);
    }
}

/// Every byte a hex rendering produces is an ASCII digit or letter.
proof fn lemma_hex_of_ascii(v: nat)
    ensures
        all_ascii(hex_of(v)),
        hex_of(v).len() >= 1,
    decreases v,
{
    if v >= 16 {
        lemma_hex_of_ascii(v / 16);
        let rec = hex_of(v / 16);
        let d = hex_char((v % 16) as int);
        assert(forall|k: int|
            0 <= k < hex_of(v).len() ==> hex_of(v)[k] == (if k < rec.len() {
                rec[k]
            } else {
                d
            }));
    }
}

/// Renders one value as lowercase hex bytes.
fn hex_render(value: u64) -> (r: Vec<u8>)
    ensures
        r@ == hex_of(value as nat),
        r@.len() >= 1,
{
    let mut buf: Vec<u8> = Vec::new();
    let mut v = value;
    loop
        invariant_except_break
            buf@.len() == 0 ==> v == value,
            buf@.len() > 0 ==> v > 0,
            hex_of(value as nat) == if buf@.len() == 0 {
                hex_of(v as nat)
            } else {
                hex_of(v as nat) + buf@
            },
        ensures
            hex_of(value as nat) == buf@,
            buf@.len() >= 1,
        decreases v,
    {
        let dm = (v % 16) as u8;
        let d = if dm < 10 {
            48 + dm
        } else {
            87 + dm
        };
        buf.insert(0, d);
        let ghost v_in = v as nat;
        let ghost buf_in = buf@.skip(1);
        v = v / 16;
        proof {
            assert(buf@ =~= seq![d] + buf_in);
            assert(d == hex_char((v_in % 16) as int));
            if v_in < 16 {
                assert(hex_of(v_in, ) =~= seq![d]);
                assert(hex_of(v_in) + buf_in =~= buf@);
            } else {
                assert(hex_of(v_in) =~= hex_of(v as nat) + seq![d]);
                assert(hex_of(v_in) + buf_in =~= hex_of(v as nat) + buf@);
            }
        }
        if v == 0 {
            break;
        }
    }
    buf
}

impl Harsh {
    /// Encodes a hex string into a hashid. Fails on an empty or non-hex
    /// input; otherwise the chunk values go through `encode`.
    pub fn encode_hex(&self, hex: &str) -> (r: Option<String>)
        requires
            self.wf(),
            hex.spec_bytes().len() <= u32::MAX as nat,
        ensures
            r is Some <==> (values_of_hex(hex.spec_bytes()) is Some && values_of_hex(
                hex.spec_bytes(),
            ).unwrap().len() > 0),
            r is Some ==> r.unwrap()@ == chars_of_bytes(
                encode_spec(*self, values_of_hex(hex.spec_bytes()).unwrap()),
            ),
            r is Some ==> r.unwrap()@.len() >= self.hash_length,
    {
        let bytes = hex.as_bytes();
        let mut values: Vec<u64> = Vec::new();
        let mut pos: usize = 0;
        proof {
            assert(bytes@.skip(0) =~= bytes@);
            if values_of_hex(bytes@) is Some {
                assert(Seq::<u64>::empty() + values_of_hex(bytes@).unwrap()
                    =~= values_of_hex(bytes@).unwrap());
            }
        }
        while pos < bytes.len()
            invariant
                bytes@ == hex.spec_bytes(),
                pos <= bytes@.len() <= u32::MAX,
                values@.len() <= pos,
                match values_of_hex(bytes@.skip(pos as int)) {
                    Some(rest) => values_of_hex(bytes@) == Some(values@ + rest),
                    None => values_of_hex(bytes@) is None,
                },
            decreases bytes@.len() - pos,
        {
            let ghost rem = bytes@.skip(pos as int);
            let end = if bytes.len() - pos < 12 {
                bytes.len()
            } else {
                pos + 12
            };
            let chunk = subvec(bytes, pos, end);
            proof {
                assert(chunk@ =~= rem.take(end - pos as int));
            }
            let ghost values_pre = values@;
            match parse_chunk(chunk.as_slice()) {
                None => {
                    proof {
                        assert(values_of_hex(rem) is None);
                    }
                    return None;
                },
                Some(v) => {
                    values.push(v);
                    proof {
                        assert(values@ =~= values_pre + seq![v]);
                        assert(bytes@.skip(end as int) =~= rem.skip(end - pos as int));
                        let rest2 = values_of_hex(bytes@.skip(end as int));
                        if rest2 is Some {
                            assert(values_of_hex(rem) == Some(seq![v] + rest2.unwrap()));
                            assert(values_pre + (seq![v] + rest2.unwrap()) =~= values@
                                + rest2.unwrap());
                        } else {
                            assert(values_of_hex(rem) is None);
                        }
                    }
                    pos = end;
                },
            }
        }
        proof {
            assert(bytes@.skip(pos as int) =~= Seq::<u8>::empty());
            assert(values_of_hex(bytes@.skip(pos as int)) == Some(Seq::<u64>::empty()));
            assert(values@ + Seq::<u64>::empty() =~= values@);
        }
        self.encode(values.as_slice())
    }

    /// Decodes a hashid into a lowercase hex string: each decoded value is
    /// rendered and its first digit dropped.
    pub fn decode_hex(&self, value: &str) -> (r: Option<String>)
        requires
            self.alphabet@.len() <= u32::MAX as nat,
            self.salt@.len() <= u32::MAX as nat,
        ensures
            r is Some <==> crate::codec::decode_spec(*self, value.spec_bytes()) is Some,
            r is Some ==> r.unwrap()@ == chars_of_bytes(
                hex_output(crate::codec::decode_spec(*self, value.spec_bytes()).unwrap()),
            ),
    {
        let vals = match self.decode(value) {
            None => {
                return None;
            },
            Some(v) => v,
        };
        let mut out: Vec<u8> = Vec::new();
        let mut i: usize = 0;
        while i < vals.len()
            invariant
                i <= vals@.len(),
                out@ == hex_output(vals@.take(i as int)),
                all_ascii(out@),
            decreases vals@.len() - i,
        {
            let ghost pre = vals@.take(i as int);
            let ghost cur = vals@.take(i + 1);
            proof {
                assert(cur.drop_last() =~= pre);
                assert(cur.last() == vals@[i as int]);
                lemma_hex_of_ascii(vals@[i as int] as nat);
            }
            let rendered = hex_render(vals[i]);
            let stripped = subvec(rendered.as_slice(), 1, rendered.len());
            let ghost out_pre = out@;
            let mut stripped_m = stripped;
            out.append(&mut stripped_m);
            proof {
                assert(out@ =~= out_pre + hex_of(vals@[i as int] as nat).skip(1));
                assert(out@ == hex_output(cur));
                assert(all_ascii(out@)) by {
                    let tail = hex_of(vals@[i as int] as nat).skip(1);
                    assert(forall|k: int|
                        0 <= k < tail.len() ==> tail[k] == hex_of(vals@[i as int] as nat)[k + 1]);
                    assert(forall|k: int|
                        0 <= k < out@.len() ==> out@[k] == (if k < out_pre.len() {
                            out_pre[k]
                        } else {
                            tail[k - out_pre.len()]
                        }));
                }
            }
            i = i + 1;
        }
        proof {
            assert(vals@.take(vals@.len() as int) =~= vals@);
        }
        Some(ascii_to_string(out))
    }
}

} // verus!
