//! Variable-length integers of the wire format.
//!
//! An unsigned integer is written in little-endian groups of seven bits, one
//! group per byte, lowest group first; every byte but the last has its high
//! bit set. The writer always emits the shortest form. The reader follows the
//! rules of the wire format for an integer of a given width: it reads at most
//! `budget` bytes (3 for 16-bit, 5 for 32-bit, 10 for 64-bit integers), and
//! when the final byte is the `budget`-th one it may hold at most `last_max`
//! (3, 15 and 1 respectively), so that the value fits the width. Longer forms
//! of a value than the shortest one are accepted.

use vstd::prelude::*;

verus! {

/// Why a byte string does not hold a well-formed message.
#[derive(Debug, Clone, Copy, PartialEq, Eq)]
pub enum WireError {
    /// The input ended before the message did.
    UnexpectedEnd,
    /// A variable-length integer is longer than its width allows, or its
    /// last byte carries bits beyond the width.
    BadVarint,
    /// The socket address tag is neither 0 (IPv4) nor 1 (IPv6).
    UnknownAddressKind,
}

/// 128 to the power `n`.
pub open spec fn pow128(n: nat) -> nat
    decreases n,
{
    if n == 0 {
        1
    } else {
        128 * pow128((n - 1) as nat)
    }
}

/// The shortest encoding of `v`.
pub open spec fn varint_encoding(v: nat) -> Seq<u8>
    decreases v,
{
    if v < 128 {
        seq![v as u8]
    } else {
        seq![(v % 128 + 128) as u8] + varint_encoding(v / 128)
    }
}

/// What the reader makes of the start of `s`: the value and the number of
/// bytes it occupies, or the reason the read fails.
pub open spec fn varint_decoding(s: Seq<u8>, budget: nat, last_max: u8) -> Result<(nat, nat), WireError>
    decreases budget,
{
    if budget == 0 {
        Err(WireError::BadVarint)
    } else if s.len() == 0 {
        Err(WireError::UnexpectedEnd)
    } else if s[0] < 128 {
        if budget == 1 && s[0] > last_max {
            Err(WireError::BadVarint)
        } else {
            Ok((s[0] as nat, 1))
        }
    } else {
        match varint_decoding(s.drop_first(), (budget - 1) as nat, last_max) {
            Ok((v, n)) => Ok((((s[0] - 128) + 128 * v) as nat, n + 1)),
            Err(e) => Err(e),
        }
    }
}

/// The values that fit an integer read with `budget` and `last_max`.
pub open spec fn varint_fits(v: nat, budget: nat, last_max: u8) -> bool {
    &&& 1 <= budget
    &&& v < (last_max + 1) * pow128((budget - 1) as nat)
}

pub proof fn lemma_pow128_positive(n: nat)
    ensures
        pow128(n) >= 1,
    decreases n,
{
    if n > 0 {
        lemma_pow128_positive((n - 1) as nat);
    }
}

/// Every value read lies below `(last_max + 1) * 128^(budget - 1)`, and the
/// read takes between one and `budget` bytes of the input.
pub proof fn lemma_varint_decoding_bound(s: Seq<u8>, budget: nat, last_max: u8)
    ensures
        varint_decoding(s, budget, last_max) matches Ok((v, n)) ==> {
            &&& varint_fits(v, budget, last_max)
            &&& 1 <= n <= budget
            &&& n <= s.len()
        },
    decreases budget,
{
    if budget > 0 && s.len() > 0 {
        let l: int = last_max + 1;
        if s[0] < 128 {
            let v: int = s[0] as int;
            if budget == 1 {
                if s[0] <= last_max {
                    assert(pow128(0) == 1);
                    assert(v < l * pow128(0)) by (nonlinear_arith)
                        requires
                            v < l,
                            pow128(0) == 1,
                    ;
                }
            } else {
                let p: int = pow128((budget - 2) as nat) as int;
                lemma_pow128_positive((budget - 2) as nat);
                assert(pow128((budget - 1) as nat) == 128 * p);
                assert(v < l * (128 * p)) by (nonlinear_arith)
                    requires
                        0 <= v < 128,
                        p >= 1,
                        l >= 1,
                ;
            }
        } else {
            let rest = s.drop_first();
            lemma_varint_decoding_bound(rest, (budget - 1) as nat, last_max);
            if let Ok((w, m)) = varint_decoding(rest, (budget - 1) as nat, last_max) {
                let c: int = s[0] - 128;
                let p: int = pow128((budget - 2) as nat) as int;
                assert(budget >= 2);
                assert(pow128((budget - 1) as nat) == 128 * p);
                assert(w < l * p);
                assert(c + 128 * w < l * (128 * p)) by (nonlinear_arith)
                    requires
                        0 <= c < 128,
                        w < l * p,
                        l >= 1,
                ;
            }
        }
    }
}

/// Reading the shortest encoding of a value that fits, followed by anything,
/// gives the value back and stops at the end of the encoding.
pub proof fn lemma_varint_roundtrip(v: nat, rest: Seq<u8>, budget: nat, last_max: u8)
    requires
        varint_fits(v, budget, last_max),
        last_max < 128,
    ensures
        varint_decoding(varint_encoding(v) + rest, budget, last_max) == Ok::<(nat, nat), WireError>(
            (v, varint_encoding(v).len()),
        ),
    decreases v,
{
    let s = varint_encoding(v) + rest;
    if v < 128 {
        assert(s[0] == v as u8);
        if budget == 1 {
            assert(pow128(0) == 1);
            assert(v < last_max + 1) by (nonlinear_arith)
                requires
                    v < (last_max + 1) * pow128(0),
                    pow128(0) == 1,
            ;
        }
    } else {
        lemma_pow128_positive((budget - 1) as nat);
        if budget == 1 {
            assert(pow128(0) == 1);
            assert(v < (last_max + 1) * pow128(0));
            assert(v < last_max + 1) by (nonlinear_arith)
                requires
                    v < (last_max + 1) * pow128(0),
                    pow128(0) == 1,
            ;
            assert(false);
        }
        let p: int = pow128((budget - 2) as nat) as int;
        let l: int = last_max + 1;
        assert(pow128((budget - 1) as nat) == 128 * pow128((budget - 2) as nat));
        assert(v / 128 < l * p) by (nonlinear_arith)
            requires
                v < l * (128 * p),
                l >= 1,
                p >= 1,
        ;
        lemma_varint_roundtrip(v / 128, rest, (budget - 1) as nat, last_max);
        assert(s[0] == (v % 128 + 128) as u8);
        assert(s.drop_first() =~= varint_encoding(v / 128) + rest);
        assert(v % 128 + 128 * (v / 128) == v);
        assert(varint_encoding(v).len() == 1 + varint_encoding(v / 128).len());
    }
}

/// The number that the base-128 digits of `s` stand for, lowest digit
/// first, each digit being the low seven bits of a byte.
pub open spec fn leb128_value(s: Seq<u8>) -> nat
    decreases s.len(),
{
    if s.len() == 0 {
        0
    } else {
        (s[0] % 128) as nat + 128 * leb128_value(s.drop_first())
    }
}

/// `s` is a complete base-128 number in its shortest form: every byte but
/// the last has its high bit set, the last has it clear, and the last is not
/// a zero digit unless it is the only one.
pub open spec fn is_shortest_leb128(s: Seq<u8>) -> bool {
    &&& s.len() >= 1
    &&& forall|i: int| 0 <= i < s.len() - 1 ==> #[trigger] s[i] >= 128
    &&& s[s.len() - 1] < 128
    &&& s.len() > 1 ==> s[s.len() - 1] != 0
}

/// The writer emits, for every value, a shortest base-128 number that
/// stands for exactly that value.
pub proof fn lemma_varint_encoding_is_shortest_leb128(v: nat)
    ensures
        is_shortest_leb128(varint_encoding(v)),
        leb128_value(varint_encoding(v)) == v,
    decreases v,
{
    let e = varint_encoding(v);
    if v < 128 {
        assert(e.drop_first().len() == 0);
        assert(leb128_value(e.drop_first()) == 0);
        assert(e[0] == v as u8);
        assert(leb128_value(e) == (e[0] % 128) as nat + 128 * leb128_value(e.drop_first()));
    } else {
        let t = varint_encoding(v / 128);
        lemma_varint_encoding_is_shortest_leb128(v / 128);
        assert(e.drop_first() =~= t);
        assert(e[e.len() - 1] == t[t.len() - 1]);
        assert forall|i: int| 0 <= i < e.len() - 1 implies #[trigger] e[i] >= 128 by {
            if i > 0 {
                assert(e[i] == t[i - 1]);
            }
        }
        if t.len() == 1 {
            assert(t[0] == (v / 128) as u8);
        }
        assert(e[0] == (v % 128 + 128) as u8);
        assert(leb128_value(e) == (e[0] % 128) as nat + 128 * leb128_value(e.drop_first()));
        assert(e[0] % 128 == v % 128);
        assert(v % 128 + 128 * (v / 128) == v);
    }
}

proof fn lemma_leb128_nonzero(s: Seq<u8>)
    requires
        s.len() >= 1,
        s[s.len() - 1] < 128,
        s[s.len() - 1] != 0,
    ensures
        leb128_value(s) >= 1,
    decreases s.len(),
{
    if s.len() > 1 {
        let t = s.drop_first();
        assert(t[t.len() - 1] == s[s.len() - 1]);
        lemma_leb128_nonzero(t);
    }
}

/// A shortest base-128 number is exactly what the writer emits for the value
/// it stands for: the shortest form is unique.
pub proof fn lemma_shortest_leb128_unique(s: Seq<u8>)
    requires
        is_shortest_leb128(s),
    ensures
        s == varint_encoding(leb128_value(s)),
    decreases s.len(),
{
    if s.len() == 1 {
        assert(s.drop_first().len() == 0);
        assert(leb128_value(s.drop_first()) == 0);
        assert(leb128_value(s) == (s[0] % 128) as nat + 128 * leb128_value(s.drop_first()));
        assert(leb128_value(s) == s[0]);
        assert(varint_encoding(s[0] as nat) == seq![s[0]]);
        assert(s =~= seq![s[0]]);
    } else {
        let t = s.drop_first();
        assert(t[t.len() - 1] == s[s.len() - 1]);
        assert forall|i: int| 0 <= i < t.len() - 1 implies #[trigger] t[i] >= 128 by {
            assert(t[i] == s[i + 1]);
        }
        assert(s[0] >= 128);
        lemma_shortest_leb128_unique(t);
        lemma_leb128_nonzero(t);
        let v = leb128_value(s);
        assert(v == (s[0] % 128) as nat + 128 * leb128_value(t));
        assert(v >= 128);
        assert(v % 128 == s[0] % 128);
        assert(v / 128 == leb128_value(t));
        assert((v % 128 + 128) as u8 == s[0]);
        assert(varint_encoding(v) == seq![(v % 128 + 128) as u8] + varint_encoding(v / 128));
        assert(s =~= seq![s[0]] + t);
    }
}

/// What the reader accepts is read by its digits: the bytes it takes are a
/// base-128 number whose last byte alone has the high bit clear, and the
/// value read is the number they stand for.
pub proof fn lemma_varint_decoding_reads_digits(s: Seq<u8>, budget: nat, last_max: u8)
    ensures
        varint_decoding(s, budget, last_max) matches Ok((v, n)) ==> {
            &&& 1 <= n <= s.len()
            &&& v == leb128_value(s.subrange(0, n as int))
            &&& s[n - 1] < 128
            &&& forall|i: int| 0 <= i < n - 1 ==> #[trigger] s[i] >= 128
        },
    decreases budget,
{
    if budget > 0 && s.len() > 0 {
        if s[0] < 128 {
            let p = s.subrange(0, 1);
            assert(p.drop_first().len() == 0);
            assert(leb128_value(p.drop_first()) == 0);
            assert(p[0] == s[0]);
            assert(leb128_value(p) == (p[0] % 128) as nat + 128 * leb128_value(p.drop_first()));
        } else {
            let t = s.drop_first();
            lemma_varint_decoding_reads_digits(t, (budget - 1) as nat, last_max);
            if let Ok((w, m)) = varint_decoding(t, (budget - 1) as nat, last_max) {
                let p = s.subrange(0, (m + 1) as int);
                assert(p.drop_first() =~= t.subrange(0, m as int));
                assert(s[m as int] == t[m - 1]);
                assert forall|i: int| 0 <= i < m implies #[trigger] s[i] >= 128 by {
                    if i > 0 {
                        assert(s[i] == t[i - 1]);
                    }
                }
                assert((s[0] - 128) == s[0] % 128);
                assert(p[0] == s[0]);
                assert(leb128_value(p) == (p[0] % 128) as nat + 128 * leb128_value(p.drop_first()));
            }
        }
    }
}

/// What the reader does with any input, read by its bytes: it stops at the
/// first byte with the high bit clear among the first `budget` bytes, and
/// takes the number they form, unless that byte is the `budget`-th one and
/// exceeds `last_max`; with no such byte it fails, for want of input if the
/// input is shorter than `budget`, else for a number that is too long.
pub proof fn lemma_varint_decoding_outcome(s: Seq<u8>, budget: nat, last_max: u8)
    requires
        budget >= 1,
    ensures
        (forall|j: int| 0 <= j < s.len() ==> #[trigger] s[j] >= 128) && s.len() < budget
            ==> varint_decoding(s, budget, last_max) == Err::<(nat, nat), WireError>(
            WireError::UnexpectedEnd,
        ),
        (forall|j: int| 0 <= j < budget ==> #[trigger] s[j] >= 128) && s.len() >= budget
            ==> varint_decoding(s, budget, last_max) == Err::<(nat, nat), WireError>(
            WireError::BadVarint,
        ),
        forall|i: int|
            0 <= i < budget && i < s.len() && #[trigger] s[i] < 128 && (forall|j: int|
                0 <= j < i ==> #[trigger] s[j] >= 128) ==> varint_decoding(s, budget, last_max) == (
            if i == budget - 1 && s[i] > last_max {
                Err::<(nat, nat), WireError>(WireError::BadVarint)
            } else {
                Ok::<(nat, nat), WireError>((leb128_value(s.subrange(0, i + 1)), (i + 1) as nat))
            }),
    decreases budget,
{
    if s.len() == 0 {
        assert forall|i: int|
            0 <= i < budget && i < s.len() && #[trigger] s[i] < 128 && (forall|j: int|
                0 <= j < i ==> #[trigger] s[j] >= 128) implies varint_decoding(s, budget, last_max)
            == (if i == budget - 1 && s[i] > last_max {
            Err::<(nat, nat), WireError>(WireError::BadVarint)
        } else {
            Ok::<(nat, nat), WireError>((leb128_value(s.subrange(0, i + 1)), (i + 1) as nat))
        }) by {}
        return;
    }
    lemma_varint_decoding_reads_digits(s, budget, last_max);
    let t = s.drop_first();
    if budget >= 2 {
        lemma_varint_decoding_outcome(t, (budget - 1) as nat, last_max);
    }
    if (forall|j: int| 0 <= j < s.len() ==> #[trigger] s[j] >= 128) && s.len() < budget {
        assert(s[0] >= 128);
        assert(budget >= 2);
        assert forall|j: int| 0 <= j < t.len() implies #[trigger] t[j] >= 128 by {
            assert(t[j] == s[j + 1]);
        }
    }
    if (forall|j: int| 0 <= j < budget ==> #[trigger] s[j] >= 128) && s.len() >= budget {
        assert(s[0] >= 128);
        if budget >= 2 {
            assert forall|j: int| 0 <= j < budget - 1 implies #[trigger] t[j] >= 128 by {
                assert(t[j] == s[j + 1]);
            }
        }
    }
    assert forall|i: int|
        0 <= i < budget && i < s.len() && #[trigger] s[i] < 128 && (forall|j: int|
            0 <= j < i ==> #[trigger] s[j] >= 128) implies varint_decoding(s, budget, last_max) == (
    if i == budget - 1 && s[i] > last_max {
        Err::<(nat, nat), WireError>(WireError::BadVarint)
    } else {
        Ok::<(nat, nat), WireError>((leb128_value(s.subrange(0, i + 1)), (i + 1) as nat))
    }) by {
        if i == 0 {
            let p = s.subrange(0, 1);
            assert(p.drop_first().len() == 0);
            assert(leb128_value(p.drop_first()) == 0);
            assert(p[0] == s[0]);
            assert(leb128_value(p) == (p[0] % 128) as nat + 128 * leb128_value(p.drop_first()));
        } else {
            assert(s[0] >= 128);
            assert(t[i - 1] == s[i]);
            assert forall|j: int| 0 <= j < i - 1 implies #[trigger] t[j] >= 128 by {
                assert(t[j] == s[j + 1]);
            }
            assert(0 <= i - 1 < budget - 1 && i - 1 < t.len() && t[i - 1] < 128);
            let p = s.subrange(0, i + 1);
            assert(p.drop_first() =~= t.subrange(0, i));
            assert(p[0] == s[0]);
            assert(leb128_value(p) == (p[0] % 128) as nat + 128 * leb128_value(p.drop_first()));
            assert((s[0] - 128) == s[0] % 128);
        }
    }
}

/// Appends the shortest encoding of `v` to `out`.
pub fn write_varint(out: &mut Vec<u8>, v: u64)
    ensures
        final(out)@ == old(out)@ + varint_encoding(v as nat),
{
    let ghost start = out@;
    let mut cur: u64 = v;
    while cur >= 128
        invariant
            out@ + varint_encoding(cur as nat) == start + varint_encoding(v as nat),
        decreases cur,
    {
        let ghost before = out@;
        out.push((cur % 128 + 128) as u8);
        assert(varint_encoding(cur as nat) == seq![(cur % 128 + 128) as u8] + varint_encoding(
            (cur / 128) as nat,
        ));
        assert(out@ + varint_encoding((cur / 128) as nat) =~= before + varint_encoding(cur as nat));
        cur = cur / 128;
    }
    out.push(cur as u8);
    assert(out@ =~= start + varint_encoding(v as nat));
}

/// Reads an integer at position `pos` of `s`, with the given `budget` and
/// `last_max`; on success returns its value and the position just after it.
pub fn read_varint(s: &[u8], pos: usize, budget: u8, last_max: u8) -> (r: Result<(u64, usize), WireError>)
    requires
        pos <= s@.len(),
        budget >= 1,
        (last_max + 1) * pow128((budget - 1) as nat) <= 0x1_0000_0000_0000_0000,
    ensures
        match varint_decoding(s@.subrange(pos as int, s@.len() as int), budget as nat, last_max) {
            Ok((v, n)) => r == Ok::<(u64, usize), WireError>((v as u64, (pos + n) as usize)),
            Err(e) => r == Err::<(u64, usize), WireError>(e),
        },
    decreases budget,
{
    let ghost rest = s@.subrange(pos as int, s@.len() as int);
    if pos == s.len() {
        return Err(WireError::UnexpectedEnd);
    }
    let b = s[pos];
    assert(rest[0] == b);
    if b < 128 {
        if budget == 1 && b > last_max {
            Err(WireError::BadVarint)
        } else {
            Ok((b as u64, pos + 1))
        }
    } else if budget == 1 {
        Err(WireError::BadVarint)
    } else {
        proof {
            assert(rest.drop_first() =~= s@.subrange(pos + 1, s@.len() as int));
            {
                assert(pow128((budget - 1) as nat) == 128 * pow128((budget - 2) as nat));
                lemma_pow128_positive((budget - 2) as nat);
                let p: int = pow128((budget - 2) as nat) as int;
                let l: int = last_max + 1;
                assert(l * p <= l * (128 * p)) by (nonlinear_arith)
                    requires
                        l >= 1,
                        p >= 1,
                ;
            }
            lemma_varint_decoding_bound(rest.drop_first(), (budget - 1) as nat, last_max);
        }
        let inner = read_varint(s, pos + 1, budget - 1, last_max);
        match inner {
            Ok((w, end)) => {
                proof {
                    let p: int = pow128((budget - 2) as nat) as int;
                    let l: int = last_max + 1;
                    assert(pow128((budget - 1) as nat) == 128 * pow128((budget - 2) as nat));
                    assert(128 * w + 127 < 0x1_0000_0000_0000_0000) by (nonlinear_arith)
                        requires
                            w < l * p,
                            l * (128 * p) <= 0x1_0000_0000_0000_0000,
                    ;
                }
                Ok(((b - 128) as u64 + 128 * w, end))
            },
            Err(e) => Err(e),
        }
    }
}

} // verus!
