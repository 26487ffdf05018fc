//! ULEB128: unsigned little-endian base-128 variable-length integers.
//!
//! An encoding is a run of bytes whose high bit marks continuation; the low
//! seven bits of each byte are payload groups, least significant first.

use vstd::prelude::*;

use crate::blk::error::{ParseError, UlebError};

verus! {

/// `128^i`, the weight of the `i`-th payload group.
pub open spec fn p128(i: nat) -> nat
    decreases i,
{
    if i == 0 {
        1
    } else {
        128 * p128((i - 1) as nat)
    }
}

/// The value carried by the 7-bit payload groups of `s`, least-significant
/// group first. Continuation bits are ignored.
pub open spec fn uleb_nat(s: Seq<u8>) -> nat
    decreases s.len(),
{
    if s.len() == 0 {
        0
    } else {
        ((s[0] & 0x7f) as nat) + 128 * uleb_nat(s.drop_first())
    }
}

/// Length of the ULEB128 encoding at the head of `s`: one past the index of
/// the first byte with its high bit clear; `None` when no such byte exists.
pub open spec fn uleb_term(s: Seq<u8>) -> Option<int>
    decreases s.len(),
{
    if s.len() == 0 {
        None
    } else if s[0] < 128 {
        Some(1int)
    } else {
        match uleb_term(s.drop_first()) {
            Some(l) => Some(l + 1),
            None => None,
        }
    }
}

/// The canonical (shortest) ULEB128 encoding of `n`.
pub open spec fn uleb_encode(n: nat) -> Seq<u8>
    decreases n,
{
    if n < 128 {
        seq![n as u8]
    } else {
        seq![(128 + (n % 128)) as u8] + uleb_encode(n / 128)
    }
}

/// The number of bytes the loop has considered when it stops scanning `s`:
/// the encoding length when a terminator exists, the whole buffer otherwise.
pub open spec fn uleb_scanned(s: Seq<u8>) -> int {
    match uleb_term(s) {
        Some(l) => l,
        None => s.len() as int,
    }
}

proof fn lemma_uleb_nat_take_succ(s: Seq<u8>, i: int)
    requires
        0 <= i < s.len(),
    ensures
        uleb_nat(s.take(i + 1)) == uleb_nat(s.take(i)) + ((s[i] & 0x7f) as nat) * p128(i as nat),
    decreases i,
{
    if i == 0 {
        assert(s.take(1) =~= seq![s[0]]);
        assert(s.take(1).drop_first() =~= Seq::<u8>::empty());
        assert(s.take(0) =~= Seq::<u8>::empty());
        assert(uleb_nat(Seq::<u8>::empty()) == 0);
        assert(uleb_nat(s.take(0)) == 0);
        assert(uleb_nat(s.take(1)) == ((s[0] & 0x7f) as nat)) by {
            reveal_with_fuel(uleb_nat, 2);
        }
        assert(p128(0) == 1);
        assert(((s[0] & 0x7f) as nat) * 1 == ((s[0] & 0x7f) as nat)) by (nonlinear_arith);
        assert(uleb_nat(s.take(i + 1)) == uleb_nat(s.take(i)) + ((s[i] & 0x7f) as nat) * p128(
            i as nat,
        ));
    } else {
        let t = s.drop_first();
        assert(s.take(i + 1).drop_first() =~= t.take(i));
        assert(s.take(i).drop_first() =~= t.take(i - 1));
        assert(s.take(i + 1)[0] == s[0]);
        assert(s.take(i)[0] == s[0]);
        lemma_uleb_nat_take_succ(t, i - 1);
        assert(t[i - 1] == s[i]);
        let a = (s[0] & 0x7f) as nat;
        let b = (s[i] & 0x7f) as nat;
        let y = uleb_nat(t.take(i - 1));
        let p = p128((i - 1) as nat);
        // unfold uleb_nat on both takes
        assert(uleb_nat(s.take(i + 1)) == a + 128 * uleb_nat(t.take(i)));
        assert(uleb_nat(s.take(i)) == a + 128 * y);
        assert(uleb_nat(t.take(i)) == y + b * p);
        assert(p128(i as nat) == 128 * p);
        assert(a + 128 * (y + b * p) == (a + 128 * y) + b * (128 * p)) by (nonlinear_arith);
        assert(uleb_nat(s.take(i + 1)) == a + 128 * (y + b * p));
        assert(uleb_nat(s.take(i + 1)) == uleb_nat(s.take(i)) + b * p128(i as nat));
    }
}

proof fn lemma_uleb_nat_take_mono(s: Seq<u8>, i: int, j: int)
    requires
        0 <= i <= j <= s.len(),
    ensures
        uleb_nat(s.take(i)) <= uleb_nat(s.take(j)),
    decreases j - i,
{
    if i < j {
        lemma_uleb_nat_take_succ(s, i);
        lemma_uleb_nat_take_mono(s, i + 1, j);
    }
}

proof fn lemma_uleb_term_none(s: Seq<u8>)
    requires
        forall|j: int| 0 <= j < s.len() ==> s[j] >= 128,
    ensures
        uleb_term(s) is None,
    decreases s.len(),
{
    if s.len() > 0 {
        lemma_uleb_term_none(s.drop_first());
    }
}

proof fn lemma_uleb_term_at(s: Seq<u8>, i: int)
    requires
        0 <= i < s.len(),
        forall|j: int| 0 <= j < i ==> s[j] >= 128,
        s[i] < 128,
    ensures
        uleb_term(s) == Some(i + 1),
    decreases i,
{
    if i > 0 {
        lemma_uleb_term_at(s.drop_first(), i - 1);
    }
}

/// What reading a ULEB128 integer from the head of `s` yields: the bytes
/// consumed and the value, or the error.
pub open spec fn uleb_spec(s: Seq<u8>) -> Result<(usize, usize), ParseError> {
    if uleb_nat(s.take(uleb_scanned(s))) > usize::MAX {
        Err(ParseError::BadUleb(UlebError::Overflow))
    } else if uleb_term(s) is None {
        Err(ParseError::BadUleb(UlebError::Truncated))
    } else {
        Ok(
            (
                uleb_term(s).unwrap() as usize,
                uleb_nat(s.take(uleb_term(s).unwrap())) as usize,
            ),
        )
    }
}

/// Reads a ULEB128 integer from the head of `bytes`.
///
/// Returns `(bytes_consumed, value)`. Fails with `Truncated` when the slice
/// ends before a terminating byte, and with `Overflow` as soon as the
/// accumulated value would exceed the platform's unsigned word.
pub fn uleb128(bytes: &[u8]) -> (r: Result<(usize, usize), ParseError>)
    ensures
        r == uleb_spec(bytes@),
        r matches Ok(p) ==> 1 <= p.0 <= bytes@.len(),
        (r is Ok) <==> (uleb_term(bytes@) is Some && uleb_nat(bytes@.take(uleb_scanned(bytes@)))
            <= usize::MAX),
        r matches Ok(p) ==> Some(p.0 as int) == uleb_term(bytes@) && p.1 == uleb_nat(
            bytes@.take(p.0 as int),
        ),
        r == Err::<(usize, usize), ParseError>(ParseError::BadUleb(UlebError::Truncated)) <==> (
        uleb_term(bytes@) is None && uleb_nat(bytes@) <= usize::MAX),
        r == Err::<(usize, usize), ParseError>(ParseError::BadUleb(UlebError::Overflow)) <==> (
        uleb_nat(bytes@.take(uleb_scanned(bytes@))) > usize::MAX),
        r is Err ==> (r == Err::<(usize, usize), ParseError>(ParseError::BadUleb(
            UlebError::Truncated,
        )) || r == Err::<(usize, usize), ParseError>(ParseError::BadUleb(UlebError::Overflow))),
{
    let ghost s = bytes@;
    let mut i: usize = 0;
    let mut value: usize = 0;
    let mut m: usize = 1;
    let mut sat: bool = false;
    loop
        invariant
            0 <= i <= s.len(),
            s == bytes@,
            forall|j: int| 0 <= j < i ==> s[j] >= 128,
            value == uleb_nat(s.take(i as int)),
            !sat ==> m == p128(i as nat),
            sat ==> p128(i as nat) > usize::MAX,
        decreases s.len() - i,
    {
        if i >= bytes.len() {
            proof {
                lemma_uleb_term_none(s);
                assert(s.take(s.len() as int) =~= s);
            }
            return Err(ParseError::BadUleb(UlebError::Truncated));
        }
        let b = bytes[i];
        let payload = (b & 0x7f) as usize;
        proof {
            lemma_uleb_nat_take_succ(s, i as int);
        }
        if payload > 0 {
            if sat {
                proof {
                    assert(((s[i as int] & 0x7f) as nat) * p128(i as nat) >= 1 * p128(i as nat))
                        by (nonlinear_arith)
                        requires
                            (s[i as int] & 0x7f) >= 1,
                    ;
                    if uleb_term(s) is Some {
                        lemma_term_bounds(s);
                        lemma_term_ge(s, i as int);
                    }
                    lemma_uleb_nat_take_mono(s, i + 1, uleb_scanned(s));
                    assert(s.take(s.len() as int) =~= s);
                }
                return Err(ParseError::BadUleb(UlebError::Overflow));
            }
            if m > (usize::MAX - value) / payload {
                proof {
                    assert(payload * m > usize::MAX - value) by (nonlinear_arith)
                        requires
                            payload > 0,
                            m as int > (usize::MAX - value) / (payload as int),
                    ;
                    if uleb_term(s) is Some {
                        lemma_term_bounds(s);
                        lemma_term_ge(s, i as int);
                    }
                    lemma_uleb_nat_take_mono(s, i + 1, uleb_scanned(s));
                    assert(s.take(s.len() as int) =~= s);
                }
                return Err(ParseError::BadUleb(UlebError::Overflow));
            }
            proof {
                assert(payload * m <= usize::MAX - value) by (nonlinear_arith)
                    requires
                        payload > 0,
                        m as int <= (usize::MAX - value) / (payload as int),
                ;
            }
            value = value + payload * m;
            proof {
                assert(m == p128(i as nat));
                assert(payload as nat == (s[i as int] & 0x7f) as nat);
                assert((payload as nat) * (m as nat) == ((s[i as int] & 0x7f) as nat) * p128(
                    i as nat,
                ));
                assert(value == uleb_nat(s.take(i as int + 1)));
            }
        } else {
            proof {
                assert((s[i as int] & 0x7f) as nat == 0);
                assert(value == uleb_nat(s.take(i as int + 1)));
            }
        }
        if b < 128 {
            proof {
                lemma_uleb_term_at(s, i as int);
            }
            return Ok((i + 1, value));
        }
        if !sat {
            if m > usize::MAX / 128 {
                sat = true;
                proof {
                    assert(128 * m > usize::MAX) by (nonlinear_arith)
                        requires
                            m > usize::MAX / 128,
                    ;
                }
            } else {
                proof {
                    assert(128 * m <= usize::MAX) by (nonlinear_arith)
                        requires
                            m <= usize::MAX / 128,
                    ;
                }
                m = m * 128;
            }
        } else {
            proof {
                assert(p128((i + 1) as nat) >= p128(i as nat)) by {
                    lemma_p128_pos(i as nat);
                }
            }
        }
        i = i + 1;
    }
}

proof fn lemma_p128_pos(i: nat)
    ensures
        p128(i) >= 1,
        p128(i + 1) == 128 * p128(i),
    decreases i,
{
    if i > 0 {
        lemma_p128_pos((i - 1) as nat);
    }
}

/// A terminator index is always within the buffer, and positive.
proof fn lemma_term_bounds(s: Seq<u8>)
    requires
        uleb_term(s) is Some,
    ensures
        1 <= uleb_term(s).unwrap() <= s.len(),
    decreases s.len(),
{
    if s.len() > 0 && s[0] >= 128 {
        lemma_term_bounds(s.drop_first());
    }
}

/// When a terminator exists and `i` precedes it, the encoding is at least
/// `i + 1` bytes long.
proof fn lemma_term_ge(s: Seq<u8>, i: int)
    requires
        0 <= i < s.len(),
        forall|j: int| 0 <= j < i ==> s[j] >= 128,
        uleb_term(s) is Some,
    ensures
        uleb_term(s).unwrap() >= i + 1,
    decreases i,
{
    lemma_term_bounds(s);
    if i > 0 {
        let t = s.drop_first();
        assert(s[0] >= 128);
        assert(uleb_term(t) is Some);
        assert(forall|j: int| 0 <= j < i - 1 ==> t[j] >= 128);
        lemma_term_ge(t, i - 1);
    }
}

/// Writes the canonical ULEB128 encoding of `n`.
pub fn write_uleb128(n: usize) -> (r: Vec<u8>)
    ensures
        r@ == uleb_encode(n as nat),
    decreases n,
{
    if n < 128 {
        let mut out: Vec<u8> = Vec::new();
        out.push(n as u8);
        proof {
            assert(out@ =~= uleb_encode(n as nat));
        }
        out
    } else {
        let rest = write_uleb128(n / 128);
        let mut out: Vec<u8> = Vec::new();
        out.push((128 + n % 128) as u8);
        let mut k: usize = 0;
        while k < rest.len()
            invariant
                0 <= k <= rest.len(),
                out@ == seq![(128 + (n as nat) % 128) as u8] + rest@.take(k as int),
            decreases rest.len() - k,
        {
            out.push(rest[k]);
            proof {
                assert(rest@.take(k + 1) =~= rest@.take(k as int) + seq![rest@[k as int]]);
            }
            k = k + 1;
        }
        proof {
            assert(rest@.take(rest.len() as int) =~= rest@);
            assert(out@ =~= uleb_encode(n as nat));
        }
        out
    }
}

/// The canonical encoding always ends in a terminator, exactly at its end.
pub proof fn lemma_uleb_encode_term(n: nat)
    ensures
        uleb_term(uleb_encode(n)) == Some(uleb_encode(n).len() as int),
        1 <= uleb_encode(n).len(),
    decreases n,
{
    if n < 128 {
    } else {
        lemma_uleb_encode_term(n / 128);
        assert(uleb_encode(n).drop_first() =~= uleb_encode(n / 128));
    }
}

/// Decoding the canonical encoding of `n` gives back `n`.
pub proof fn lemma_uleb_encode_nat(n: nat)
    ensures
        uleb_nat(uleb_encode(n)) == n,
    decreases n,
{
    if n < 128 {
        assert(uleb_encode(n) =~= seq![n as u8]);
        let b = n as u8;
        assert(b & 0x7f == b) by (bit_vector)
            requires
                b < 128,
        ;
        assert(uleb_encode(n)[0] == b);
        assert(uleb_encode(n).drop_first() =~= Seq::<u8>::empty());
        assert(uleb_nat(Seq::<u8>::empty()) == 0);
        assert(uleb_nat(uleb_encode(n)) == (b & 0x7f) as nat + 128 * 0);
    } else {
        lemma_uleb_encode_nat(n / 128);
        assert(uleb_encode(n).drop_first() =~= uleb_encode(n / 128));
        let m8 = (n % 128) as u8;
        let b = (128 + (n % 128)) as u8;
        assert(b == 128 + m8);
        assert(((128 + m8) as u8) & 0x7f == m8) by (bit_vector)
            requires
                m8 < 128,
        ;
        assert(uleb_encode(n)[0] == b);
        assert((b & 0x7f) as nat == n % 128);
        assert(uleb_nat(uleb_encode(n)) == (b & 0x7f) as nat + 128 * uleb_nat(uleb_encode(n / 128)));
        assert((n % 128) + 128 * (n / 128) == n);
    }
}

/// Round trip: reading the written encoding of any `n` consumes exactly the
/// encoding and yields `n` again.
pub proof fn lemma_uleb_round_trip(n: usize)
    ensures
        uleb_term(uleb_encode(n as nat)) == Some(uleb_encode(n as nat).len() as int),
        uleb_nat(uleb_encode(n as nat).take(uleb_encode(n as nat).len() as int)) == n,
{
    lemma_uleb_encode_term(n as nat);
    lemma_uleb_encode_nat(n as nat);
    assert(uleb_encode(n as nat).take(uleb_encode(n as nat).len() as int) =~= uleb_encode(n as nat));
}

} // verus!
