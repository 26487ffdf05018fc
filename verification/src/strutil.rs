//! Byte-level string helpers shared by the decoders and emitters: strict
//! UTF-8 conversion, decimal integer formatting, and the shortest
//! round-trip decimal rendering of IEEE-754 single-precision bit patterns.

use vstd::prelude::*;
use vstd::string::StringSliceAdditionalSpecFns;
use vstd::utf8::valid_utf8;

verus! {

#[verifier::external_type_specification]
#[verifier::external_body]
pub struct ExUtf8Error(core::str::Utf8Error);

pub assume_specification[ core::str::from_utf8 ](v: &[u8]) -> (r: Result<
    &str,
    core::str::Utf8Error,
>)
    ensures
        r is Ok <==> valid_utf8(v@),
        r matches Ok(s) ==> s.spec_bytes() == v@,
;

/// Converts a byte slice to an owned string, `None` when it is not UTF-8.
pub fn bytes_to_string(b: &[u8]) -> (r: Option<String>)
    ensures
        r is Some <==> valid_utf8(b@),
        r matches Some(s) ==> vstd::utf8::encode_utf8(s@) == b@,
{
    match core::str::from_utf8(b) {
        Ok(s) => Some(s.to_owned()),
        Err(_) => None,
    }
}

/// Decimal digits of `n`, most significant first.
pub open spec fn dec_digits(n: nat) -> Seq<u8>
    decreases n,
{
    if n < 10 {
        seq![(0x30 + n) as u8]
    } else {
        dec_digits(n / 10) + seq![(0x30 + n % 10) as u8]
    }
}

/// Decimal representation of `v`: a minus sign for negative values, then
/// the digits of its magnitude.
pub open spec fn dec_int(v: int) -> Seq<u8> {
    if v < 0 {
        seq![0x2du8] + dec_digits((-v) as nat)
    } else {
        dec_digits(v as nat)
    }
}

/// Appends the decimal digits of `n` to `out`.
pub fn push_u64_dec(out: &mut Vec<u8>, n: u64)
    ensures
        final(out)@ == old(out)@ + dec_digits(n as nat),
    decreases n,
{
    if n < 10 {
        out.push((0x30 + n) as u8);
        proof {
            assert(old(out)@ + dec_digits(n as nat) =~= out@);
        }
    } else {
        push_u64_dec(out, n / 10);
        out.push((0x30 + n % 10) as u8);
        proof {
            assert(old(out)@ + dec_digits(n as nat) =~= out@);
        }
    }
}

/// Appends the decimal representation of `v` to `out`.
pub fn push_i64_dec(out: &mut Vec<u8>, v: i64)
    ensures
        final(out)@ == old(out)@ + dec_int(v as int),
{
    if v < 0 {
        out.push(0x2d);
        let wide: i128 = -(v as i128);
        push_u64_dec(out, wide as u64);
        proof {
            assert(old(out)@ + dec_int(v as int) =~= out@);
        }
    } else {
        push_u64_dec(out, v as u64);
    }
}

// ------------------------------------------------------------------
// Shortest round-trip decimal rendering of single-precision floats,
// from their bits alone.
//
// A finite nonzero single-precision value is m * 2^e with m < 2^24 and
// -149 <= e <= 104. Its decimal expansion is computed exactly: the digit
// string of m is doubled e times when e >= 0, or the number is halved
// -e times when e < 0, both as digit-wise passes that a spec function
// mirrors step by step. Every such value has a finite expansion, so no
// rounding happens here. The two half-way points towards the neighbour
// values are expanded the same way (scaled by four they are integers
// times a power of two), and the printed digits are the shortest prefix
// of the exact expansion, rounded down or up, that falls strictly inside
// the half-way interval - at the interval ends too when the significand
// is even, since those ties round back to it. Parsing the output to the
// nearest float therefore restores the same bit pattern, and the digits
// agree with std's shortest-decimal float formatting.
// ------------------------------------------------------------------
/// All entries are decimal digit values, below ten.
pub open spec fn all_digits(ds: Seq<u8>) -> bool {
    forall|i: int| 0 <= i < ds.len() ==> ds[i] < 10
}

/// One doubling pass over a digit string (most significant first):
/// returns the doubled digits and the carry out of the leading digit.
pub open spec fn dbl_rec(ds: Seq<u8>) -> (Seq<u8>, u8)
    decreases ds.len(),
{
    if ds.len() == 0 {
        (Seq::<u8>::empty(), 0u8)
    } else {
        let (t, c) = dbl_rec(ds.drop_first());
        let v = (2 * ds[0] + c) as u8;
        (seq![(v % 10) as u8] + t, (v / 10) as u8)
    }
}

/// A doubled digit string, with the carry prepended when it is nonzero.
pub open spec fn dbl_digits(ds: Seq<u8>) -> Seq<u8> {
    let (t, c) = dbl_rec(ds);
    if c > 0 {
        seq![c] + t
    } else {
        t
    }
}

/// One halving pass over a digit string, left to right, with an incoming
/// borrow `c` (0 or 1) worth ten units at the head: returns the halved
/// digits and the final remainder.
pub open spec fn halve_rec(ds: Seq<u8>, c: u8) -> (Seq<u8>, u8)
    decreases ds.len(),
{
    if ds.len() == 0 {
        (Seq::<u8>::empty(), c)
    } else {
        let v = (10 * c + ds[0]) as u8;
        let (t, r) = halve_rec(ds.drop_first(), (v % 2) as u8);
        (seq![(v / 2) as u8] + t, r)
    }
}

/// Drops one leading zero from a multi-digit integer part.
pub open spec fn trim_lead(ds: Seq<u8>) -> Seq<u8> {
    if ds.len() > 1 && ds[0] == 0 {
        ds.drop_first()
    } else {
        ds
    }
}

/// One halving of a number split into integer and fraction digit strings:
/// the integer remainder flows into the fraction, and a final remainder
/// appends the digit five.
pub open spec fn halve_once(ip: Seq<u8>, fp: Seq<u8>) -> (Seq<u8>, Seq<u8>) {
    let (i2, ri) = halve_rec(ip, 0);
    let (f2, rf) = halve_rec(fp, ri);
    let f3 = if rf > 0 {
        f2 + seq![5u8]
    } else {
        f2
    };
    (trim_lead(i2), f3)
}

/// `k` halvings of the split number.
pub open spec fn halve_n(ip: Seq<u8>, fp: Seq<u8>, k: nat) -> (Seq<u8>, Seq<u8>)
    decreases k,
{
    if k == 0 {
        (ip, fp)
    } else {
        let (i2, f2) = halve_n(ip, fp, (k - 1) as nat);
        halve_once(i2, f2)
    }
}

/// `k` doublings of an integer digit string.
pub open spec fn dbl_n(ds: Seq<u8>, k: nat) -> Seq<u8>
    decreases k,
{
    if k == 0 {
        ds
    } else {
        dbl_digits(dbl_n(ds, (k - 1) as nat))
    }
}

/// Raw digit values of `n`, most significant first.
pub open spec fn raw_digits(n: nat) -> Seq<u8>
    decreases n,
{
    if n < 10 {
        seq![n as u8]
    } else {
        raw_digits(n / 10) + seq![(n % 10) as u8]
    }
}

/// ASCII rendering of raw digit values.
pub open spec fn ascii_digits(ds: Seq<u8>) -> Seq<u8> {
    ds.map_values(|d: u8| (0x30 + d) as u8)
}

/// The exact decimal expansion of `m * 2^e` as raw digit strings:
/// integer part and fraction.
pub open spec fn decimal_of(m: nat, e: int) -> (Seq<u8>, Seq<u8>) {
    if e >= 0 {
        (dbl_n(raw_digits(m), e as nat), Seq::<u8>::empty())
    } else {
        halve_n(raw_digits(m), Seq::<u8>::empty(), (-e) as nat)
    }
}

/// Leading zero digits of a fraction string.
pub open spec fn lead_zeros(fp: Seq<u8>) -> int
    decreases fp.len(),
{
    if fp.len() == 0 {
        0
    } else if fp[0] != 0 {
        0
    } else {
        1 + lead_zeros(fp.subrange(1, fp.len() as int))
    }
}

/// The significant digits of an exact expansion, and the decimal position
/// of the leading digit (`0` for the ones place, negative below it).
pub open spec fn significand(ip: Seq<u8>, fp: Seq<u8>) -> (Seq<u8>, int) {
    if ip.len() == 1 && ip[0] == 0 {
        let z = lead_zeros(fp);
        (fp.skip(z), -z - 1)
    } else {
        (ip + fp, ip.len() - 1)
    }
}

/// The digit string plus one at its last place, and the carry out of the
/// leading digit.
pub open spec fn inc_digits(c: Seq<u8>) -> (Seq<u8>, bool)
    decreases c.len(),
{
    if c.len() == 0 {
        (Seq::<u8>::empty(), true)
    } else if c.last() < 9 {
        (c.update(c.len() - 1, (c.last() + 1) as u8), false)
    } else {
        let (t, carry) = inc_digits(c.drop_last());
        (t.push(0), carry)
    }
}

/// `n` zero digits.
pub open spec fn zeros(n: int) -> Seq<u8> {
    Seq::new(
        if n >= 0 {
            n as nat
        } else {
            0
        },
        |i: int| 0u8,
    )
}

/// A digit string whose leading digit sits at decimal position `k`, split
/// into integer and fraction digit strings.
pub open spec fn positional(c: Seq<u8>, k: int) -> (Seq<u8>, Seq<u8>) {
    if k >= c.len() - 1 {
        (c + zeros(k + 1 - c.len()), Seq::<u8>::empty())
    } else if k >= 0 {
        (c.take(k + 1), c.skip(k + 1))
    } else {
        (seq![0u8], zeros(-k - 1) + c)
    }
}

/// Integer digits with surplus leading zeros removed.
pub open spec fn strip_lead_zeros(d: Seq<u8>) -> Seq<u8>
    decreases d.len(),
{
    if d.len() <= 1 {
        d
    } else if d[0] == 0 {
        strip_lead_zeros(d.subrange(1, d.len() as int))
    } else {
        d
    }
}

/// Lexicographic order of equal-length digit strings.
pub open spec fn cmp_same_len(a: Seq<u8>, b: Seq<u8>) -> int
    decreases a.len(),
{
    if a.len() == 0 || b.len() == 0 {
        0
    } else if a[0] < b[0] {
        -1
    } else if a[0] > b[0] {
        1
    } else {
        cmp_same_len(a.subrange(1, a.len() as int), b.subrange(1, b.len() as int))
    }
}

/// Order of two fraction digit strings, zero-padded on the right.
pub open spec fn cmp_frac(a: Seq<u8>, b: Seq<u8>) -> int
    decreases a.len() + b.len(),
{
    if a.len() == 0 && b.len() == 0 {
        0
    } else {
        let x = if a.len() > 0 {
            a[0]
        } else {
            0
        };
        let y = if b.len() > 0 {
            b[0]
        } else {
            0
        };
        if x < y {
            -1
        } else if x > y {
            1
        } else {
            cmp_frac(
                if a.len() > 0 {
                    a.subrange(1, a.len() as int)
                } else {
                    a
                },
                if b.len() > 0 {
                    b.subrange(1, b.len() as int)
                } else {
                    b
                },
            )
        }
    }
}

/// Numeric order of two nonnegative decimals given as integer and
/// fraction digit strings.
pub open spec fn cmp_dec(i1: Seq<u8>, f1: Seq<u8>, i2: Seq<u8>, f2: Seq<u8>) -> int {
    let a = strip_lead_zeros(i1);
    let b = strip_lead_zeros(i2);
    if a.len() < b.len() {
        -1
    } else if a.len() > b.len() {
        1
    } else {
        let c = cmp_same_len(a, b);
        if c != 0 {
            c
        } else {
            cmp_frac(f1, f2)
        }
    }
}

/// Whether the candidate decimal lies within the rounding interval given
/// by the two half-way decimals, closed at both ends when `inclusive`.
pub open spec fn in_interval(
    ci: Seq<u8>,
    cf: Seq<u8>,
    li: Seq<u8>,
    lf: Seq<u8>,
    hi: Seq<u8>,
    hf: Seq<u8>,
    inclusive: bool,
) -> bool {
    let cl = cmp_dec(ci, cf, li, lf);
    let ch = cmp_dec(ci, cf, hi, hf);
    if inclusive {
        cl >= 0 && ch <= 0
    } else {
        cl > 0 && ch < 0
    }
}

/// Whether rounding the exact digits after position `p` goes up: the
/// first dropped digit is five or more, halves rounding away from zero as
/// std's shortest formatting does.
pub open spec fn round_up_closer(digits: Seq<u8>, p: int) -> bool {
    if p >= digits.len() || p < 1 {
        false
    } else {
        digits[p] >= 5
    }
}

/// The truncation plus one, with its possibly shifted leading position.
pub open spec fn up_candidate(down: Seq<u8>, k: int) -> (Seq<u8>, int) {
    let (u, carry) = inc_digits(down);
    if carry {
        (seq![1u8] + u, k + 1)
    } else {
        (u, k)
    }
}

/// The shortest rounded prefix of the exact digits that stays inside the
/// rounding interval, searched from `p` digits upward: at each width the
/// two bracketing candidates are tried, the nearer (ties to even) first;
/// the full exact digits when no prefix lands inside.
pub open spec fn shortest_from(
    digits: Seq<u8>,
    k: int,
    li: Seq<u8>,
    lf: Seq<u8>,
    hi: Seq<u8>,
    hf: Seq<u8>,
    inclusive: bool,
    p: int,
) -> (Seq<u8>, int)
    decreases digits.len() - p,
{
    if p < 1 || p >= digits.len() {
        (digits, k)
    } else {
        let down = digits.take(p);
        let (ud, uk) = up_candidate(down, k);
        let (di, df) = positional(down, k);
        let (ui, uf2) = positional(ud, uk);
        let down_ok = in_interval(di, df, li, lf, hi, hf, inclusive);
        let up_ok = in_interval(ui, uf2, li, lf, hi, hf, inclusive);
        if down_ok && up_ok {
            if round_up_closer(digits, p) {
                (ud, uk)
            } else {
                (down, k)
            }
        } else if down_ok {
            (down, k)
        } else if up_ok {
            (ud, uk)
        } else {
            shortest_from(digits, k, li, lf, hi, hf, inclusive, p + 1)
        }
    }
}

/// Trailing zero digits removed; at least one digit kept.
pub open spec fn strip_trailing(c: Seq<u8>) -> Seq<u8>
    decreases c.len(),
{
    if c.len() <= 1 {
        c
    } else if c.last() == 0 {
        strip_trailing(c.drop_last())
    } else {
        c
    }
}

/// The rendered digits: positional notation with at least one fractional
/// digit while the leading position lies within the thresholds std's
/// float formatting uses, exponential notation beyond them.
pub open spec fn fmt_digits(c: Seq<u8>, k: int) -> Seq<u8> {
    if c.len() == 0 {
        seq![0x30u8, 0x2eu8, 0x30u8]
    } else if -4 <= k <= 15 {
        let (ip, fp) = positional(c, k);
        ascii_digits(ip) + seq![0x2eu8] + (if fp.len() == 0 {
            seq![0x30u8]
        } else {
            ascii_digits(fp)
        })
    } else {
        ascii_digits(c.take(1)) + (if c.len() > 1 {
            seq![0x2eu8] + ascii_digits(c.skip(1))
        } else {
            Seq::<u8>::empty()
        }) + seq![0x65u8] + dec_int(k)
    }
}

/// The shortest decimal rendering of the finite nonzero `m * 2^e`, sign
/// aside: the shortest digit string within the value's rounding interval,
/// whose half-way points are `(4m - lower_gap) * 2^(e-2)` and
/// `(4m + 2) * 2^(e-2)`, closed exactly when the significand is even.
/// Re-parsing the output to the nearest float restores the same bits.
pub open spec fn float_mag_dec(m: nat, e: int, lower_gap: int, inclusive: bool) -> Seq<u8> {
    let (vi, vf) = decimal_of(m, e);
    let (digits, k) = significand(vi, vf);
    let (li, lf) = decimal_of((4 * m - lower_gap) as nat, e - 2);
    let (hi2, hf2) = decimal_of((4 * m + 2) as nat, e - 2);
    let (sel, selk) = shortest_from(digits, k, li, lf, hi2, hf2, inclusive, 1);
    fmt_digits(strip_trailing(sel), selk)
}

/// What the float renderer produces for a single-precision bit pattern:
/// `NaN`, signed infinity, signed zero, or the signed shortest decimal
/// that re-parses to the same bits.
pub open spec fn f32_dec(bits: u32) -> Seq<u8> {
    let sign = bits >> 31;
    let ex = (bits >> 23) & 0xff;
    let mant = (bits & 0x7fffff) as nat;
    if ex == 255 {
        if mant != 0 {
            seq![0x4eu8, 0x61u8, 0x4eu8]  // NaN

        } else if sign == 1 {
            seq![0x2du8, 0x69u8, 0x6eu8, 0x66u8]  // -inf

        } else {
            seq![0x69u8, 0x6eu8, 0x66u8]  // inf

        }
    } else if ex == 0 && mant == 0 {
        if sign == 1 {
            seq![0x2du8, 0x30u8, 0x2eu8, 0x30u8]  // -0.0

        } else {
            seq![0x30u8, 0x2eu8, 0x30u8]  // 0.0

        }
    } else {
        let m = if ex == 0 {
            mant
        } else {
            mant + 0x800000
        };
        let e = (if ex == 0 {
            1int
        } else {
            ex as int
        }) - 150;
        let lower_gap: int = if mant == 0 && ex > 1 {
            1
        } else {
            2
        };
        let mag = float_mag_dec(m, e, lower_gap, m % 2 == 0);
        if sign == 1 {
            seq![0x2du8] + mag
        } else {
            mag
        }
    }
}

/// One exec doubling pass; mirrors `dbl_rec` over the whole vector.
fn dbl_pass(ds: &Vec<u8>) -> (r: Vec<u8>)
    requires
        all_digits(ds@),
    ensures
        r@ == dbl_digits(ds@),
        all_digits(r@),
{
    let n = ds.len();
    let mut out: Vec<u8> = Vec::new();
    let mut carry: u8 = 0;
    let mut i: usize = n;
    // `out` holds the doubled digits of the processed suffix, reversed.
    while i > 0
        invariant
            0 <= i <= n,
            n == ds@.len(),
            all_digits(ds@),
            carry <= 1,
            all_digits(out@),
            out@.reverse() == dbl_rec(ds@.skip(i as int)).0,
            carry == dbl_rec(ds@.skip(i as int)).1,
        decreases i,
    {
        i = i - 1;
        let v = 2 * ds[i] + carry;
        out.push(v % 10);
        carry = v / 10;
        proof {
            assert(ds@.skip(i as int).drop_first() =~= ds@.skip(i as int + 1));
            assert(ds@.skip(i as int)[0] == ds@[i as int]);
            assert(out@.reverse() =~= seq![(v % 10) as u8] + dbl_rec(ds@.skip(i as int + 1)).0);
        }
    }
    proof {
        assert(ds@.skip(0) =~= ds@);
    }
    if carry > 0 {
        let mut res: Vec<u8> = Vec::new();
        res.push(carry);
        let mut k: usize = out.len();
        while k > 0
            invariant
                0 <= k <= out@.len(),
                res@ == seq![dbl_rec(ds@).1] + out@.reverse().take(out@.len() - k),
                all_digits(out@),
                all_digits(res@),
                dbl_rec(ds@).1 > 0,
                carry == dbl_rec(ds@).1,
            decreases k,
        {
            k = k - 1;
            res.push(out[k]);
            proof {
                assert(out@.reverse().take(out@.len() - k) =~= out@.reverse().take(
                    out@.len() - k - 1,
                ) + seq![out@[k as int]]);
            }
        }
        proof {
            assert(out@.reverse().take(out@.len() as int) =~= out@.reverse());
            assert(res@ =~= dbl_digits(ds@));
        }
        res
    } else {
        let mut res: Vec<u8> = Vec::new();
        let mut k: usize = out.len();
        while k > 0
            invariant
                0 <= k <= out@.len(),
                res@ == out@.reverse().take(out@.len() - k),
                all_digits(out@),
                all_digits(res@),
            decreases k,
        {
            k = k - 1;
            res.push(out[k]);
            proof {
                assert(out@.reverse().take(out@.len() - k) =~= out@.reverse().take(
                    out@.len() - k - 1,
                ) + seq![out@[k as int]]);
            }
        }
        proof {
            assert(out@.reverse().take(out@.len() as int) =~= out@.reverse());
            assert(res@ =~= dbl_digits(ds@));
        }
        res
    }
}

/// One exec halving pass with incoming borrow; mirrors `halve_rec`.
fn halve_pass(ds: &Vec<u8>, c: u8) -> (r: (Vec<u8>, u8))
    requires
        all_digits(ds@),
        c <= 1,
    ensures
        r.0@ == halve_rec(ds@, c).0,
        r.1 == halve_rec(ds@, c).1,
        all_digits(r.0@),
        r.1 <= 1,
{
    let n = ds.len();
    let mut out: Vec<u8> = Vec::new();
    let mut rem: u8 = c;
    let mut i: usize = 0;
    proof {
        assert(ds@.skip(0) =~= ds@);
        assert(Seq::<u8>::empty() + halve_rec(ds@, c).0 =~= halve_rec(ds@, c).0);
    }
    while i < n
        invariant
            0 <= i <= n,
            n == ds@.len(),
            all_digits(ds@),
            rem <= 1,
            all_digits(out@),
            halve_rec(ds@, c) == {
                let (t, r) = halve_rec(ds@.skip(i as int), rem);
                (out@ + t, r)
            },
        decreases n - i,
    {
        let ghost prev = out@;
        let v = 10 * rem + ds[i];
        out.push(v / 2);
        rem = v % 2;
        proof {
            assert(ds@.skip(i as int).drop_first() =~= ds@.skip(i as int + 1));
            assert(ds@.skip(i as int)[0] == ds@[i as int]);
            let (t1, r1) = halve_rec(ds@.skip(i as int + 1), (v % 2) as u8);
            assert(prev + (seq![(v / 2) as u8] + t1) =~= out@ + t1);
        }
        i = i + 1;
    }
    proof {
        assert(ds@.skip(n as int) =~= Seq::<u8>::empty());
        assert(out@ + Seq::<u8>::empty() =~= out@);
    }
    (out, rem)
}

/// Raw digit values of `n`, mirroring `raw_digits`.
fn raw_digits_exec(n: u32) -> (r: Vec<u8>)
    ensures
        r@ == raw_digits(n as nat),
        all_digits(r@),
    decreases n,
{
    if n < 10 {
        let mut v: Vec<u8> = Vec::new();
        v.push(n as u8);
        proof {
            assert(v@ =~= raw_digits(n as nat));
        }
        v
    } else {
        let mut v = raw_digits_exec(n / 10);
        v.push((n % 10) as u8);
        proof {
            assert(v@ =~= raw_digits(n as nat));
        }
        v
    }
}

/// Appends digit values as ASCII digits.
fn push_ascii_digits(out: &mut Vec<u8>, ds: &Vec<u8>)
    requires
        all_digits(ds@),
    ensures
        final(out)@ == old(out)@ + ascii_digits(ds@),
{
    let mut i: usize = 0;
    while i < ds.len()
        invariant
            0 <= i <= ds@.len(),
            all_digits(ds@),
            out@ == old(out)@ + ascii_digits(ds@).take(i as int),
        decreases ds@.len() - i,
    {
        out.push(0x30 + ds[i]);
        proof {
            assert(ascii_digits(ds@).take(i as int + 1) =~= ascii_digits(ds@).take(i as int)
                + seq![(0x30 + ds@[i as int]) as u8]);
            assert(out@ =~= old(out)@ + ascii_digits(ds@).take(i as int + 1));
        }
        i = i + 1;
    }
    proof {
        assert(ascii_digits(ds@).take(ds@.len() as int) =~= ascii_digits(ds@));
    }
}

/// Copies the digit range `[a, b)`.
fn copy_digits(v: &Vec<u8>, a: usize, b: usize) -> (r: Vec<u8>)
    requires
        a <= b <= v@.len(),
    ensures
        r@ == v@.subrange(a as int, b as int),
{
    let mut out: Vec<u8> = Vec::new();
    let mut i: usize = a;
    while i < b
        invariant
            a <= i <= b <= v@.len(),
            out@ == v@.subrange(a as int, i as int),
        decreases b - i,
    {
        out.push(v[i]);
        proof {
            assert(v@.subrange(a as int, i as int + 1) =~= v@.subrange(a as int, i as int).push(
                v@[i as int],
            ));
        }
        i = i + 1;
    }
    out
}

/// The exact decimal expansion of `m * 2^e`, as raw digit strings.
fn decimal_raw(m: u32, e: i32) -> (r: (Vec<u8>, Vec<u8>))
    requires
        m > 0,
        -151 <= e <= 104,
    ensures
        (r.0@, r.1@) == decimal_of(m as nat, e as int),
        all_digits(r.0@),
        all_digits(r.1@),
{
    if e >= 0 {
        let mut ds = raw_digits_exec(m);
        let mut k: u32 = 0;
        let bound = e as u32;
        while k < bound
            invariant
                0 <= k <= bound,
                bound == e,
                e >= 0,
                ds@ == dbl_n(raw_digits(m as nat), k as nat),
                all_digits(ds@),
            decreases bound - k,
        {
            ds = dbl_pass(&ds);
            k = k + 1;
        }
        let fp: Vec<u8> = Vec::new();
        proof {
            assert(fp@ =~= Seq::<u8>::empty());
        }
        (ds, fp)
    } else {
        let mut ip = raw_digits_exec(m);
        let mut fp: Vec<u8> = Vec::new();
        let mut k: u32 = 0;
        let bound = (-(e as i64)) as u32;
        while k < bound
            invariant
                0 <= k <= bound,
                bound == -(e as int),
                e < 0,
                (ip@, fp@) == halve_n(raw_digits(m as nat), Seq::<u8>::empty(), k as nat),
                all_digits(ip@),
                all_digits(fp@),
            decreases bound - k,
        {
            let (i2, ri) = halve_pass(&ip, 0);
            let (f2, rf) = halve_pass(&fp, ri);
            let mut f3 = f2;
            if rf > 0 {
                f3.push(5);
            }
            let i3 = if i2.len() > 1 && i2[0] == 0 {
                let t = copy_digits(&i2, 1, i2.len());
                proof {
                    assert(t@ =~= i2@.drop_first());
                }
                t
            } else {
                i2
            };
            ip = i3;
            fp = f3;
            proof {
                let (si, sf) = halve_n(raw_digits(m as nat), Seq::<u8>::empty(), k as nat);
                let (gi, gri) = halve_rec(si, 0);
                let (gf, grf) = halve_rec(sf, gri);
                assert(sf + seq![5u8] =~= sf.push(5u8)) by {
                }
                assert((ip@, fp@) == halve_once(si, sf));
            }
            k = k + 1;
        }
        (ip, fp)
    }
}

/// Leading zero digits of the fraction, from `i` on.
fn lead_zeros_from(fp: &Vec<u8>, i: usize) -> (r: usize)
    requires
        i <= fp@.len(),
    ensures
        r as int == lead_zeros(fp@.skip(i as int)),
        i + r <= fp@.len(),
    decreases fp@.len() - i,
{
    if i == fp.len() {
        proof {
            assert(fp@.skip(i as int).len() == 0);
        }
        0
    } else if fp[i] != 0 {
        proof {
            assert(fp@.skip(i as int)[0] == fp@[i as int]);
        }
        0
    } else {
        proof {
            assert(fp@.skip(i as int)[0] == fp@[i as int]);
            assert(fp@.skip(i as int).subrange(1, fp@.skip(i as int).len() as int) =~= fp@.skip(
                i as int + 1,
            ));
        }
        1 + lead_zeros_from(fp, i + 1)
    }
}

/// The significant digits and leading decimal position of an expansion.
fn significand_exec(ip: &Vec<u8>, fp: &Vec<u8>) -> (r: (Vec<u8>, i32))
    requires
        1 <= ip@.len() <= 200,
        fp@.len() <= 200,
        all_digits(ip@),
        all_digits(fp@),
    ensures
        (r.0@, r.1 as int) == significand(ip@, fp@),
        -201 <= r.1 <= 200,
        r.0@.len() <= ip@.len() + fp@.len(),
        all_digits(r.0@),
{
    if ip.len() == 1 && ip[0] == 0 {
        let z = lead_zeros_from(fp, 0);
        proof {
            assert(fp@.skip(0) =~= fp@);
        }
        let digits = copy_digits(fp, z, fp.len());
        proof {
            assert(digits@ =~= fp@.skip(z as int));
        }
        (digits, -(z as i32) - 1)
    } else {
        let mut digits = copy_digits(ip, 0, ip.len());
        let mut tail = copy_digits(fp, 0, fp.len());
        digits.append(&mut tail);
        proof {
            assert(digits@ =~= ip@ + fp@);
        }
        (digits, (ip.len() - 1) as i32)
    }
}

/// The first `n` digits plus one, with the carry out.
fn inc_rec(c: &Vec<u8>, n: usize) -> (r: (Vec<u8>, bool))
    requires
        n <= c@.len(),
        all_digits(c@),
    ensures
        (r.0@, r.1) == inc_digits(c@.take(n as int)),
        all_digits(r.0@),
        r.0@.len() == n,
    decreases n,
{
    if n == 0 {
        let out: Vec<u8> = Vec::new();
        proof {
            assert(c@.take(0) =~= Seq::<u8>::empty());
            assert(out@ =~= Seq::<u8>::empty());
        }
        (out, true)
    } else {
        let last = c[n - 1];
        proof {
            assert(c@.take(n as int).last() == c@[n as int - 1]);
            assert(c@.take(n as int).drop_last() =~= c@.take(n as int - 1));
        }
        if last < 9 {
            let mut out = copy_digits(c, 0, n - 1);
            out.push(last + 1);
            proof {
                assert(out@ =~= c@.take(n as int).update(n as int - 1, (last + 1) as u8));
            }
            (out, false)
        } else {
            let (mut t, carry) = inc_rec(c, n - 1);
            t.push(0);
            (t, carry)
        }
    }
}

/// `n` zero digits.
fn zeros_vec(n: usize) -> (r: Vec<u8>)
    ensures
        r@ == zeros(n as int),
        all_digits(r@),
{
    let mut out: Vec<u8> = Vec::new();
    let mut i: usize = 0;
    while i < n
        invariant
            0 <= i <= n,
            out@ == zeros(i as int),
        decreases n - i,
    {
        out.push(0);
        proof {
            assert(out@ =~= zeros(i as int + 1));
        }
        i = i + 1;
    }
    out
}

/// Splits digits with leading position `k` into integer and fraction.
fn positional_exec(c: &Vec<u8>, k: i32) -> (r: (Vec<u8>, Vec<u8>))
    requires
        1 <= c@.len() <= 400,
        -400 <= k <= 400,
        all_digits(c@),
    ensures
        (r.0@, r.1@) == positional(c@, k as int),
        all_digits(r.0@),
        all_digits(r.1@),
{
    let len = c.len();
    if k >= 0 && (k as usize) >= len - 1 {
        let mut ipart = copy_digits(c, 0, len);
        let mut pad = zeros_vec((k as usize) + 1 - len);
        ipart.append(&mut pad);
        let fpart: Vec<u8> = Vec::new();
        proof {
            assert(c@.subrange(0, len as int) =~= c@);
            assert(ipart@ =~= c@ + zeros(k as int + 1 - c@.len()));
            assert(fpart@ =~= Seq::<u8>::empty());
        }
        (ipart, fpart)
    } else if k >= 0 {
        let ipart = copy_digits(c, 0, (k as usize) + 1);
        let fpart = copy_digits(c, (k as usize) + 1, len);
        proof {
            assert(ipart@ =~= c@.take(k as int + 1));
            assert(fpart@ =~= c@.skip(k as int + 1));
        }
        (ipart, fpart)
    } else {
        let mut ipart: Vec<u8> = Vec::new();
        ipart.push(0);
        let mut fpart = zeros_vec((-(k as i64) - 1) as usize);
        let mut tail = copy_digits(c, 0, len);
        fpart.append(&mut tail);
        proof {
            assert(ipart@ =~= seq![0u8]);
            assert(c@.subrange(0, len as int) =~= c@);
            assert(fpart@ =~= zeros(-(k as int) - 1) + c@);
        }
        (ipart, fpart)
    }
}

/// Integer digits from `i` on, surplus leading zeros removed.
fn strip_lead_rec(v: &Vec<u8>, i: usize) -> (r: Vec<u8>)
    requires
        i <= v@.len(),
    ensures
        r@ == strip_lead_zeros(v@.skip(i as int)),
    decreases v@.len() - i,
{
    let len = v.len();
    if len - i <= 1 {
        copy_digits(v, i, len)
    } else if v[i] == 0 {
        proof {
            assert(v@.skip(i as int)[0] == v@[i as int]);
            assert(v@.skip(i as int).subrange(1, v@.skip(i as int).len() as int) =~= v@.skip(
                i as int + 1,
            ));
        }
        strip_lead_rec(v, i + 1)
    } else {
        proof {
            assert(v@.skip(i as int)[0] == v@[i as int]);
        }
        copy_digits(v, i, len)
    }
}

/// The first `n` digits, trailing zeros removed.
fn strip_trail_rec(v: &Vec<u8>, n: usize) -> (r: Vec<u8>)
    requires
        n <= v@.len(),
        all_digits(v@),
    ensures
        r@ == strip_trailing(v@.take(n as int)),
        all_digits(r@),
    decreases n,
{
    if n <= 1 {
        copy_digits(v, 0, n)
    } else if v[n - 1] == 0 {
        proof {
            assert(v@.take(n as int).last() == v@[n as int - 1]);
            assert(v@.take(n as int).drop_last() =~= v@.take(n as int - 1));
        }
        strip_trail_rec(v, n - 1)
    } else {
        proof {
            assert(v@.take(n as int).last() == v@[n as int - 1]);
        }
        copy_digits(v, 0, n)
    }
}

/// Lexicographic order of equal-length digit strings, from `i` on.
fn cmp_same_rec(a: &Vec<u8>, b: &Vec<u8>, i: usize) -> (r: i32)
    requires
        a@.len() == b@.len(),
        i <= a@.len(),
    ensures
        r as int == cmp_same_len(a@.skip(i as int), b@.skip(i as int)),
    decreases a@.len() - i,
{
    if i == a.len() {
        proof {
            assert(a@.skip(i as int).len() == 0);
        }
        0
    } else {
        proof {
            assert(a@.skip(i as int)[0] == a@[i as int]);
            assert(b@.skip(i as int)[0] == b@[i as int]);
            assert(a@.skip(i as int).subrange(1, a@.skip(i as int).len() as int) =~= a@.skip(
                i as int + 1,
            ));
            assert(b@.skip(i as int).subrange(1, b@.skip(i as int).len() as int) =~= b@.skip(
                i as int + 1,
            ));
        }
        if a[i] < b[i] {
            -1
        } else if a[i] > b[i] {
            1
        } else {
            cmp_same_rec(a, b, i + 1)
        }
    }
}

/// Order of two fractions, zero-padded, from positions `i` and `j` on.
fn cmp_frac_rec(a: &Vec<u8>, b: &Vec<u8>, i: usize, j: usize) -> (r: i32)
    requires
        i <= a@.len(),
        j <= b@.len(),
    ensures
        r as int == cmp_frac(a@.skip(i as int), b@.skip(j as int)),
    decreases (a@.len() - i) + (b@.len() - j),
{
    if i == a.len() && j == b.len() {
        proof {
            assert(a@.skip(i as int).len() == 0);
            assert(b@.skip(j as int).len() == 0);
        }
        0
    } else {
        let x = if i < a.len() {
            a[i]
        } else {
            0
        };
        let y = if j < b.len() {
            b[j]
        } else {
            0
        };
        proof {
            if i < a.len() {
                assert(a@.skip(i as int)[0] == a@[i as int]);
                assert(a@.skip(i as int).subrange(1, a@.skip(i as int).len() as int) =~= a@.skip(
                    i as int + 1,
                ));
            } else {
                assert(a@.skip(i as int).len() == 0);
            }
            if j < b.len() {
                assert(b@.skip(j as int)[0] == b@[j as int]);
                assert(b@.skip(j as int).subrange(1, b@.skip(j as int).len() as int) =~= b@.skip(
                    j as int + 1,
                ));
            } else {
                assert(b@.skip(j as int).len() == 0);
            }
        }
        if x < y {
            -1
        } else if x > y {
            1
        } else {
            let i2 = if i < a.len() {
                i + 1
            } else {
                i
            };
            let j2 = if j < b.len() {
                j + 1
            } else {
                j
            };
            cmp_frac_rec(a, b, i2, j2)
        }
    }
}

/// Numeric order of two nonnegative decimals.
fn cmp_dec_exec(i1: &Vec<u8>, f1: &Vec<u8>, i2: &Vec<u8>, f2: &Vec<u8>) -> (r: i32)
    ensures
        r as int == cmp_dec(i1@, f1@, i2@, f2@),
{
    proof {
        assert(i1@.skip(0) =~= i1@);
        assert(i2@.skip(0) =~= i2@);
        assert(f1@.skip(0) =~= f1@);
        assert(f2@.skip(0) =~= f2@);
    }
    let a = strip_lead_rec(i1, 0);
    let b = strip_lead_rec(i2, 0);
    if a.len() < b.len() {
        -1
    } else if a.len() > b.len() {
        1
    } else {
        proof {
            assert(a@.skip(0) =~= a@);
            assert(b@.skip(0) =~= b@);
        }
        let c = cmp_same_rec(&a, &b, 0);
        if c != 0 {
            c
        } else {
            cmp_frac_rec(f1, f2, 0, 0)
        }
    }
}

/// Whether the candidate lies within the rounding interval.
fn in_interval_exec(
    ci: &Vec<u8>,
    cf: &Vec<u8>,
    li: &Vec<u8>,
    lf: &Vec<u8>,
    hi: &Vec<u8>,
    hf: &Vec<u8>,
    inclusive: bool,
) -> (r: bool)
    ensures
        r == in_interval(ci@, cf@, li@, lf@, hi@, hf@, inclusive),
{
    let cl = cmp_dec_exec(ci, cf, li, lf);
    let ch = cmp_dec_exec(ci, cf, hi, hf);
    if inclusive {
        cl >= 0 && ch <= 0
    } else {
        cl > 0 && ch < 0
    }
}

/// Whether rounding the exact digits at position `p` goes up.
fn round_up_exec(digits: &Vec<u8>, p: usize) -> (r: bool)
    requires
        1 <= p,
    ensures
        r == round_up_closer(digits@, p as int),
{
    if p >= digits.len() {
        false
    } else {
        digits[p] >= 5
    }
}

/// The truncation plus one, with its possibly shifted leading position.
fn up_candidate_exec(down: &Vec<u8>, k: i32) -> (r: (Vec<u8>, i32))
    requires
        all_digits(down@),
        -400 <= k <= 399,
    ensures
        (r.0@, r.1 as int) == up_candidate(down@, k as int),
        all_digits(r.0@),
        down@.len() <= r.0@.len() <= down@.len() + 1,
{
    proof {
        assert(down@.take(down@.len() as int) =~= down@);
    }
    let (u, carry) = inc_rec(down, down.len());
    if carry {
        let mut out: Vec<u8> = Vec::new();
        out.push(1);
        let mut tail = u;
        out.append(&mut tail);
        proof {
            assert(out@ =~= seq![1u8] + inc_digits(down@).0);
        }
        (out, k + 1)
    } else {
        (u, k)
    }
}

/// The shortest rounded prefix of the exact digits inside the interval.
fn select_shortest(
    digits: &Vec<u8>,
    k: i32,
    li: &Vec<u8>,
    lf: &Vec<u8>,
    hi: &Vec<u8>,
    hf: &Vec<u8>,
    inclusive: bool,
) -> (r: (Vec<u8>, i32))
    requires
        all_digits(digits@),
        digits@.len() <= 399,
        -399 <= k <= 399,
    ensures
        (r.0@, r.1 as int) == shortest_from(digits@, k as int, li@, lf@, hi@, hf@, inclusive, 1),
        all_digits(r.0@),
{
    let ghost goal = shortest_from(digits@, k as int, li@, lf@, hi@, hf@, inclusive, 1);
    let mut p: usize = 1;
    while p < digits.len()
        invariant
            1 <= p,
            digits@.len() <= 399,
            -399 <= k <= 399,
            all_digits(digits@),
            goal == shortest_from(digits@, k as int, li@, lf@, hi@, hf@, inclusive, 1),
            goal == shortest_from(digits@, k as int, li@, lf@, hi@, hf@, inclusive, p as int),
        decreases digits@.len() - p,
    {
        let down = copy_digits(digits, 0, p);
        proof {
            assert(down@ =~= digits@.take(p as int));
            assert(all_digits(down@));
        }
        let (ud, uk) = up_candidate_exec(&down, k);
        let (di, df) = positional_exec(&down, k);
        let (ui, uf2) = positional_exec(&ud, uk);
        let down_ok = in_interval_exec(&di, &df, li, lf, hi, hf, inclusive);
        let up_ok = in_interval_exec(&ui, &uf2, li, lf, hi, hf, inclusive);
        if down_ok && up_ok {
            if round_up_exec(digits, p) {
                return (ud, uk);
            } else {
                return (down, k);
            }
        } else if down_ok {
            return (down, k);
        } else if up_ok {
            return (ud, uk);
        }
        p = p + 1;
    }
    let out = copy_digits(digits, 0, digits.len());
    proof {
        assert(out@ =~= digits@);
    }
    (out, k)
}

/// Appends the rendered digits: positional within std's thresholds,
/// exponential beyond them.
fn push_fmt_digits(out: &mut Vec<u8>, c: &Vec<u8>, k: i32)
    requires
        1 <= c@.len() <= 400,
        -400 <= k <= 400,
        all_digits(c@),
    ensures
        final(out)@ == old(out)@ + fmt_digits(c@, k as int),
{
    if -4 <= k && k <= 15 {
        let (ipart, fpart) = positional_exec(c, k);
        push_ascii_digits(out, &ipart);
        out.push(0x2e);
        if fpart.len() == 0 {
            out.push(0x30);
        } else {
            push_ascii_digits(out, &fpart);
        }
        proof {
            assert(out@ =~= old(out)@ + fmt_digits(c@, k as int));
        }
    } else {
        let head = copy_digits(c, 0, 1);
        proof {
            assert(head@ =~= c@.take(1));
            assert(all_digits(head@));
        }
        push_ascii_digits(out, &head);
        if c.len() > 1 {
            out.push(0x2e);
            let tail = copy_digits(c, 1, c.len());
            proof {
                assert(tail@ =~= c@.skip(1));
                assert(all_digits(tail@));
            }
            push_ascii_digits(out, &tail);
        }
        out.push(0x65);
        push_i64_dec(out, k as i64);
        proof {
            assert(out@ =~= old(out)@ + fmt_digits(c@, k as int));
        }
    }
}

/// Powers of ten.
pub open spec fn pow10(d: nat) -> nat
    decreases d,
{
    if d == 0 {
        1
    } else {
        10 * pow10((d - 1) as nat)
    }
}

/// Digit strings from the expansion machinery hold digit values only.
proof fn lemma_raw_digits_bounds(n: nat)
    ensures
        all_digits(raw_digits(n)),
        1 <= raw_digits(n).len(),
    decreases n,
{
    if n >= 10 {
        lemma_raw_digits_bounds(n / 10);
    }
}

/// A number below `10^d` has at most `d` digits.
proof fn lemma_raw_digits_len(n: nat, d: nat)
    requires
        1 <= d,
        n < pow10(d),
    ensures
        raw_digits(n).len() <= d,
    decreases d,
{
    if n >= 10 {
        assert(n / 10 < pow10((d - 1) as nat));
        lemma_raw_digits_len(n / 10, (d - 1) as nat);
    }
}

proof fn lemma_dbl_rec_bounds(ds: Seq<u8>)
    requires
        all_digits(ds),
    ensures
        all_digits(dbl_rec(ds).0),
        dbl_rec(ds).0.len() == ds.len(),
        dbl_rec(ds).1 <= 1,
    decreases ds.len(),
{
    if ds.len() > 0 {
        lemma_dbl_rec_bounds(ds.drop_first());
    }
}

proof fn lemma_dbl_n_bounds(ds: Seq<u8>, k: nat)
    requires
        all_digits(ds),
        1 <= ds.len(),
    ensures
        all_digits(dbl_n(ds, k)),
        1 <= dbl_n(ds, k).len() <= ds.len() + k,
    decreases k,
{
    if k > 0 {
        lemma_dbl_n_bounds(ds, (k - 1) as nat);
        lemma_dbl_rec_bounds(dbl_n(ds, (k - 1) as nat));
    }
}

proof fn lemma_halve_rec_bounds(ds: Seq<u8>, c: u8)
    requires
        all_digits(ds),
        c <= 1,
    ensures
        all_digits(halve_rec(ds, c).0),
        halve_rec(ds, c).0.len() == ds.len(),
        halve_rec(ds, c).1 <= 1,
    decreases ds.len(),
{
    if ds.len() > 0 {
        lemma_halve_rec_bounds(ds.drop_first(), ((10 * c + ds[0]) % 2) as u8);
    }
}

proof fn lemma_halve_n_bounds(ip: Seq<u8>, fp: Seq<u8>, k: nat)
    requires
        all_digits(ip),
        all_digits(fp),
        1 <= ip.len(),
    ensures
        all_digits(halve_n(ip, fp, k).0),
        all_digits(halve_n(ip, fp, k).1),
        1 <= halve_n(ip, fp, k).0.len() <= ip.len(),
        halve_n(ip, fp, k).1.len() <= fp.len() + k,
    decreases k,
{
    if k > 0 {
        lemma_halve_n_bounds(ip, fp, (k - 1) as nat);
        let (i2, f2) = halve_n(ip, fp, (k - 1) as nat);
        lemma_halve_rec_bounds(i2, 0);
        lemma_halve_rec_bounds(f2, halve_rec(i2, 0).1);
    }
}

/// The expansion of a positive `m * 2^e` in the supported range has a
/// nonempty, digit-valued integer part and a bounded fraction.
proof fn lemma_decimal_of_bounds(m: nat, e: int)
    requires
        0 < m < 0x8000000,
        -151 <= e <= 104,
    ensures
        all_digits(decimal_of(m, e).0),
        all_digits(decimal_of(m, e).1),
        1 <= decimal_of(m, e).0.len() <= 150,
        decimal_of(m, e).1.len() <= 151,
{
    lemma_raw_digits_bounds(m);
    assert(pow10(9) == 1000000000) by {
        reveal_with_fuel(pow10, 10);
    }
    lemma_raw_digits_len(m, 9);
    if e >= 0 {
        lemma_dbl_n_bounds(raw_digits(m), e as nat);
    } else {
        lemma_halve_n_bounds(raw_digits(m), Seq::<u8>::empty(), (-e) as nat);
    }
}

/// Stripping keeps the length bounded and never grows it.
proof fn lemma_strip_trailing_bounds(c: Seq<u8>)
    ensures
        strip_trailing(c).len() <= c.len(),
    decreases c.len(),
{
    if c.len() > 1 && c.last() == 0 {
        lemma_strip_trailing_bounds(c.drop_last());
    }
}

/// The selected digits stay near the inputs in length and position.
proof fn lemma_shortest_bounds(
    digits: Seq<u8>,
    k: int,
    li: Seq<u8>,
    lf: Seq<u8>,
    hi: Seq<u8>,
    hf: Seq<u8>,
    inclusive: bool,
    p: int,
)
    ensures
        shortest_from(digits, k, li, lf, hi, hf, inclusive, p).0.len() <= digits.len() + 1,
        k <= shortest_from(digits, k, li, lf, hi, hf, inclusive, p).1 <= k + 1,
    decreases digits.len() - p,
{
    if 1 <= p < digits.len() {
        lemma_shortest_bounds(digits, k, li, lf, hi, hf, inclusive, p + 1);
        lemma_inc_len(digits.take(p));
    }
}

proof fn lemma_inc_len(c: Seq<u8>)
    ensures
        inc_digits(c).0.len() == c.len(),
    decreases c.len(),
{
    if c.len() > 0 && c.last() >= 9 {
        lemma_inc_len(c.drop_last());
    }
}

/// Appends the shortest decimal rendering of the finite nonzero `m * 2^e`.
#[verifier::rlimit(100)]
fn push_float_shortest(out: &mut Vec<u8>, m: u32, e: i32, lower_gap: u32, inclusive: bool)
    requires
        0 < m < 0x1000000,
        -149 <= e <= 104,
        1 <= lower_gap <= 2,
    ensures
        final(out)@ == old(out)@ + float_mag_dec(m as nat, e as int, lower_gap as int, inclusive),
{
    let (vi, vf) = decimal_raw(m, e);
    proof {
        lemma_decimal_of_bounds(m as nat, e as int);
    }
    let (digits, k) = significand_exec(&vi, &vf);
    let (li, lf) = decimal_raw(4 * m - lower_gap, e - 2);
    let (hi2, hf2) = decimal_raw(4 * m + 2, e - 2);
    proof {
        assert(digits@.len() <= 301);
    }
    let (sel, selk) = select_shortest(&digits, k, &li, &lf, &hi2, &hf2, inclusive);
    let fin = strip_trail_rec(&sel, sel.len());
    proof {
        assert(sel@.take(sel@.len() as int) =~= sel@);
        lemma_strip_trailing_bounds(sel@);
        lemma_shortest_bounds(digits@, k as int, li@, lf@, hi2@, hf2@, inclusive, 1);
    }
    if fin.len() == 0 {
        out.push(0x30);
        out.push(0x2e);
        out.push(0x30);
        proof {
            assert(out@ =~= old(out)@ + float_mag_dec(
                m as nat,
                e as int,
                lower_gap as int,
                inclusive,
            ));
        }
    } else {
        push_fmt_digits(out, &fin, selk);
        proof {
            assert(out@ =~= old(out)@ + float_mag_dec(
                m as nat,
                e as int,
                lower_gap as int,
                inclusive,
            ));
        }
    }
}

/// Appends the decimal rendering of a single-precision bit pattern:
/// `NaN`, signed infinity, signed zero, or the signed shortest decimal
/// that re-parses to the same bits.
pub fn push_f32_dec(out: &mut Vec<u8>, bits: u32)
    ensures
        final(out)@ == old(out)@ + f32_dec(bits),
{
    let sign = bits >> 31;
    let ex = (bits >> 23) & 0xff;
    let mant = bits & 0x7fffff;
    proof {
        assert(bits >> 31 <= 1) by (bit_vector);
        assert((bits >> 23) & 0xff <= 255) by (bit_vector);
        assert(bits & 0x7fffff <= 0x7fffff) by (bit_vector);
    }
    if ex == 255 {
        if mant != 0 {
            out.push(0x4e);
            out.push(0x61);
            out.push(0x4e);
        } else if sign == 1 {
            out.push(0x2d);
            out.push(0x69);
            out.push(0x6e);
            out.push(0x66);
        } else {
            out.push(0x69);
            out.push(0x6e);
            out.push(0x66);
        }
        proof {
            assert(out@ =~= old(out)@ + f32_dec(bits));
        }
    } else if ex == 0 && mant == 0 {
        if sign == 1 {
            out.push(0x2d);
        }
        out.push(0x30);
        out.push(0x2e);
        out.push(0x30);
        proof {
            assert(out@ =~= old(out)@ + f32_dec(bits));
        }
    } else {
        let m = if ex == 0 {
            mant
        } else {
            mant + 0x800000
        };
        let e = (if ex == 0 {
            1i32
        } else {
            ex as i32
        }) - 150;
        let lower_gap: u32 = if mant == 0 && ex > 1 {
            1
        } else {
            2
        };
        if sign == 1 {
            out.push(0x2d);
        }
        let ghost mid = out@;
        push_float_shortest(out, m, e, lower_gap, m % 2 == 0);
        proof {
            if sign == 1 {
                assert(old(out)@ + (seq![0x2du8] + float_mag_dec(
                    m as nat,
                    e as int,
                    lower_gap as int,
                    m % 2 == 0,
                )) =~= mid + float_mag_dec(m as nat, e as int, lower_gap as int, m % 2 == 0));
            }
            assert(out@ =~= old(out)@ + f32_dec(bits));
        }
    }
}


/// All bytes are ASCII.
pub open spec fn all_ascii(b: Seq<u8>) -> bool {
    forall|i: int| 0 <= i < b.len() ==> b[i] < 0x80
}

/// A byte string of ASCII bytes is valid UTF-8.
pub proof fn lemma_ascii_valid(b: Seq<u8>)
    requires
        all_ascii(b),
    ensures
        valid_utf8(b),
{
    assert(vstd::utf8::partial_valid_utf8(b, 0)) by {
        assert(b.subrange(0, 0) =~= Seq::<u8>::empty());
    }
    assert forall|i: int|
        0 <= 0 <= i < b.len() <= b.len() implies #[trigger] vstd::utf8::is_leading_byte_width_1(
        b[i],
    ) by {}
    vstd::utf8::partial_valid_utf8_extend_ascii_block(b, 0, b.len() as int);
    assert(b.subrange(0, b.len() as int) =~= b);
}

/// Decimal digit renderings are ASCII.
pub proof fn lemma_dec_digits_ascii(n: nat)
    ensures
        all_ascii(dec_digits(n)),
    decreases n,
{
    if n >= 10 {
        lemma_dec_digits_ascii(n / 10);
        assert forall|i: int| 0 <= i < dec_digits(n).len() implies dec_digits(n)[i] < 0x80 by {
            if i < dec_digits(n / 10).len() {
                assert(dec_digits(n)[i] == dec_digits(n / 10)[i]);
            }
        }
    }
}

/// Signed decimal renderings are ASCII.
pub proof fn lemma_dec_int_ascii(v: int)
    ensures
        all_ascii(dec_int(v)),
{
    if v < 0 {
        lemma_dec_digits_ascii((-v) as nat);
        assert forall|i: int| 0 <= i < dec_int(v).len() implies dec_int(v)[i] < 0x80 by {
            if i > 0 {
                assert(dec_int(v)[i] == dec_digits((-v) as nat)[i - 1]);
            }
        }
    } else {
        lemma_dec_digits_ascii(v as nat);
    }
}

/// ASCII renderings of digit values are ASCII bytes.
proof fn lemma_ascii_digits_ascii(ds: Seq<u8>)
    requires
        all_digits(ds),
    ensures
        all_ascii(ascii_digits(ds)),
{
    assert forall|i: int|
        0 <= i < ascii_digits(ds).len() implies ascii_digits(ds)[i] < 0x80 by {
        assert(ascii_digits(ds)[i] == (0x30 + ds[i]) as u8);
    }
}

/// Incrementing digits keeps them digits.
proof fn lemma_inc_digits_all(c: Seq<u8>)
    requires
        all_digits(c),
    ensures
        all_digits(inc_digits(c).0),
    decreases c.len(),
{
    if c.len() > 0 {
        if c.last() < 9 {
            assert forall|i: int|
                0 <= i < inc_digits(c).0.len() implies inc_digits(c).0[i] < 10 by {
                if i < c.len() - 1 {
                    assert(inc_digits(c).0[i] == c[i]);
                }
            }
        } else {
            assert(all_digits(c.drop_last())) by {
                assert(forall|i: int| 0 <= i < c.len() - 1 ==> c.drop_last()[i] == c[i]);
            }
            lemma_inc_digits_all(c.drop_last());
        }
    }
}

/// The selected shortest digits are digit values.
proof fn lemma_shortest_all(
    digits: Seq<u8>,
    k: int,
    li: Seq<u8>,
    lf: Seq<u8>,
    hi: Seq<u8>,
    hf: Seq<u8>,
    inclusive: bool,
    p: int,
)
    requires
        all_digits(digits),
    ensures
        all_digits(shortest_from(digits, k, li, lf, hi, hf, inclusive, p).0),
    decreases digits.len() - p,
{
    if 1 <= p < digits.len() {
        lemma_shortest_all(digits, k, li, lf, hi, hf, inclusive, p + 1);
        let down = digits.take(p);
        assert(all_digits(down));
        lemma_inc_digits_all(down);
        let (u, carry) = inc_digits(down);
        if carry {
            assert(all_digits(seq![1u8] + u)) by {
                assert(forall|i: int| 0 <= i < u.len() ==> (seq![1u8] + u)[i + 1] == u[i]);
                assert(forall|i: int|
                    1 <= i < (seq![1u8] + u).len() ==> (seq![1u8] + u)[i] == u[i - 1]);
            }
        }
    }
}

/// Stripping trailing zeros keeps digit values.
proof fn lemma_strip_trailing_all(c: Seq<u8>)
    requires
        all_digits(c),
    ensures
        all_digits(strip_trailing(c)),
    decreases c.len(),
{
    if c.len() > 1 && c.last() == 0 {
        assert(all_digits(c.drop_last())) by {
            assert(forall|i: int| 0 <= i < c.len() - 1 ==> c.drop_last()[i] == c[i]);
        }
        lemma_strip_trailing_all(c.drop_last());
    }
}

/// Positional splitting keeps digit values on both sides.
proof fn lemma_positional_all(c: Seq<u8>, k: int)
    requires
        all_digits(c),
    ensures
        all_digits(positional(c, k).0),
        all_digits(positional(c, k).1),
{
    if k >= c.len() - 1 {
        assert forall|i: int|
            0 <= i < positional(c, k).0.len() implies positional(c, k).0[i] < 10 by {
            if i < c.len() {
                assert(positional(c, k).0[i] == c[i]);
            } else {
                assert(positional(c, k).0[i] == zeros(k + 1 - c.len())[i - c.len()]);
            }
        }
    } else if k >= 0 {
    } else {
        assert forall|i: int|
            0 <= i < positional(c, k).1.len() implies positional(c, k).1[i] < 10 by {
            if i < -k - 1 {
                assert(positional(c, k).1[i] == zeros(-k - 1)[i]);
            } else {
                assert(positional(c, k).1[i] == c[i - (-k - 1)]);
            }
        }
    }
}

/// The rendered digits are ASCII bytes.
proof fn lemma_fmt_digits_ascii(c: Seq<u8>, k: int)
    requires
        all_digits(c),
    ensures
        all_ascii(fmt_digits(c, k)),
{
    if c.len() == 0 {
    } else if -4 <= k <= 15 {
        lemma_positional_all(c, k);
        let (ip, fp) = positional(c, k);
        lemma_ascii_digits_ascii(ip);
        lemma_ascii_digits_ascii(fp);
        assert forall|i: int|
            0 <= i < fmt_digits(c, k).len() implies fmt_digits(c, k)[i] < 0x80 by {
            let a = ascii_digits(ip);
            if i < a.len() {
                assert(fmt_digits(c, k)[i] == a[i]);
            } else if i == a.len() {
                assert(fmt_digits(c, k)[i] == 0x2eu8);
            } else {
                if fp.len() == 0 {
                    assert(fmt_digits(c, k)[i] == 0x30u8);
                } else {
                    assert(fmt_digits(c, k)[i] == ascii_digits(fp)[i - a.len() - 1]);
                }
            }
        }
    } else {
        assert(all_digits(c.take(1))) by {
            assert(c.take(1)[0] == c[0]);
        }
        assert(all_digits(c.skip(1))) by {
            assert(forall|i: int| 0 <= i < c.len() - 1 ==> c.skip(1)[i] == c[i + 1]);
        }
        lemma_ascii_digits_ascii(c.take(1));
        lemma_ascii_digits_ascii(c.skip(1));
        lemma_dec_int_ascii(k);
        let head = ascii_digits(c.take(1));
        let mid = if c.len() > 1 {
            seq![0x2eu8] + ascii_digits(c.skip(1))
        } else {
            Seq::<u8>::empty()
        };
        assert forall|i: int|
            0 <= i < fmt_digits(c, k).len() implies fmt_digits(c, k)[i] < 0x80 by {
            if i < head.len() {
                assert(fmt_digits(c, k)[i] == head[i]);
            } else if i < head.len() + mid.len() {
                assert(fmt_digits(c, k)[i] == mid[i - head.len()]);
                if c.len() > 1 && i > head.len() {
                    assert(mid[i - head.len()] == ascii_digits(c.skip(1))[i - head.len() - 1]);
                }
            } else if i == head.len() + mid.len() {
                assert(fmt_digits(c, k)[i] == 0x65u8);
            } else {
                assert(fmt_digits(c, k)[i] == dec_int(k)[i - head.len() - mid.len() - 1]);
            }
        }
    }
}

/// Leading-zero counts stay within the string.
proof fn lemma_lead_zeros_bounds(fp: Seq<u8>)
    ensures
        0 <= lead_zeros(fp) <= fp.len(),
    decreases fp.len(),
{
    if fp.len() > 0 && fp[0] == 0 {
        lemma_lead_zeros_bounds(fp.subrange(1, fp.len() as int));
    }
}

/// The float rendering is ASCII, hence valid UTF-8.
pub proof fn lemma_f32_dec_valid(bits: u32)
    ensures
        all_ascii(f32_dec(bits)),
        valid_utf8(f32_dec(bits)),
{
    let sign = bits >> 31;
    let ex = (bits >> 23) & 0xff;
    let mant = (bits & 0x7fffff) as nat;
    if ex == 255 {
    } else if ex == 0 && mant == 0 {
    } else {
        let m = if ex == 0 {
            mant
        } else {
            mant + 0x800000
        };
        let e = (if ex == 0 {
            1int
        } else {
            ex as int
        }) - 150;
        let lower_gap: int = if mant == 0 && ex > 1 {
            1
        } else {
            2
        };
        let inclusive = m % 2 == 0;
        assert((bits >> 23) & 0xff <= 255) by (bit_vector);
        assert((bits & 0x7fffff) < 0x800000) by (bit_vector);
        lemma_decimal_of_bounds(m, e);
        let (vi, vf) = decimal_of(m, e);
        let (digits, k) = significand(vi, vf);
        assert(all_digits(digits)) by {
            if vi.len() == 1 && vi[0] == 0 {
                lemma_lead_zeros_bounds(vf);
                assert(forall|i: int|
                    0 <= i < digits.len() ==> digits[i] == vf[i + lead_zeros(vf)]);
            } else {
                assert(forall|i: int|
                    0 <= i < digits.len() ==> digits[i] == (vi + vf)[i]);
                assert(forall|i: int|
                    0 <= i < vi.len() + vf.len() ==> (vi + vf)[i] == if i < vi.len() {
                        vi[i]
                    } else {
                        vf[i - vi.len()]
                    });
            }
        }
        let (li, lf) = decimal_of((4 * m - lower_gap) as nat, e - 2);
        let (hi2, hf2) = decimal_of((4 * m + 2) as nat, e - 2);
        lemma_shortest_all(digits, k, li, lf, hi2, hf2, inclusive, 1);
        let (sel, selk) = shortest_from(digits, k, li, lf, hi2, hf2, inclusive, 1);
        lemma_strip_trailing_all(sel);
        lemma_fmt_digits_ascii(strip_trailing(sel), selk);
        let mag = float_mag_dec(m, e, lower_gap, inclusive);
        if sign == 1 {
            assert(all_ascii(f32_dec(bits))) by {
                assert(forall|i: int|
                    1 <= i < (seq![0x2du8] + mag).len() ==> (seq![0x2du8] + mag)[i] == mag[i
                        - 1]);
            }
        }
    }
    lemma_ascii_valid(f32_dec(bits));
}

} // verus!
