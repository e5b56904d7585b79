//! The domain codec: pure functions between domain values and the byte
//! encodings used for store keys and property values.
//!
//! Numbers are encoded as decimal text, amounts as decimal text with up to
//! six fractional digits, and ordered id sequences as colon-delimited
//! decimal ids.

use vstd::prelude::*;

use crate::amount::Amount;

verus! {

pub open spec fn is_digit(b: u8) -> bool {
    48 <= b <= 57
}

pub open spec fn all_digits(s: Seq<u8>) -> bool {
    forall|i: int| 0 <= i < s.len() ==> is_digit(#[trigger] s[i])
}

/// The decimal encoding of a number: most significant digit first, no
/// leading zeros (a lone `0` for zero).
pub open spec fn spec_dec(n: nat) -> Seq<u8>
    decreases n,
{
    if n < 10 {
        seq![(48 + n) as u8]
    } else {
        spec_dec(n / 10).push((48 + n % 10) as u8)
    }
}

/// The number a sequence of decimal digits stands for.
pub open spec fn dec_val(s: Seq<u8>) -> int
    decreases s.len(),
{
    if s.len() == 0 {
        0
    } else {
        dec_val(s.drop_last()) * 10 + (s.last() - 48)
    }
}

pub proof fn lemma_dec_val_nonneg(s: Seq<u8>)
    requires
        all_digits(s),
    ensures
        dec_val(s) >= 0,
    decreases s.len(),
{
    if s.len() > 0 {
        assert(all_digits(s.drop_last())) by {
            assert(forall|i: int|
                0 <= i < s.len() - 1 ==> is_digit(#[trigger] s.drop_last()[i]) == is_digit(s[i]));
        }
        lemma_dec_val_nonneg(s.drop_last());
    }
}

/// Decoding inverts encoding.
pub proof fn lemma_dec_round_trip(n: nat)
    ensures
        all_digits(spec_dec(n)),
        spec_dec(n).len() >= 1,
        dec_val(spec_dec(n)) == n,
    decreases n,
{
    if n < 10 {
        let s = spec_dec(n);
        assert(s =~= seq![(48 + n) as u8]);
        assert((48 + n) as u8 == 48 + n);
        assert(s.drop_last() =~= Seq::<u8>::empty());
        assert(dec_val(s) == dec_val(s.drop_last()) * 10 + (s.last() - 48));
    } else {
        lemma_dec_round_trip(n / 10);
        let s = spec_dec(n);
        assert(s.drop_last() =~= spec_dec(n / 10));
        assert(s.last() == (48 + n % 10) as u8);
        assert((48 + n % 10) as u8 == 48 + n % 10);
    }
}

/// Appends the decimal encoding of `n` to `out`.
pub fn push_dec(n: u64, out: &mut Vec<u8>)
    ensures
        final(out)@ == old(out)@ + spec_dec(n as nat),
    decreases n,
{
    if n < 10 {
        out.push(48 + n as u8);
        assert(final(out)@ =~= old(out)@ + spec_dec(n as nat));
    } else {
        push_dec(n / 10, out);
        out.push(48 + (n % 10) as u8);
        assert(final(out)@ =~= old(out)@ + spec_dec(n as nat));
    }
}

/// The decimal encoding of an id, used both as an object key and as a
/// property value.
pub fn encode_u64(n: u64) -> (r: Vec<u8>)
    ensures
        r@ == spec_dec(n as nat),
{
    let mut out: Vec<u8> = Vec::new();
    push_dec(n, &mut out);
    assert(out@ =~= spec_dec(n as nat));
    out
}

pub proof fn lemma_dec_val_prefix_grows(s: Seq<u8>, i: int)
    requires
        all_digits(s),
        0 <= i <= s.len(),
    ensures
        dec_val(s) >= dec_val(s.take(i)),
    decreases s.len() - i,
{
    if i < s.len() {
        lemma_dec_val_prefix_grows(s, i + 1);
        let t = s.take(i + 1);
        assert(t.drop_last() =~= s.take(i));
        assert(all_digits(t.drop_last()));
        lemma_dec_val_nonneg(t.drop_last());
        assert(dec_val(t) == dec_val(s.take(i)) * 10 + (t.last() - 48));
        assert(t.last() == s[i]);
    } else {
        assert(s.take(i) =~= s);
    }
}

/// Reads a decimal number. Returns the value exactly when the bytes are one
/// or more decimal digits whose value fits in a `u64`.
pub fn parse_u64(s: &[u8]) -> (r: Option<u64>)
    ensures
        match r {
            Some(n) => s@.len() > 0 && all_digits(s@) && dec_val(s@) == n,
            None => !(s@.len() > 0 && all_digits(s@) && dec_val(s@) <= u64::MAX),
        },
{
    if s.len() == 0 {
        return None;
    }
    let mut acc: u64 = 0;
    let mut i: usize = 0;
    while i < s.len()
        invariant
            0 <= i <= s@.len(),
            all_digits(s@.take(i as int)),
            acc == dec_val(s@.take(i as int)),
        decreases s@.len() - i,
    {
        let b = s[i];
        if b < 48 || b > 57 {
            assert(!is_digit(s@[i as int]));
            return None;
        }
        let d = (b - 48) as u64;
        proof {
            lemma_dec_val_nonneg(s@.take(i as int));
        }
        if acc > (u64::MAX - d) / 10 {
            proof {
                let t = s@.take(i as int + 1);
                assert(t.drop_last() =~= s@.take(i as int));
                assert(t.last() == s@[i as int]);
                assert(dec_val(t) == acc * 10 + d);
                if all_digits(s@) {
                    lemma_dec_val_prefix_grows(s@, i as int + 1);
                }
            }
            return None;
        }
        acc = acc * 10 + d;
        proof {
            let t = s@.take(i as int + 1);
            assert(t.drop_last() =~= s@.take(i as int));
            assert(t.last() == s@[i as int]);
            assert(all_digits(t));
        }
        i = i + 1;
    }
    proof {
        assert(s@.take(i as int) =~= s@);
    }
    Some(acc)
}

/// The colon-delimited encoding of an ordered id sequence.
pub open spec fn spec_members_enc(ids: Seq<u64>) -> Seq<u8>
    decreases ids.len(),
{
    if ids.len() == 0 {
        Seq::empty()
    } else if ids.len() == 1 {
        spec_dec(ids[0] as nat)
    } else {
        spec_dec(ids[0] as nat).push(58) + spec_members_enc(ids.skip(1))
    }
}

/// Appending one id appends a colon and its digits.
pub proof fn lemma_members_enc_snoc(ids: Seq<u64>, x: u64)
    requires
        ids.len() > 0,
    ensures
        spec_members_enc(ids.push(x)) == spec_members_enc(ids).push(58) + spec_dec(x as nat),
    decreases ids.len(),
{
    let w = ids.push(x);
    assert(w[0] == ids[0]);
    if ids.len() == 1 {
        assert(w.skip(1) =~= seq![x]);
        assert(spec_members_enc(w.skip(1)) == spec_dec(x as nat));
        assert(spec_members_enc(w) =~= spec_members_enc(ids).push(58) + spec_dec(x as nat));
    } else {
        lemma_members_enc_snoc(ids.skip(1), x);
        assert(w.skip(1) =~= ids.skip(1).push(x));
        assert(spec_members_enc(w) == spec_dec(w[0] as nat).push(58) + spec_members_enc(w.skip(1)));
        assert(spec_members_enc(w) =~= spec_members_enc(ids).push(58) + spec_dec(x as nat));
    }
}

/// Writes an ordered id list as colon-delimited decimal ids.
pub fn encode_member_ids(ids: &Vec<u64>) -> (r: Vec<u8>)
    ensures
        r@ == spec_members_enc(ids@),
{
    let mut out: Vec<u8> = Vec::new();
    let mut i: usize = 0;
    while i < ids.len()
        invariant
            0 <= i <= ids@.len(),
            out@ == spec_members_enc(ids@.take(i as int)),
        decreases ids@.len() - i,
    {
        if i > 0 {
            out.push(58);
        }
        push_dec(ids[i], &mut out);
        proof {
            let t = ids@.take(i as int + 1);
            assert(t =~= ids@.take(i as int).push(ids@[i as int]));
            if i == 0 {
                assert(t =~= seq![ids@[0]]);
                assert(out@ =~= spec_members_enc(t));
            } else {
                lemma_members_enc_snoc(ids@.take(i as int), ids@[i as int]);
                assert(out@ =~= spec_members_enc(t));
            }
        }
        i = i + 1;
    }
    proof {
        assert(ids@.take(i as int) =~= ids@);
    }
    out
}

/// The index of the first occurrence of the byte `b`, or the length when
/// there is none.
pub open spec fn find_byte(s: Seq<u8>, b: u8) -> nat
    decreases s.len(),
{
    if s.len() == 0 {
        0
    } else if s[0] == b {
        0
    } else {
        1 + find_byte(s.skip(1), b)
    }
}

pub proof fn lemma_find_byte_char(s: Seq<u8>, b: u8, j: int)
    requires
        0 <= j <= s.len(),
        forall|k: int| 0 <= k < j ==> s[k] != b,
        j == s.len() || s[j] == b,
    ensures
        find_byte(s, b) == j,
    decreases j,
{
    if j == 0 {
        if s.len() > 0 {
            assert(s[0] == b);
        }
    } else {
        assert(s[0] != b);
        let t = s.skip(1);
        assert(forall|k: int| 0 <= k < j - 1 ==> #[trigger] t[k] == s[k + 1]);
        lemma_find_byte_char(t, b, j - 1);
    }
}

/// Whether a byte run is a decimal `u64`.
pub open spec fn valid_run(s: Seq<u8>) -> bool {
    s.len() > 0 && all_digits(s) && dec_val(s) <= u64::MAX
}

/// What a colon-delimited id list means: each colon-separated run must be a
/// decimal `u64`, and there must be at least one run.
pub open spec fn spec_parse_members(s: Seq<u8>) -> Option<Seq<u64>>
    decreases s.len(),
{
    let j = find_byte(s, 58);
    if j as int >= s.len() {
        if valid_run(s) {
            Some(seq![dec_val(s) as u64])
        } else {
            None
        }
    } else {
        let run = s.take(j as int);
        if valid_run(run) {
            match spec_parse_members(s.skip(j as int + 1)) {
                Some(rest) => Some(seq![dec_val(run) as u64] + rest),
                None => None,
            }
        } else {
            None
        }
    }
}

/// Reads a colon-delimited id list; returns the ids exactly when every
/// colon-separated run is a decimal `u64`.
pub fn parse_member_ids(s: &[u8]) -> (r: Option<Vec<u64>>)
    ensures
        match r {
            Some(ids) => spec_parse_members(s@) == Some(ids@),
            None => spec_parse_members(s@) is None,
        },
    decreases s@.len(),
{
    let mut j: usize = 0;
    while j < s.len() && s[j] != 58
        invariant
            0 <= j <= s@.len(),
            forall|k: int| 0 <= k < j ==> s@[k] != 58,
        decreases s@.len() - j,
    {
        j = j + 1;
    }
    proof {
        lemma_find_byte_char(s@, 58, j as int);
    }
    let run = vstd::slice::slice_subrange(s, 0, j);
    let n = match parse_u64(run) {
        Some(n) => n,
        None => {
            proof {
                if j == s.len() {
                    assert(run@ =~= s@);
                }
            }
            return None;
        },
    };
    proof {
        lemma_dec_val_nonneg(run@);
    }
    if j == s.len() {
        let mut ids: Vec<u64> = Vec::new();
        ids.push(n);
        proof {
            assert(run@ =~= s@);
            assert(ids@ =~= seq![dec_val(s@) as u64]);
        }
        Some(ids)
    } else {
        let tail = vstd::slice::slice_subrange(s, j + 1, s.len());
        match parse_member_ids(tail) {
            None => None,
            Some(mut ids) => {
                ids.insert(0, n);
                proof {
                    assert(ids@ =~= seq![dec_val(s@.take(j as int)) as u64] + ids@.skip(1));
                }
                Some(ids)
            },
        }
    }
}

/// Parsing inverts the colon-delimited encoding.
pub proof fn lemma_members_round_trip(v: Seq<u64>)
    requires
        v.len() > 0,
    ensures
        spec_parse_members(spec_members_enc(v)) == Some(v),
    decreases v.len(),
{
    let s = spec_members_enc(v);
    lemma_dec_round_trip(v[0] as nat);
    let d = spec_dec(v[0] as nat);
    if v.len() == 1 {
        assert(s == d);
        assert(forall|k: int| 0 <= k < s.len() ==> s[k] != 58) by {
            assert(forall|k: int| 0 <= k < s.len() ==> is_digit(#[trigger] s[k]));
        }
        lemma_find_byte_char(s, 58, s.len() as int);
        assert(valid_run(s));
        assert(seq![dec_val(s) as u64] =~= v);
    } else {
        assert(s == d.push(58) + spec_members_enc(v.skip(1)));
        assert(forall|k: int| 0 <= k < d.len() ==> s[k] == d[k]);
        assert(forall|k: int| 0 <= k < d.len() ==> s[k] != 58) by {
            assert(forall|k: int| 0 <= k < d.len() ==> is_digit(#[trigger] d[k]));
        }
        assert(s[d.len() as int] == 58);
        lemma_find_byte_char(s, 58, d.len() as int);
        let j = find_byte(s, 58);
        assert((j as int) < s.len());
        assert(s.take(j as int) =~= d);
        assert(valid_run(d));
        assert(s.skip(j as int + 1) =~= spec_members_enc(v.skip(1)));
        lemma_members_round_trip(v.skip(1));
        assert(seq![dec_val(d) as u64] + v.skip(1) =~= v);
    }
}

/// The six decimal digits of a number below one million, most significant
/// first.
pub open spec fn pad6(r: int) -> Seq<u8> {
    seq![
        (48 + (r / 100000) % 10) as u8,
        (48 + (r / 10000) % 10) as u8,
        (48 + (r / 1000) % 10) as u8,
        (48 + (r / 100) % 10) as u8,
        (48 + (r / 10) % 10) as u8,
        (48 + r % 10) as u8,
    ]
}

/// Drops trailing `0` digits.
pub open spec fn strip_zeros(s: Seq<u8>) -> Seq<u8>
    decreases s.len(),
{
    if s.len() > 0 && s.last() == 48 {
        strip_zeros(s.drop_last())
    } else {
        s
    }
}

/// The decimal encoding of a non-negative amount of micro-units: whole
/// units, then a point and the fractional digits if there are any.
pub open spec fn spec_amount_abs_enc(m: int) -> Seq<u8> {
    if m % 1000000 == 0 {
        spec_dec((m / 1000000) as nat)
    } else {
        spec_dec((m / 1000000) as nat).push(46) + strip_zeros(pad6(m % 1000000))
    }
}

/// The decimal encoding of an amount of micro-units, with a leading minus
/// sign when negative.
pub open spec fn spec_amount_enc(m: int) -> Seq<u8> {
    if m < 0 {
        seq![45u8] + spec_amount_abs_enc(-m)
    } else {
        spec_amount_abs_enc(m)
    }
}

/// Writes an amount as decimal text, fractional digits only as needed.
pub fn encode_amount(a: Amount) -> (r: Vec<u8>)
    ensures
        r@ == spec_amount_enc(a.micros as int),
{
    let m = a.micros;
    let mut out: Vec<u8> = Vec::new();
    let abs: u64 = if m < 0 {
        out.push(45);
        (-(m as i128)) as u64
    } else {
        m as u64
    };
    proof {
        assert(abs == if m < 0 { -(m as int) } else { m as int });
    }
    let q: u64 = abs / 1000000;
    let r: u64 = abs % 1000000;
    push_dec(q, &mut out);
    if r != 0 {
        out.push(46);
        let mut frac: Vec<u8> = Vec::new();
        frac.push(48 + ((r / 100000) % 10) as u8);
        frac.push(48 + ((r / 10000) % 10) as u8);
        frac.push(48 + ((r / 1000) % 10) as u8);
        frac.push(48 + ((r / 100) % 10) as u8);
        frac.push(48 + ((r / 10) % 10) as u8);
        frac.push(48 + (r % 10) as u8);
        proof {
            assert(frac@ =~= pad6(r as int));
        }
        while frac.len() > 0 && frac[frac.len() - 1] == 48
            invariant
                strip_zeros(frac@) == strip_zeros(pad6(r as int)),
            decreases frac@.len(),
        {
            frac.pop();
        }
        proof {
            assert(strip_zeros(frac@) == frac@);
        }
        out.append(&mut frac);
    }
    proof {
        let ma = if (m as int) < 0 { -(m as int) } else { m as int };
        assert(ma % 1000000 == r as int && ma / 1000000 == q as int);
        if m < 0 {
            assert(out@ =~= seq![45u8] + spec_amount_abs_enc(ma));
        } else {
            assert(out@ =~= spec_amount_abs_enc(ma));
        }
    }
    out
}

pub open spec fn pow10(e: nat) -> int
    decreases e,
{
    if e == 0 {
        1
    } else {
        10 * pow10((e - 1) as nat)
    }
}

/// A run of `n` decimal digits stands for a number below `10^n`.
pub proof fn lemma_dec_val_upper(s: Seq<u8>)
    requires
        all_digits(s),
    ensures
        dec_val(s) < pow10(s.len()),
    decreases s.len(),
{
    if s.len() > 0 {
        assert(all_digits(s.drop_last())) by {
            assert(forall|i: int|
                0 <= i < s.len() - 1 ==> is_digit(#[trigger] s.drop_last()[i]) == is_digit(s[i]));
        }
        lemma_dec_val_upper(s.drop_last());
        assert(dec_val(s.drop_last()) * 10 <= (pow10((s.len() - 1) as nat) - 1)
            * 10) by (nonlinear_arith)
            requires
                dec_val(s.drop_last()) <= pow10((s.len() - 1) as nat) - 1,
        ;
    }
}

/// What a decimal amount text means, ignoring any sign: whole units, and
/// optionally a point followed by one to six fractional digits. The value
/// is in micro-units.
pub open spec fn spec_parse_abs_amount(s: Seq<u8>) -> Option<int> {
    let j = find_byte(s, 46);
    if j as int >= s.len() {
        if s.len() > 0 && all_digits(s) {
            Some(dec_val(s) * 1000000)
        } else {
            None
        }
    } else {
        let ip = s.take(j as int);
        let fp = s.skip(j as int + 1);
        if ip.len() > 0 && all_digits(ip) && 1 <= fp.len() <= 6 && all_digits(fp) {
            Some(dec_val(ip) * 1000000 + dec_val(fp) * pow10((6 - fp.len()) as nat))
        } else {
            None
        }
    }
}

/// What a decimal amount text means: an optional leading minus sign, then
/// the absolute amount; defined only when the value fits a 64-bit count of
/// micro-units.
pub open spec fn spec_parse_amount(s: Seq<u8>) -> Option<int> {
    if s.len() > 0 && s[0] == 45 {
        match spec_parse_abs_amount(s.skip(1)) {
            Some(v) => if -v >= i64::MIN {
                Some(-v)
            } else {
                None
            },
            None => None,
        }
    } else {
        match spec_parse_abs_amount(s) {
            Some(v) => if v <= i64::MAX {
                Some(v)
            } else {
                None
            },
            None => None,
        }
    }
}

fn pow10_u64(e: usize) -> (r: u64)
    requires
        e <= 6,
    ensures
        r as int == pow10(e as nat),
        r >= 1,
{
    proof {
        lemma_pow10_small();
    }
    match e {
        0 => 1,
        1 => 10,
        2 => 100,
        3 => 1000,
        4 => 10000,
        5 => 100000,
        _ => 1000000,
    }
}

/// Reads a decimal amount. Returns the value exactly when the bytes are an
/// optional minus sign, decimal digits, and optionally a point with one to
/// six fractional digits, with the value in range for an `Amount`.
pub fn parse_amount(s: &[u8]) -> (r: Option<Amount>)
    ensures
        match r {
            Some(a) => spec_parse_amount(s@) == Some(a.micros as int),
            None => spec_parse_amount(s@) is None,
        },
{
    let neg = s.len() > 0 && s[0] == 45;
    let body = if neg {
        vstd::slice::slice_subrange(s, 1, s.len())
    } else {
        vstd::slice::slice_subrange(s, 0, s.len())
    };
    proof {
        if !neg {
            assert(body@ =~= s@);
        }
    }
    let mut j: usize = 0;
    while j < body.len() && body[j] != 46
        invariant
            0 <= j <= body@.len(),
            forall|k: int| 0 <= k < j ==> body@[k] != 46,
        decreases body@.len() - j,
    {
        j = j + 1;
    }
    proof {
        lemma_find_byte_char(body@, 46, j as int);
    }
    let ip = vstd::slice::slice_subrange(body, 0, j);
    let q = match parse_u64(ip) {
        Some(q) => q,
        None => {
            proof {
                let ip_s = body@.take(j as int);
                if j == body.len() {
                    assert(ip_s =~= body@);
                }
                if ip_s.len() > 0 && all_digits(ip_s) {
                    lemma_dec_val_nonneg(ip_s);
                    lemma_abs_too_large(body@, j as int, dec_val(ip_s));
                }
                if neg {
                    assert(s@.skip(1) =~= body@);
                }
            }
            return None;
        },
    };
    proof {
        lemma_dec_val_nonneg(ip@);
        if j == body.len() {
            assert(ip@ =~= body@);
        }
    }
    if q > 9_223_372_036_854 {
        proof {
            lemma_abs_too_large(body@, j as int, q as int);
            if neg {
                assert(s@.skip(1) =~= body@);
            }
        }
        return None;
    }
    let mut total: u64 = q * 1_000_000;
    if j < body.len() {
        let fp = vstd::slice::slice_subrange(body, j + 1, body.len());
        if fp.len() == 0 || fp.len() > 6 {
            proof {
                if neg {
                    assert(s@.skip(1) =~= body@);
                }
            }
            return None;
        }
        let f = match parse_u64(fp) {
            Some(f) => f,
            None => {
                proof {
                    lemma_dec_val_upper_checked(fp@);
                    if neg {
                        assert(s@.skip(1) =~= body@);
                    }
                }
                return None;
            },
        };
        proof {
            lemma_dec_val_nonneg(fp@);
            lemma_dec_val_upper(fp@);
            lemma_pow10_frac_bound(fp@.len() as nat);
        }
        let mult = pow10_u64(6 - fp.len());
        proof {
            assert((f as int) * (mult as int) == dec_val(fp@) * pow10((6 - fp@.len()) as nat));
            assert((f as int) * (mult as int) < 1000000) by (nonlinear_arith)
                requires
                    0 <= f as int,
                    1 <= mult as int,
                    (f as int) * (mult as int) == dec_val(fp@) * pow10((6 - fp@.len()) as nat),
                    dec_val(fp@) < pow10(fp@.len() as nat),
                    pow10(fp@.len() as nat) * pow10((6 - fp@.len()) as nat) == 1000000,
                    0 <= dec_val(fp@),
                    0 < pow10((6 - fp@.len()) as nat),
            ;
        }
        total = total + f * mult;
    }
    if neg {
        proof {
            assert(s@.skip(1) =~= body@);
        }
        if total > 9_223_372_036_854_775_808 {
            return None;
        }
        Some(Amount { micros: (-(total as i128)) as i64 })
    } else {
        if total > 9_223_372_036_854_775_807 {
            return None;
        }
        Some(Amount { micros: total as i64 })
    }
}

/// An integer part larger than the greatest whole amount puts the value
/// out of `i64` range in micro-units.
proof fn lemma_abs_too_large(body: Seq<u8>, j: int, q: int)
    requires
        j == find_byte(body, 46),
        0 <= j <= body.len(),
        all_digits(body.take(j)),
        body.take(j).len() > 0,
        q == dec_val(body.take(j)),
        q > 9223372036854,
    ensures
        spec_parse_abs_amount(body) matches Some(v) ==> v > 9223372036854775808,
{
    if j == body.len() {
        assert(body.take(j) =~= body);
        assert(q * 1000000 > 9223372036854 * 1000000) by (nonlinear_arith)
            requires
                q > 9223372036854,
        ;
    } else {
        let fp = body.skip(j + 1);
        if fp.len() > 0 && all_digits(fp) {
            lemma_dec_val_nonneg(fp);
            assert(pow10((6 - fp.len()) as nat) > 0) by {
                lemma_pow10_pos((6 - fp.len()) as nat);
            }
            assert(q * 1000000 > 9223372036854 * 1000000) by (nonlinear_arith)
                requires
                    q > 9223372036854,
            ;
            assert(dec_val(fp) * pow10((6 - fp.len()) as nat) >= 0) by (nonlinear_arith)
                requires
                    dec_val(fp) >= 0,
                    pow10((6 - fp.len()) as nat) > 0,
            ;
        }
    }
}

proof fn lemma_pow10_pos(e: nat)
    ensures
        pow10(e) > 0,
    decreases e,
{
    if e > 0 {
        lemma_pow10_pos((e - 1) as nat);
    }
}

/// Splitting six digit places between a fraction and its padding.
proof fn lemma_pow10_frac_bound(n: nat)
    requires
        1 <= n <= 6,
    ensures
        pow10(n) * pow10((6 - n) as nat) == 1000000,
        pow10((6 - n) as nat) > 0,
        pow10((6 - n) as nat) <= 100000,
{
    lemma_pow10_pos((6 - n) as nat);
    lemma_pow10_small();
}

/// A fractional run of one to six bytes that `parse_u64` refuses is not a
/// digit run at all.
proof fn lemma_dec_val_upper_checked(fp: Seq<u8>)
    requires
        1 <= fp.len() <= 6,
    ensures
        all_digits(fp) ==> dec_val(fp) <= u64::MAX,
{
    if all_digits(fp) {
        lemma_dec_val_upper(fp);
        lemma_dec_val_nonneg(fp);
        lemma_pow10_small();
    }
}

proof fn lemma_pow10_small()
    ensures
        pow10(0) == 1,
        pow10(1) == 10,
        pow10(2) == 100,
        pow10(3) == 1000,
        pow10(4) == 10000,
        pow10(5) == 100000,
        pow10(6) == 1000000,
{
    assert(pow10(0) == 1);
    assert(pow10(1) == 10);
    assert(pow10(2) == 100);
    assert(pow10(3) == 1000);
    assert(pow10(4) == 10000);
    assert(pow10(5) == 100000);
    assert(pow10(6) == 1000000);
}

/// The six padded digit places of a number below one million decode back
/// to it.
proof fn lemma_pad6_val(r: int)
    requires
        0 <= r < 1000000,
    ensures
        all_digits(pad6(r)),
        pad6(r).len() == 6,
        dec_val(pad6(r)) == r,
{
    let s = pad6(r);
    assert(forall|i: int| 0 <= i < 6 ==> is_digit(#[trigger] s[i]));
    vstd::arithmetic::div_mod::lemma_fundamental_div_mod(r, 10);
    vstd::arithmetic::div_mod::lemma_div_denominator(r, 10, 10);
    vstd::arithmetic::div_mod::lemma_fundamental_div_mod(r / 10, 10);
    vstd::arithmetic::div_mod::lemma_div_denominator(r, 100, 10);
    vstd::arithmetic::div_mod::lemma_fundamental_div_mod(r / 100, 10);
    vstd::arithmetic::div_mod::lemma_div_denominator(r, 1000, 10);
    vstd::arithmetic::div_mod::lemma_fundamental_div_mod(r / 1000, 10);
    vstd::arithmetic::div_mod::lemma_div_denominator(r, 10000, 10);
    vstd::arithmetic::div_mod::lemma_fundamental_div_mod(r / 10000, 10);
    vstd::arithmetic::div_mod::lemma_div_denominator(r, 100000, 10);
    vstd::arithmetic::div_mod::lemma_fundamental_div_mod(r / 100000, 10);
    assert(r / 100000 < 10) by (nonlinear_arith)
        requires
            0 <= r < 1000000,
    ;
    assert((r / 100000) % 10 == r / 100000) by {
        vstd::arithmetic::div_mod::lemma_small_mod((r / 100000) as nat, 10);
    }
    let d5 = (r / 100000) % 10;
    assert(0 <= d5 < 10);
    assert(((48 + d5) as u8) == 48 + d5);
    assert(s[0] == (48 + d5) as u8);
    assert(s.take(1).drop_last() =~= Seq::<u8>::empty());
    assert(s.take(1).last() == s[0]);
    assert(dec_val(Seq::<u8>::empty()) == 0);
    assert(dec_val(s.take(1)) == dec_val(s.take(1).drop_last()) * 10 + (s.take(1).last() - 48));
    assert(dec_val(s.take(1)) == r / 100000);
    assert(s.take(2).drop_last() =~= s.take(1));
    assert(s.take(2).last() == s[1]);
    assert(dec_val(s.take(2)) == (r / 100000) * 10 + (r / 10000) % 10);
    assert(dec_val(s.take(2)) == r / 10000);
    assert(s.take(3).drop_last() =~= s.take(2));
    assert(s.take(3).last() == s[2]);
    assert(dec_val(s.take(3)) == (r / 10000) * 10 + (r / 1000) % 10);
    assert(dec_val(s.take(3)) == r / 1000);
    assert(s.take(4).drop_last() =~= s.take(3));
    assert(s.take(4).last() == s[3]);
    assert(dec_val(s.take(4)) == (r / 1000) * 10 + (r / 100) % 10);
    assert(dec_val(s.take(4)) == r / 100);
    assert(s.take(5).drop_last() =~= s.take(4));
    assert(s.take(5).last() == s[4]);
    assert(dec_val(s.take(5)) == (r / 100) * 10 + (r / 10) % 10);
    assert(dec_val(s.take(5)) == r / 10);
    assert(s.take(6).drop_last() =~= s.take(5));
    assert(s.take(6) =~= s);
    assert(s.take(6).last() == s[5]);
    assert(dec_val(s) == (r / 10) * 10 + r % 10);
}

/// Dropping trailing zero digits divides the value by the matching power
/// of ten, keeps the digits, and keeps at least one digit of a positive
/// value.
proof fn lemma_strip_zeros(s: Seq<u8>)
    requires
        all_digits(s),
    ensures
        all_digits(strip_zeros(s)),
        strip_zeros(s).len() <= s.len(),
        dec_val(s) == dec_val(strip_zeros(s)) * pow10((s.len() - strip_zeros(s).len()) as nat),
        dec_val(s) > 0 ==> strip_zeros(s).len() >= 1,
    decreases s.len(),
{
    if s.len() > 0 && s.last() == 48 {
        let p = s.drop_last();
        assert(all_digits(p)) by {
            assert(forall|i: int|
                0 <= i < p.len() ==> is_digit(#[trigger] p[i]) == is_digit(s[i]));
        }
        lemma_strip_zeros(p);
        let t = strip_zeros(s);
        assert(t == strip_zeros(p));
        let k = (p.len() - t.len()) as nat;
        assert(dec_val(s) == dec_val(p) * 10);
        assert(dec_val(p) * 10 == (dec_val(t) * pow10(k)) * 10) by (nonlinear_arith)
            requires
                dec_val(p) == dec_val(t) * pow10(k),
        ;
        assert((dec_val(t) * pow10(k)) * 10 == dec_val(t) * (10 * pow10(k))) by (nonlinear_arith);
        assert(pow10((k + 1) as nat) == 10 * pow10(k));
    } else {
        assert(strip_zeros(s) == s);
        assert(pow10(0) == 1);
        assert(dec_val(s) * 1 == dec_val(s)) by (nonlinear_arith);
    }
}

/// Reading an encoded amount yields the amount back.
#[verifier::rlimit(100)]
pub proof fn lemma_amount_round_trip(m: int)
    requires
        i64::MIN <= m <= i64::MAX,
    ensures
        spec_parse_amount(spec_amount_enc(m)) == Some(m),
{
    let ma = if m < 0 {
        -m
    } else {
        m
    };
    let q = ma / 1000000;
    let r = ma % 1000000;
    vstd::arithmetic::div_mod::lemma_fundamental_div_mod(ma, 1000000);
    assert(0 <= r < 1000000) by {
        vstd::arithmetic::div_mod::lemma_mod_bound(ma, 1000000);
    }
    assert(q >= 0) by {
        vstd::arithmetic::div_mod::lemma_div_pos_is_pos(ma, 1000000);
    }
    assert(q <= 9223372036854) by {
        if q > 9223372036854 {
            assert(1000000 * q >= 1000000 * 9223372036855) by (nonlinear_arith)
                requires
                    q >= 9223372036855,
            ;
        }
    }
    lemma_dec_round_trip(q as nat);
    let d = spec_dec(q as nat);
    let abs_enc = spec_amount_abs_enc(ma);
    if r == 0 {
        assert(abs_enc == d);
        assert(forall|k: int| 0 <= k < d.len() ==> d[k] != 46) by {
            assert(forall|k: int| 0 <= k < d.len() ==> is_digit(#[trigger] d[k]));
        }
        lemma_find_byte_char(abs_enc, 46, abs_enc.len() as int);
        assert(spec_parse_abs_amount(abs_enc) == Some(dec_val(d) * 1000000));
        assert(dec_val(d) * 1000000 == ma) by (nonlinear_arith)
            requires
                dec_val(d) == q,
                ma == 1000000 * q + r,
                r == 0,
        ;
    } else {
        lemma_pad6_val(r);
        lemma_strip_zeros(pad6(r));
        let fp = strip_zeros(pad6(r));
        assert(fp.len() >= 1);
        assert(fp.len() <= 6);
        assert(abs_enc == d.push(46) + fp);
        assert(forall|k: int| 0 <= k < d.len() ==> #[trigger] abs_enc[k] == d[k]);
        assert(forall|k: int| 0 <= k < d.len() ==> abs_enc[k] != 46) by {
            assert(forall|k: int| 0 <= k < d.len() ==> is_digit(#[trigger] d[k]));
        }
        assert(abs_enc[d.len() as int] == 46);
        lemma_find_byte_char(abs_enc, 46, d.len() as int);
        let j = find_byte(abs_enc, 46);
        assert((j as int) < abs_enc.len());
        assert(abs_enc.take(j as int) =~= d);
        assert(abs_enc.skip(j as int + 1) =~= fp);
        let pk = (6 - fp.len()) as nat;
        assert(dec_val(pad6(r)) == dec_val(fp) * pow10(pk));
        assert(spec_parse_abs_amount(abs_enc) == Some(dec_val(d) * 1000000 + dec_val(fp) * pow10(
            pk,
        )));
        assert(dec_val(d) * 1000000 + dec_val(fp) * pow10(pk) == ma) by (nonlinear_arith)
            requires
                dec_val(d) == q,
                dec_val(fp) * pow10(pk) == r,
                ma == 1000000 * q + r,
        ;
    }
    let enc = spec_amount_enc(m);
    if m < 0 {
        assert(enc == seq![45u8] + abs_enc);
        assert(enc[0] == 45);
        assert(enc.skip(1) =~= abs_enc);
    } else {
        assert(enc == abs_enc);
        assert(enc.len() > 0);
        assert(is_digit(enc[0])) by {
            if r == 0 {
            } else {
                assert(enc[0] == d[0]);
            }
        }
        assert(enc[0] != 45);
    }
}

} // verus!
