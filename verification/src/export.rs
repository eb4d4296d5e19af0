//! Text export of fixed-point values: six decimal places, an optional minus
//! sign, rows of separated fields. Formatting and parsing are exact inverses,
//! so exported values survive a round trip unchanged.

use vstd::prelude::*;

verus! {

/// ASCII codes used by the format.
pub const BYTE_MINUS: u8 = 45;

pub const BYTE_DOT: u8 = 46;

pub const BYTE_ZERO: u8 = 48;

pub const BYTE_NEWLINE: u8 = 10;

pub open spec fn is_digit(b: u8) -> bool {
    48 <= b <= 57
}

pub open spec fn all_digits(s: Seq<u8>) -> bool {
    forall|i: int| 0 <= i < s.len() ==> is_digit(#[trigger] s[i])
}

/// The decimal digits of `n`, most significant first, no leading zeros
/// except for the single digit of zero itself.
pub open spec fn spec_digits(n: nat) -> Seq<u8>
    decreases n,
{
    if n < 10 {
        seq![(48 + n) as u8]
    } else {
        spec_digits(n / 10).push((48 + n % 10) as u8)
    }
}

/// The last `width` decimal digits of `n`, zero-padded to exactly `width`.
pub open spec fn digits_padded(n: nat, width: nat) -> Seq<u8>
    decreases width,
{
    if width == 0 {
        Seq::empty()
    } else {
        digits_padded(n / 10, (width - 1) as nat).push((48 + n % 10) as u8)
    }
}

/// The numeric value of a digit string; a non-digit byte contributes its
/// code's distance from the zero digit, but callers always pass digits.
pub open spec fn parse_nat(s: Seq<u8>) -> int
    decreases s.len(),
{
    if s.len() == 0 {
        0
    } else {
        parse_nat(s.drop_last()) * 10 + (s.last() - 48)
    }
}

/// The fixed-point text of `v` millionths: sign, units, dot, six fraction
/// digits.
pub open spec fn spec_format_fixed(v: int) -> Seq<u8> {
    let a = if v < 0 {
        -v
    } else {
        v
    };
    (if v < 0 {
        seq![BYTE_MINUS]
    } else {
        Seq::<u8>::empty()
    }) + spec_digits((a / 1_000_000) as nat) + seq![BYTE_DOT] + digits_padded(
        (a % 1_000_000) as nat,
        6,
    )
}

/// The position of the first dot byte, or the length when there is none.
pub open spec fn dot_index(s: Seq<u8>) -> int
    decreases s.len(),
{
    if s.len() == 0 {
        0
    } else if s[0] == BYTE_DOT {
        0
    } else {
        1 + dot_index(s.drop_first())
    }
}

/// What a well-formed fixed-point text means: an optional minus sign, at
/// least one unit digit, a dot, exactly six fraction digits, and a value that
/// fits the fixed-point range.
pub open spec fn spec_parse_fixed(s: Seq<u8>) -> Option<i64> {
    let neg = s.len() > 0 && s[0] == BYTE_MINUS;
    let body = if neg {
        s.drop_first()
    } else {
        s
    };
    let d = dot_index(body);
    if 1 <= d < body.len() && body.len() - d - 1 == 6 && all_digits(body.subrange(0, d))
        && all_digits(body.subrange(d + 1, body.len() as int)) {
        let val = parse_nat(body.subrange(0, d)) * 1_000_000 + parse_nat(
            body.subrange(d + 1, body.len() as int),
        );
        if val <= i64::MAX {
            if neg {
                Some((-val) as i64)
            } else {
                Some(val as i64)
            }
        } else {
            None
        }
    } else {
        None
    }
}

/// One row: fields separated by `sep`.
pub open spec fn spec_row_delimited(row: Seq<i64>, sep: u8) -> Seq<u8>
    decreases row.len(),
{
    if row.len() == 0 {
        Seq::empty()
    } else if row.len() == 1 {
        spec_format_fixed(row[0] as int)
    } else {
        spec_row_delimited(row.drop_last(), sep) + seq![sep] + spec_format_fixed(
            row.last() as int,
        )
    }
}

/// The whole table: one newline-terminated line per row.
pub open spec fn spec_matrix_delimited(rows: Seq<Seq<i64>>, sep: u8) -> Seq<u8>
    decreases rows.len(),
{
    if rows.len() == 0 {
        Seq::empty()
    } else {
        spec_matrix_delimited(rows.drop_last(), sep) + spec_row_delimited(rows.last(), sep)
            + seq![BYTE_NEWLINE]
    }
}


/// Ten to the `e`.
pub open spec fn pow10(e: nat) -> nat
    decreases e,
{
    if e == 0 {
        1
    } else {
        10 * pow10((e - 1) as nat)
    }
}

proof fn lemma_pow10_6()
    ensures
        pow10(6) == 1_000_000,
{
    assert(pow10(0) == 1);
    assert(pow10(1) == 10);
    assert(pow10(2) == 100);
    assert(pow10(3) == 1000);
    assert(pow10(4) == 10000);
    assert(pow10(5) == 100000);
    assert(pow10(6) == 1000000);
}

proof fn lemma_pow10_mono(a: nat, b: nat)
    requires
        a <= b,
    ensures
        pow10(a) <= pow10(b),
    decreases b,
{
    if a < b {
        lemma_pow10_mono(a, (b - 1) as nat);
    }
}

proof fn lemma_digits_shape(n: nat)
    ensures
        all_digits(spec_digits(n)),
        spec_digits(n).len() >= 1,
    decreases n,
{
    if n >= 10 {
        lemma_digits_shape(n / 10);
        assert(spec_digits(n).drop_last() =~= spec_digits(n / 10));
    }
}

proof fn lemma_padded_shape(n: nat, w: nat)
    ensures
        all_digits(digits_padded(n, w)),
        digits_padded(n, w).len() == w,
    decreases w,
{
    if w > 0 {
        lemma_padded_shape(n / 10, (w - 1) as nat);
        assert(digits_padded(n, w).drop_last() =~= digits_padded(n / 10, (w - 1) as nat));
    }
}

proof fn lemma_parse_digits(n: nat)
    ensures
        parse_nat(spec_digits(n)) == n,
    decreases n,
{
    if n < 10 {
        assert(spec_digits(n).drop_last() =~= Seq::<u8>::empty());
        assert((48 + n) as u8 == 48 + n);
        assert(spec_digits(n).last() == (48 + n) as u8);
        assert(parse_nat(spec_digits(n)) == parse_nat(spec_digits(n).drop_last()) * 10 + (
        spec_digits(n).last() - 48));
        assert(parse_nat(Seq::<u8>::empty()) == 0);
    } else {
        lemma_parse_digits(n / 10);
        assert(spec_digits(n).drop_last() =~= spec_digits(n / 10));
        assert((48 + n % 10) as u8 == 48 + n % 10);
        assert(spec_digits(n).last() == (48 + n % 10) as u8);
        assert(parse_nat(spec_digits(n)) == parse_nat(spec_digits(n).drop_last()) * 10 + (
        spec_digits(n).last() - 48));
    }
}

proof fn lemma_parse_padded(n: nat, w: nat)
    requires
        n < pow10(w),
    ensures
        parse_nat(digits_padded(n, w)) == n,
    decreases w,
{
    if w == 0 {
    } else {
        assert(pow10(w) == 10 * pow10((w - 1) as nat));
        assert(n / 10 < pow10((w - 1) as nat));
        lemma_parse_padded(n / 10, (w - 1) as nat);
        assert(digits_padded(n, w).drop_last() =~= digits_padded(n / 10, (w - 1) as nat));
    }
}

proof fn lemma_dot_index_at(s: Seq<u8>, i: int)
    requires
        0 <= i <= s.len(),
        forall|j: int| 0 <= j < i ==> s[j] != BYTE_DOT,
        i < s.len() ==> s[i] == BYTE_DOT,
    ensures
        dot_index(s) == i,
    decreases s.len(),
{
    if s.len() == 0 {
    } else if i == 0 {
    } else {
        lemma_dot_index_at(s.drop_first(), i - 1);
    }
}

/// Formatting and parsing are exact inverses: the text of any fixed-point
/// value parses back to that very value.
#[verifier::rlimit(60)]
pub proof fn lemma_format_parse_round_trip(v: i64)
    requires
        v > i64::MIN,
    ensures
        spec_parse_fixed(spec_format_fixed(v as int)) == Some(v),
{
    let a: int = if v < 0 {
        -(v as int)
    } else {
        v as int
    };
    let u = (a / 1_000_000) as nat;
    let f = (a % 1_000_000) as nat;
    let ds = spec_digits(u);
    let fs = digits_padded(f, 6);
    lemma_digits_shape(u);
    lemma_padded_shape(f, 6);
    lemma_pow10_6();
    let s = spec_format_fixed(v as int);
    let body = ds + seq![BYTE_DOT] + fs;
    if v < 0 {
        assert(s =~= seq![BYTE_MINUS] + body);
        assert(s[0] == BYTE_MINUS);
        assert(s.drop_first() =~= body);
    } else {
        assert(s =~= body);
        assert(is_digit(s[0]));
    }
    assert(forall|j: int| 0 <= j < ds.len() ==> body[j] == ds[j] && is_digit(#[trigger] body[j]));
    lemma_dot_index_at(body, ds.len() as int);
    assert(body.subrange(0, ds.len() as int) =~= ds);
    assert(body.subrange(ds.len() as int + 1, body.len() as int) =~= fs);
    assert(body.len() - ds.len() - 1 == 6);
    lemma_parse_digits(u);
    lemma_parse_padded(f, 6);
    assert(parse_nat(ds) * 1_000_000 + parse_nat(fs) == a);
    assert(a <= i64::MAX);
}

/// The fixed-point text of `v` millionths: an optional minus sign, the whole
/// units, a dot, six fraction digits.
pub fn format_fixed(v: i64) -> (r: Vec<u8>)
    requires
        v > i64::MIN,
    ensures
        r@ == spec_format_fixed(v as int),
{
    let neg = v < 0;
    let a: i64 = if neg {
        -v
    } else {
        v
    };
    let units: i64 = a / 1_000_000;
    let frac: i64 = a % 1_000_000;
    let mut out: Vec<u8> = Vec::new();
    if neg {
        out.push(BYTE_MINUS);
    }

    // Units digits, collected least significant first, then appended in
    // reverse.
    let mut rev: Vec<u8> = Vec::new();
    let mut x: i64 = units;
    rev.push(BYTE_ZERO + (x % 10) as u8);
    proof {
        assert(rev@.reverse() =~= seq![(48 + units as nat % 10) as u8]);
        if units >= 10 {
            assert(spec_digits(units as nat) == spec_digits(units as nat / 10).push(
                (48 + units as nat % 10) as u8,
            ));
            assert(spec_digits(units as nat) =~= spec_digits((units / 10) as nat)
                + rev@.reverse());
        } else {
            assert(spec_digits(units as nat) =~= rev@.reverse());
        }
    }
    x = x / 10;
    while x > 0
        invariant
            0 <= x <= units,
            rev@.len() >= 1,
            x > 0 ==> spec_digits(units as nat) == spec_digits(x as nat) + rev@.reverse(),
            x == 0 ==> spec_digits(units as nat) == rev@.reverse(),
        decreases x,
    {
        let ghost pre = rev@;
        rev.push(BYTE_ZERO + (x % 10) as u8);
        proof {
            assert(rev@.reverse() =~= seq![(48 + x as nat % 10) as u8] + pre.reverse());
            if x >= 10 {
                assert(spec_digits(x as nat) == spec_digits(x as nat / 10).push(
                    (48 + x as nat % 10) as u8,
                ));
                assert(spec_digits((x / 10) as nat) + rev@.reverse() =~= spec_digits(x as nat)
                    + pre.reverse());
            } else {
                assert(spec_digits(x as nat) =~= seq![(48 + x as nat % 10) as u8]);
                assert(rev@.reverse() =~= spec_digits(x as nat) + pre.reverse());
            }
        }
        x = x / 10;
    }
    let ghost base1 = out@;
    let mut j: usize = rev.len();
    while j > 0
        invariant
            j <= rev@.len(),
            out@ == base1 + rev@.subrange(j as int, rev@.len() as int).reverse(),
        decreases j,
    {
        j -= 1;
        out.push(rev[j]);
        proof {
            assert(rev@.subrange(j as int, rev@.len() as int).reverse() =~= rev@.subrange(
                j as int + 1,
                rev@.len() as int,
            ).reverse().push(rev@[j as int]));
            assert(out@ =~= base1 + rev@.subrange(j as int, rev@.len() as int).reverse());
        }
    }
    proof {
        assert(rev@.subrange(0, rev@.len() as int) =~= rev@);
        assert(out@ == base1 + spec_digits(units as nat));
    }

    out.push(BYTE_DOT);

    // Exactly six fraction digits, same construction.
    let mut frev: Vec<u8> = Vec::new();
    let mut y: i64 = frac;
    let mut k: usize = 0;
    while k < 6
        invariant
            0 <= y,
            0 <= k <= 6,
            frev@.len() == k,
            digits_padded(frac as nat, 6) == digits_padded(y as nat, (6 - k) as nat)
                + frev@.reverse(),
        decreases 6 - k,
    {
        let ghost pre = frev@;
        frev.push(BYTE_ZERO + (y % 10) as u8);
        proof {
            assert(frev@.reverse() =~= seq![(48 + y as nat % 10) as u8] + pre.reverse());
            assert(digits_padded(y as nat, (6 - k) as nat) == digits_padded(
                y as nat / 10,
                (6 - k - 1) as nat,
            ).push((48 + y as nat % 10) as u8));
            assert(digits_padded((y / 10) as nat, (6 - k - 1) as nat) + frev@.reverse()
                =~= digits_padded(y as nat, (6 - k) as nat) + pre.reverse());
        }
        y = y / 10;
        k += 1;
    }
    proof {
        assert(digits_padded(y as nat, 0) =~= Seq::<u8>::empty());
        assert(digits_padded(frac as nat, 6) =~= frev@.reverse());
    }
    let ghost base2 = out@;
    let mut j: usize = frev.len();
    while j > 0
        invariant
            j <= frev@.len(),
            out@ == base2 + frev@.subrange(j as int, frev@.len() as int).reverse(),
        decreases j,
    {
        j -= 1;
        out.push(frev[j]);
        proof {
            assert(frev@.subrange(j as int, frev@.len() as int).reverse() =~= frev@.subrange(
                j as int + 1,
                frev@.len() as int,
            ).reverse().push(frev@[j as int]));
            assert(out@ =~= base2 + frev@.subrange(j as int, frev@.len() as int).reverse());
        }
    }
    proof {
        assert(frev@.subrange(0, frev@.len() as int) =~= frev@);
        assert(out@ =~= spec_format_fixed(v as int));
    }
    out
}

/// Parses a fixed-point text back into millionths; rejects anything that is
/// not an optional minus sign, units, a dot and six fraction digits, or that
/// overflows the fixed-point range.
pub fn parse_fixed(s: &Vec<u8>) -> (r: Option<i64>)
    ensures
        r == spec_parse_fixed(s@),
{
    let n = s.len();
    let neg = n > 0 && s[0] == BYTE_MINUS;
    let start: usize = if neg {
        1
    } else {
        0
    };
    let ghost body = if neg {
        s@.drop_first()
    } else {
        s@
    };
    assert(body.len() == n - start);
    assert(forall|t: int| 0 <= t < body.len() ==> body[t] == s@[t + start]);

    let mut i: usize = start;
    while i < n && s[i] != BYTE_DOT
        invariant
            start <= i <= n,
            n == s@.len(),
            forall|j: int| start <= j < i ==> s@[j] != BYTE_DOT,
        decreases n - i,
    {
        i += 1;
    }
    proof {
        lemma_dot_index_at(body, i - start);
    }
    if i >= n {
        return None;
    }
    let d_pos = i;
    if d_pos == start {
        return None;
    }
    if n - 1 - d_pos != 6 {
        return None;
    }
    let ghost d = d_pos - start;

    let mut acc: u128 = 0;
    let mut too_big = false;
    let mut j: usize = start;
    while j < d_pos
        invariant
            start <= j <= d_pos < n,
            n == s@.len(),
            body == (if neg {
                s@.drop_first()
            } else {
                s@
            }),
            start == (if neg {
                1int
            } else {
                0int
            }),
            neg == (s@.len() > 0 && s@[0] == BYTE_MINUS),
            d == d_pos - start,
            dot_index(body) == d,
            body.len() == n - start,
            1 <= d < body.len(),
            body.len() - d - 1 == 6,
            forall|t: int| 0 <= t < j - start ==> is_digit(#[trigger] body[t]),
            !too_big ==> acc as int == parse_nat(body.subrange(0, j - start)) && acc
                <= i64::MAX as u128,
            too_big ==> parse_nat(body.subrange(0, j - start)) > i64::MAX,
            parse_nat(body.subrange(0, j - start)) >= 0,
        decreases d_pos - j,
    {
        let b = s[j];
        if b < BYTE_ZERO || b > 57 {
            assert(body[j - start] == s@[j as int]);
            assert(body.subrange(0, d)[j - start] == body[j - start]);
            assert(!is_digit(body.subrange(0, d)[j - start]));
            assert(!all_digits(body.subrange(0, d)));
            return None;
        }
        let dv = (b - BYTE_ZERO) as u128;
        let ghost pre = body.subrange(0, j - start);
        let ghost cur = body.subrange(0, j + 1 - start);
        proof {
            assert(cur.drop_last() =~= pre);
            assert(cur.last() == s@[j as int]);
        }
        if too_big {
            assert(parse_nat(cur) > i64::MAX);
        } else {
            let t = acc * 10 + dv;
            if t > i64::MAX as u128 {
                too_big = true;
            } else {
                acc = t;
            }
        }
        j += 1;
    }
    assert(all_digits(body.subrange(0, d)));

    let mut f: u64 = 0;
    let mut j: usize = d_pos + 1;
    proof {
        lemma_pow10_6();
        assert(body.subrange(d + 1, d + 1) =~= Seq::<u8>::empty());
    }
    while j < n
        invariant
            d_pos + 1 <= j <= n,
            n == s@.len(),
            body == (if neg {
                s@.drop_first()
            } else {
                s@
            }),
            start == (if neg {
                1int
            } else {
                0int
            }),
            neg == (s@.len() > 0 && s@[0] == BYTE_MINUS),
            d == d_pos - start,
            dot_index(body) == d,
            body.len() == n - start,
            1 <= d < body.len(),
            body.len() - d - 1 == 6,
            all_digits(body.subrange(0, d)),
            too_big ==> parse_nat(body.subrange(0, d)) > i64::MAX,
            !too_big ==> acc as int == parse_nat(body.subrange(0, d)) && acc <= i64::MAX as u128,
            parse_nat(body.subrange(0, d)) >= 0,
            start <= d_pos < n,
            n - 1 - d_pos == 6,
            forall|t: int| d + 1 <= t < j - start ==> is_digit(#[trigger] body[t]),
            f as int == parse_nat(body.subrange(d + 1, j - start)),
            (f as int) < pow10((j - start - d - 1) as nat),
            pow10(6) == 1_000_000,
        decreases n - j,
    {
        let b = s[j];
        if b < BYTE_ZERO || b > 57 {
            assert(body[j - start] == s@[j as int]);
            assert(body.subrange(d + 1, body.len() as int)[j - start - d - 1] == body[j - start]);
            assert(!is_digit(body.subrange(d + 1, body.len() as int)[j - start - d - 1]));
            assert(!all_digits(body.subrange(d + 1, body.len() as int)));
            return None;
        }
        proof {
            lemma_pow10_mono((j - start - d - 1) as nat, 5);
            assert(pow10(5) == 100000) by {
                lemma_pow10_6();
            }
        }
        let dv = (b - BYTE_ZERO) as u64;
        let ghost pre = body.subrange(d + 1, j - start);
        let ghost cur = body.subrange(d + 1, j + 1 - start);
        proof {
            assert(cur.drop_last() =~= pre);
            assert(cur.last() == s@[j as int]);
            assert(pow10(((j - start - d - 1) + 1) as nat) == 10 * pow10(
                (j - start - d - 1) as nat,
            ));
        }
        f = f * 10 + dv;
        j += 1;
    }
    proof {
        assert(body.subrange(d + 1, body.len() as int) == body.subrange(d + 1, n - start));
        assert(all_digits(body.subrange(d + 1, body.len() as int)));
    }
    if too_big {
        proof {
            let uval = parse_nat(body.subrange(0, d));
            assert(uval * 1_000_000 >= uval) by (nonlinear_arith)
                requires
                    uval > i64::MAX,
            ;
        }
        return None;
    }
    let val: u128 = acc * 1_000_000 + f as u128;
    if val > i64::MAX as u128 {
        return None;
    }
    let x = val as i64;
    if neg {
        Some(-x)
    } else {
        Some(x)
    }
}

/// One newline-terminated line per row, fields separated by `sep`, each cell
/// in the six-decimal fixed-point format.
pub fn to_delimited(rows: &Vec<Vec<i64>>, sep: u8) -> (r: Vec<u8>)
    requires
        forall|i: int, j: int|
            0 <= i < rows.deep_view().len() && 0 <= j < rows.deep_view()[i].len()
                ==> #[trigger] rows.deep_view()[i][j] > i64::MIN,
    ensures
        r@ == spec_matrix_delimited(rows.deep_view(), sep),
{
    let ghost dv = rows.deep_view();
    let mut out: Vec<u8> = Vec::new();
    let mut i: usize = 0;
    proof {
        assert(dv.subrange(0, 0) =~= Seq::<Seq<i64>>::empty());
    }
    while i < rows.len()
        invariant
            0 <= i <= rows@.len(),
            dv == rows.deep_view(),
            dv.len() == rows@.len(),
            forall|a: int, b: int|
                0 <= a < dv.len() && 0 <= b < dv[a].len() ==> #[trigger] dv[a][b] > i64::MIN,
            out@ == spec_matrix_delimited(dv.subrange(0, i as int), sep),
        decreases rows@.len() - i,
    {
        let ghost base = out@;
        let ghost rowv = dv[i as int];
        let m = rows[i].len();
        assert(rowv.len() == m);
        let mut j: usize = 0;
        proof {
            assert(rowv.subrange(0, 0) =~= Seq::<i64>::empty());
        }
        while j < m
            invariant
                0 <= j <= m,
                0 <= i < rows@.len(),
                dv == rows.deep_view(),
                dv.len() == rows@.len(),
                rowv == dv[i as int],
                m == rowv.len(),
                m == rows@[i as int]@.len(),
                forall|a: int, b: int|
                    0 <= a < dv.len() && 0 <= b < dv[a].len() ==> #[trigger] dv[a][b] > i64::MIN,
                out@ == base + spec_row_delimited(rowv.subrange(0, j as int), sep),
            decreases m - j,
        {
            if j > 0 {
                out.push(sep);
            }
            assert(rows@[i as int]@[j as int] == rowv[j as int]);
            let mut cell = format_fixed(rows[i][j]);
            out.append(&mut cell);
            proof {
                let cur = rowv.subrange(0, j as int + 1);
                assert(cur.drop_last() =~= rowv.subrange(0, j as int));
                assert(cur.last() == rowv[j as int]);
                if j == 0 {
                    assert(out@ =~= base + spec_row_delimited(cur, sep));
                } else {
                    assert(out@ =~= base + spec_row_delimited(cur, sep));
                }
            }
            j += 1;
        }
        out.push(BYTE_NEWLINE);
        proof {
            assert(rowv.subrange(0, m as int) =~= rowv);
            let cur = dv.subrange(0, i as int + 1);
            assert(cur.drop_last() =~= dv.subrange(0, i as int));
            assert(cur.last() == rowv);
            assert(out@ =~= spec_matrix_delimited(cur, sep));
        }
        i += 1;
    }
    proof {
        assert(dv.subrange(0, rows@.len() as int) =~= dv);
    }
    out
}

} // verus!
