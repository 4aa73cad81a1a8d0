//! Parsing of the textual inputs: the sensor's millidegree reading and
//! the configured numeric options (fixed-point decimals and
//! comma/space-separated breakpoint lists).
//!
//! Every parser takes raw bytes and is specified against a spec-level
//! grammar: a spec function gives the mathematical value of a byte
//! sequence (or `None` where it is malformed), and each parser returns
//! `Ok` exactly on the well-formed inputs whose value is representable.

use vstd::prelude::*;
use crate::SCALE;
use crate::STEP_LIMIT;

verus! {

pub const DIGIT_ZERO: u8 = 0x30;

pub const DIGIT_NINE: u8 = 0x39;

pub const DOT: u8 = 0x2E;

pub const COMMA: u8 = 0x2C;

pub const SPACE: u8 = 0x20;

pub const PLUS: u8 = 0x2B;

pub const MINUS: u8 = 0x2D;

pub const NEWLINE: u8 = 0x0A;

pub open spec fn is_digit(b: u8) -> bool {
    DIGIT_ZERO <= b <= DIGIT_NINE
}

pub open spec fn digit_value(b: u8) -> int {
    b - DIGIT_ZERO
}

pub open spec fn all_digits(s: Seq<u8>) -> bool {
    forall|i: int| 0 <= i < s.len() ==> is_digit(#[trigger] s[i])
}

/// The number a sequence of decimal digits denotes, most significant
/// first.
pub open spec fn digits_value(s: Seq<u8>) -> int
    decreases s.len(),
{
    if s.len() == 0 {
        0
    } else {
        digits_value(s.drop_last()) * 10 + digit_value(s.last())
    }
}

pub open spec fn pow10(n: nat) -> int
    decreases n,
{
    if n == 0 {
        1
    } else {
        10 * pow10((n - 1) as nat)
    }
}

proof fn lemma_pow10_pos(n: nat)
    ensures
        pow10(n) >= 1,
    decreases n,
{
    if n > 0 {
        lemma_pow10_pos((n - 1) as nat);
    }
}

proof fn lemma_pow10_mono(m: nat, n: nat)
    requires
        m <= n,
    ensures
        pow10(m) <= pow10(n),
    decreases n,
{
    if m < n {
        lemma_pow10_mono(m, (n - 1) as nat);
        lemma_pow10_pos((n - 1) as nat);
    }
}

/// Digit strings denote values in `[0, pow10(len))`.
proof fn lemma_digits_value_bounds(s: Seq<u8>)
    requires
        all_digits(s),
    ensures
        0 <= digits_value(s) < pow10(s.len()),
    decreases s.len(),
{
    if s.len() > 0 {
        lemma_digits_value_bounds(s.drop_last());
    }
}

/// A digit string without a leading zero denotes at least
/// `pow10(len - 1)`.
proof fn lemma_digits_value_lower(s: Seq<u8>)
    requires
        all_digits(s),
        s.len() >= 1,
        s[0] != DIGIT_ZERO,
    ensures
        digits_value(s) >= pow10((s.len() - 1) as nat),
    decreases s.len(),
{
    if s.len() > 1 {
        lemma_digits_value_lower(s.drop_last());
        lemma_digits_value_bounds(s.drop_last());
    } else {
        assert(digits_value(s.drop_last()) == 0);
    }
}

/// Concatenation shifts the left part by the length of the right part.
proof fn lemma_digits_value_concat(a: Seq<u8>, b: Seq<u8>)
    ensures
        digits_value(a + b) == digits_value(a) * pow10(b.len()) + digits_value(b),
    decreases b.len(),
{
    if b.len() == 0 {
        assert(a + b =~= a);
    } else {
        lemma_digits_value_concat(a, b.drop_last());
        assert((a + b).drop_last() =~= a + b.drop_last());
        assert((digits_value(a) * pow10((b.len() - 1) as nat)) * 10 == digits_value(a) * (10
            * pow10((b.len() - 1) as nat))) by (nonlinear_arith);
    }
}

/// A string of zero digits denotes zero.
proof fn lemma_zeros_value(s: Seq<u8>)
    requires
        forall|i: int| 0 <= i < s.len() ==> #[trigger] s[i] == DIGIT_ZERO,
    ensures
        digits_value(s) == 0,
    decreases s.len(),
{
    if s.len() > 0 {
        lemma_zeros_value(s.drop_last());
    }
}

/// Index of the first decimal point, or the length if there is none.
pub open spec fn dot_scan(s: Seq<u8>) -> int
    decreases s.len(),
{
    if s.len() == 0 {
        0
    } else if s[0] == DOT {
        0
    } else {
        1 + dot_scan(s.drop_first())
    }
}

proof fn lemma_dot_scan_at(s: Seq<u8>, j: int)
    requires
        0 <= j <= s.len(),
        forall|i: int| 0 <= i < j ==> #[trigger] s[i] != DOT,
        j == s.len() || s[j] == DOT,
    ensures
        dot_scan(s) == j,
    decreases j,
{
    if j > 0 {
        lemma_dot_scan_at(s.drop_first(), j - 1);
    }
}

/// A breakpoint list is separated by commas or spaces.
pub open spec fn is_sep(b: u8) -> bool {
    b == COMMA || b == SPACE
}

/// Index of the first separator, or the length if there is none.
pub open spec fn sep_scan(s: Seq<u8>) -> int
    decreases s.len(),
{
    if s.len() == 0 {
        0
    } else if is_sep(s[0]) {
        0
    } else {
        1 + sep_scan(s.drop_first())
    }
}

proof fn lemma_sep_scan_at(s: Seq<u8>, j: int)
    requires
        0 <= j <= s.len(),
        forall|i: int| 0 <= i < j ==> !is_sep(#[trigger] s[i]),
        j == s.len() || is_sep(s[j]),
    ensures
        sep_scan(s) == j,
    decreases j,
{
    if j > 0 {
        lemma_sep_scan_at(s.drop_first(), j - 1);
    }
}

/// The input could not be turned into a representable value: it is
/// malformed, or its value lies outside the representable range.
#[derive(Clone, Copy, Debug, PartialEq, Eq, Structural)]
pub struct ParseError;

/// Value, in milli-units, of an unsigned fixed-point decimal: one or
/// more digits, optionally followed by a point and one to three
/// fractional digits. `None` for anything else.
pub open spec fn unsigned_fixed_of(s: Seq<u8>) -> Option<int> {
    let k = dot_scan(s);
    if k == s.len() {
        if s.len() >= 1 && all_digits(s) {
            Some(digits_value(s) * SCALE)
        } else {
            None
        }
    } else {
        let ip = s.subrange(0, k);
        let fp = s.subrange(k + 1, s.len() as int);
        if ip.len() >= 1 && all_digits(ip) && 1 <= fp.len() <= 3 && all_digits(fp) {
            Some(digits_value(ip) * SCALE + digits_value(fp) * pow10((3 - fp.len()) as nat))
        } else {
            None
        }
    }
}

/// Value, in milli-units, of a fixed-point decimal with an optional
/// leading sign.
pub open spec fn fixed_of(s: Seq<u8>) -> Option<int> {
    if s.len() >= 1 && (s[0] == PLUS || s[0] == MINUS) {
        match unsigned_fixed_of(s.subrange(1, s.len() as int)) {
            Some(v) => Some(
                if s[0] == MINUS {
                    -v
                } else {
                    v
                },
            ),
            None => None,
        }
    } else {
        unsigned_fixed_of(s)
    }
}

/// Whether `s[from..to)` consists of decimal digits only.
fn check_digits(s: &[u8], from: usize, to: usize) -> (ok: bool)
    requires
        from <= to <= s@.len(),
    ensures
        ok == all_digits(s@.subrange(from as int, to as int)),
{
    let ghost sub = s@.subrange(from as int, to as int);
    let mut j = from;
    while j < to
        invariant
            from <= j <= to <= s@.len(),
            forall|i: int| from <= i < j ==> is_digit(#[trigger] s@[i]),
        decreases to - j,
    {
        if s[j] < DIGIT_ZERO || s[j] > DIGIT_NINE {
            assert(s@.subrange(from as int, to as int)[j - from] == s@[j as int]);
            return false;
        }
        j = j + 1;
    }
    assert forall|i: int| 0 <= i < sub.len() implies is_digit(#[trigger] sub[i]) by {
        assert(sub[i] == s@[from + i]);
    }
    true
}

/// Value of the digit run `s[from..to)`; the caller keeps the run short
/// enough that the value fits comfortably in an `i64`.
fn digits_run_value(s: &[u8], from: usize, to: usize) -> (v: i64)
    requires
        from <= to <= s@.len(),
        to - from <= 10,
        all_digits(s@.subrange(from as int, to as int)),
    ensures
        v == digits_value(s@.subrange(from as int, to as int)),
        0 <= v < 10_000_000_000,
{
    let mut v: i64 = 0;
    let mut j = from;
    while j < to
        invariant
            from <= j <= to <= s@.len(),
            to - from <= 10,
            all_digits(s@.subrange(from as int, to as int)),
            v == digits_value(s@.subrange(from as int, j as int)),
            0 <= v < pow10((j - from) as nat),
        decreases to - j,
    {
        proof {
            assert(s@.subrange(from as int, to as int)[j - from] == s@[j as int]);
            assert(s@.subrange(from as int, j + 1).drop_last() =~= s@.subrange(
                from as int,
                j as int,
            ));
            assert(s@.subrange(from as int, j + 1).last() == s@[j as int]);
            lemma_pow10_mono((j + 1 - from) as nat, 10);
            assert(pow10(10) == 10_000_000_000) by {
                reveal_with_fuel(pow10, 11);
            }
        }
        let d = s[j] - DIGIT_ZERO;
        v = v * 10 + d as i64;
        j = j + 1;
    }
    proof {
        lemma_pow10_mono((to - from) as nat, 10);
        assert(pow10(10) == 10_000_000_000) by {
            reveal_with_fuel(pow10, 11);
        }
    }
    v
}

/// Parses the unsigned fixed-point decimal in `s[from..)` into
/// milli-units, rejecting values above `STEP_LIMIT`.
fn parse_unsigned_fixed(s: &[u8], from: usize) -> (r: Result<i64, ParseError>)
    requires
        from <= s@.len(),
    ensures
        ({
            let u = s@.subrange(from as int, s@.len() as int);
            match r {
                Ok(v) => unsigned_fixed_of(u) == Some(v as int) && 0 <= v <= STEP_LIMIT,
                Err(_) => unsigned_fixed_of(u) is None || (unsigned_fixed_of(u) matches Some(x)
                    && x > STEP_LIMIT),
            }
        }),
{
    let len = s.len();
    let ghost u = s@.subrange(from as int, len as int);
    let mut k = from;
    while k < len && s[k] != DOT
        invariant
            from <= k <= len == s@.len(),
            forall|i: int| from <= i < k ==> s@[i] != DOT,
        decreases len - k,
    {
        k = k + 1;
    }
    proof {
        assert forall|i: int| 0 <= i < k - from implies #[trigger] u[i] != DOT by {
            assert(u[i] == s@[from + i]);
        }
        if k < len {
            assert(u[k - from] == s@[k as int]);
        }
        lemma_dot_scan_at(u, k - from);
    }
    let ghost ip = s@.subrange(from as int, k as int);
    if from == k {
        assert(unsigned_fixed_of(u) is None) by {
            if k - from < u.len() {
                assert(u.subrange(0, 0).len() == 0);
            }
        }
        return Err(ParseError);
    }
    if !check_digits(s, from, k) {
        assert(unsigned_fixed_of(u) is None) by {
            if k == len {
                assert(ip =~= u);
            } else {
                assert(u.subrange(0, k - from) =~= ip);
            }
        }
        return Err(ParseError);
    }
    // Skip leading zeros of the integer part.
    let mut z = from;
    while z < k && s[z] == DIGIT_ZERO
        invariant
            from <= z <= k <= s@.len(),
            forall|i: int| from <= i < z ==> s@[i] == DIGIT_ZERO,
        decreases k - z,
    {
        z = z + 1;
    }
    proof {
        assert(ip =~= s@.subrange(from as int, z as int) + s@.subrange(z as int, k as int));
        lemma_zeros_value(s@.subrange(from as int, z as int));
        lemma_digits_value_concat(
            s@.subrange(from as int, z as int),
            s@.subrange(z as int, k as int),
        );
        assert forall|i: int| 0 <= i < k - z implies is_digit(
            #[trigger] s@.subrange(z as int, k as int)[i],
        ) by {
            assert(s@.subrange(z as int, k as int)[i] == ip[i + (z - from)]);
        }
        assert(0 * pow10((k - z) as nat) == 0) by (nonlinear_arith);
        assert(digits_value(ip) == digits_value(s@.subrange(z as int, k as int)));
    }
    if k - z > 7 {
        // At least eight significant digits: the value exceeds the
        // representable range whatever the fractional part says.
        proof {
            assert(s@.subrange(z as int, k as int)[0] == s@[z as int]);
            lemma_digits_value_lower(s@.subrange(z as int, k as int));
            lemma_pow10_mono(7, (k - z - 1) as nat);
            assert(pow10(7) == 10_000_000) by {
                reveal_with_fuel(pow10, 8);
            }
            if k < len {
                let fp = u.subrange(k - from + 1, u.len() as int);
                if 1 <= fp.len() <= 3 && all_digits(fp) {
                    lemma_digits_value_bounds(fp);
                    lemma_pow10_pos((3 - fp.len()) as nat);
                    assert(digits_value(fp) * pow10((3 - fp.len()) as nat) >= 0)
                        by (nonlinear_arith)
                        requires
                            digits_value(fp) >= 0,
                            pow10((3 - fp.len()) as nat) >= 1,
                    ;
                }
                assert(u.subrange(0, k - from) =~= ip);
            } else {
                assert(ip =~= u);
            }
        }
        return Err(ParseError);
    }
    let ipv = digits_run_value(s, z, k);
    proof {
        lemma_digits_value_bounds(s@.subrange(z as int, k as int));
        lemma_pow10_mono((k - z) as nat, 7);
        assert(pow10(7) == 10_000_000) by {
            reveal_with_fuel(pow10, 8);
        }
    }
    if k == len {
        proof {
            assert(ip =~= u);
        }
        let x = ipv * SCALE;
        if x > STEP_LIMIT {
            return Err(ParseError);
        }
        return Ok(x);
    }
    let fplen = len - (k + 1);
    let ghost fp = s@.subrange(k + 1, len as int);
    proof {
        assert(u.subrange(0, k - from) =~= ip);
        assert(u.subrange(k - from + 1, u.len() as int) =~= fp);
    }
    if fplen < 1 || fplen > 3 {
        return Err(ParseError);
    }
    if !check_digits(s, k + 1, len) {
        return Err(ParseError);
    }
    let fpv = digits_run_value(s, k + 1, len);
    proof {
        lemma_digits_value_bounds(fp);
        lemma_pow10_mono((fplen) as nat, 3);
        assert(pow10(3) == 1000 && pow10(2) == 100 && pow10(1) == 10 && pow10(0) == 1) by {
            reveal_with_fuel(pow10, 4);
        }
    }
    let mult: i64 = if fplen == 1 {
        100
    } else if fplen == 2 {
        10
    } else {
        1
    };
    assert(fpv * mult <= 999 * 100) by (nonlinear_arith)
        requires
            0 <= fpv <= 999,
            0 <= mult <= 100;
    assert(fpv * mult >= 0) by (nonlinear_arith)
        requires
            0 <= fpv,
            0 <= mult;
    let x = ipv * SCALE + fpv * mult;
    assert(unsigned_fixed_of(u) == Some(x as int));
    if x > STEP_LIMIT {
        return Err(ParseError);
    }
    Ok(x)
}

/// Parses a fixed-point decimal with an optional leading sign into
/// milli-units: `"1.5"` becomes 1500, `"-0.25"` becomes -250. Succeeds
/// exactly on well-formed input whose value lies within
/// `[-STEP_LIMIT, STEP_LIMIT]`.
pub fn parse_fixed(s: &[u8]) -> (r: Result<i64, ParseError>)
    ensures
        match r {
            Ok(v) => fixed_of(s@) == Some(v as int) && -STEP_LIMIT <= v <= STEP_LIMIT,
            Err(_) => fixed_of(s@) is None || (fixed_of(s@) matches Some(x) && !(-STEP_LIMIT <= x
                <= STEP_LIMIT)),
        },
{
    let len = s.len();
    if len >= 1 && (s[0] == PLUS || s[0] == MINUS) {
        let negative = s[0] == MINUS;
        match parse_unsigned_fixed(s, 1) {
            Ok(v) => {
                if negative {
                    Ok(-v)
                } else {
                    Ok(v)
                }
            },
            Err(e) => Err(e),
        }
    } else {
        let r = parse_unsigned_fixed(s, 0);
        proof {
            assert(s@.subrange(0, len as int) =~= s@);
        }
        r
    }
}

/// Value of a plain signed decimal integer: an optional sign, then one
/// or more digits. `None` for anything else.
pub open spec fn int_of(s: Seq<u8>) -> Option<int> {
    if s.len() >= 1 && (s[0] == PLUS || s[0] == MINUS) {
        let ds = s.subrange(1, s.len() as int);
        if ds.len() >= 1 && all_digits(ds) {
            Some(
                if s[0] == MINUS {
                    -digits_value(ds)
                } else {
                    digits_value(ds)
                },
            )
        } else {
            None
        }
    } else if s.len() >= 1 && all_digits(s) {
        Some(digits_value(s))
    } else {
        None
    }
}

/// Value of the temperature source's content: a signed integer in
/// milli-degrees Celsius, optionally terminated by one newline.
pub open spec fn sensor_of(s: Seq<u8>) -> Option<int> {
    if s.len() >= 1 && s.last() == NEWLINE {
        int_of(s.drop_last())
    } else {
        int_of(s)
    }
}

/// Parses the bytes read from the temperature source into milli-degrees
/// Celsius. Succeeds exactly on a well-formed reading whose value fits a
/// 32-bit integer, as the source's format promises.
#[verifier::rlimit(60)]
pub fn parse_temperature(s: &[u8]) -> (r: Result<i64, ParseError>)
    ensures
        match r {
            Ok(v) => sensor_of(s@) == Some(v as int) && -0x8000_0000 <= v <= 0x7fff_ffff,
            Err(_) => sensor_of(s@) is None || (sensor_of(s@) matches Some(x) && !(-0x8000_0000
                <= x <= 0x7fff_ffff)),
        },
{
    let len = s.len();
    let mut end = len;
    if end >= 1 && s[end - 1] == NEWLINE {
        end = end - 1;
    }
    let ghost body = s@.subrange(0, end as int);
    proof {
        if end < len {
            assert(body =~= s@.drop_last());
        } else {
            assert(body =~= s@);
        }
    }
    let mut pos: usize = 0;
    let mut negative = false;
    if end >= 1 && (s[0] == PLUS || s[0] == MINUS) {
        negative = s[0] == MINUS;
        pos = 1;
    }
    let ghost ds = s@.subrange(pos as int, end as int);
    proof {
        if pos == 1 {
            assert(body.subrange(1, body.len() as int) =~= ds);
        } else {
            assert(body =~= ds);
        }
    }
    if pos == end {
        return Err(ParseError);
    }
    if !check_digits(s, pos, end) {
        return Err(ParseError);
    }
    // Skip leading zeros.
    let mut z = pos;
    while z < end && s[z] == DIGIT_ZERO
        invariant
            pos <= z <= end <= s@.len(),
            forall|i: int| pos <= i < z ==> s@[i] == DIGIT_ZERO,
        decreases end - z,
    {
        z = z + 1;
    }
    proof {
        assert(ds =~= s@.subrange(pos as int, z as int) + s@.subrange(z as int, end as int));
        lemma_zeros_value(s@.subrange(pos as int, z as int));
        lemma_digits_value_concat(
            s@.subrange(pos as int, z as int),
            s@.subrange(z as int, end as int),
        );
        assert forall|i: int| 0 <= i < end - z implies is_digit(
            #[trigger] s@.subrange(z as int, end as int)[i],
        ) by {
            assert(s@.subrange(z as int, end as int)[i] == ds[i + (z - pos)]);
        }
        assert(0 * pow10((end - z) as nat) == 0) by (nonlinear_arith);
        assert(digits_value(ds) == digits_value(s@.subrange(z as int, end as int)));
    }
    if end - z > 10 {
        // At least eleven significant digits: outside the 32-bit range.
        proof {
            assert(s@.subrange(z as int, end as int)[0] == s@[z as int]);
            lemma_digits_value_lower(s@.subrange(z as int, end as int));
            lemma_pow10_mono(10, (end - z - 1) as nat);
            assert(pow10(10) == 10_000_000_000) by {
                reveal_with_fuel(pow10, 11);
            }
        }
        return Err(ParseError);
    }
    let v = digits_run_value(s, z, end);
    if negative {
        let x = -v;
        if x < -0x8000_0000 {
            return Err(ParseError);
        }
        Ok(x)
    } else {
        if v > 0x7fff_ffff {
            return Err(ParseError);
        }
        Ok(v)
    }
}

/// The values of a breakpoint list, widened to mathematical integers.
pub open spec fn widened(vs: Seq<i64>) -> Seq<int> {
    vs.map_values(|v: i64| v as int)
}

/// Values of a breakpoint list: fixed-point decimals separated by single
/// commas or spaces. `None` as soon as one piece is malformed — an empty
/// piece, and so an empty list, is malformed.
pub open spec fn steps_of(s: Seq<u8>) -> Option<Seq<int>>
    decreases s.len(),
{
    let k0 = sep_scan(s);
    let k = if 0 <= k0 <= s.len() {
        k0
    } else {
        s.len() as int
    };
    if k == s.len() {
        match fixed_of(s) {
            Some(v) => Some(seq![v]),
            None => None,
        }
    } else {
        match fixed_of(s.subrange(0, k)) {
            Some(v) => match steps_of(s.subrange(k + 1, s.len() as int)) {
                Some(rest) => Some(seq![v] + rest),
                None => None,
            },
            None => None,
        }
    }
}

/// Parses a comma- or space-separated list of fixed-point decimals into
/// milli-units. Succeeds exactly on a well-formed, non-empty list all of
/// whose values lie within `[-STEP_LIMIT, STEP_LIMIT]`.
pub fn parse_step_list(s: &[u8]) -> (r: Result<Vec<i64>, ParseError>)
    ensures
        match r {
            Ok(vs) => steps_of(s@) == Some(widened(vs@)) && forall|i: int|
                0 <= i < vs@.len() ==> -STEP_LIMIT <= #[trigger] vs@[i] <= STEP_LIMIT,
            Err(_) => steps_of(s@) is None || (steps_of(s@) matches Some(xs) && exists|i: int|
                0 <= i < xs.len() && !(-STEP_LIMIT <= #[trigger] xs[i] <= STEP_LIMIT)),
        },
{
    let len = s.len();
    let mut vs: Vec<i64> = Vec::new();
    let mut pos: usize = 0;
    proof {
        assert(s@.subrange(0, len as int) =~= s@);
        match steps_of(s@) {
            Some(rest) => {
                assert(widened(vs@) + rest =~= rest);
            },
            None => {},
        }
    }
    loop
        invariant
            pos <= len == s@.len(),
            forall|i: int| 0 <= i < vs@.len() ==> -STEP_LIMIT <= #[trigger] vs@[i] <= STEP_LIMIT,
            match steps_of(s@.subrange(pos as int, len as int)) {
                Some(rest) => steps_of(s@) == Some(widened(vs@) + rest),
                None => steps_of(s@) is None,
            },
        decreases len - pos,
    {
        let ghost tail = s@.subrange(pos as int, len as int);
        let mut k = pos;
        while k < len && s[k] != COMMA && s[k] != SPACE
            invariant
                pos <= k <= len == s@.len(),
                forall|i: int| pos <= i < k ==> !is_sep(#[trigger] s@[i]),
            decreases len - k,
        {
            k = k + 1;
        }
        proof {
            assert forall|i: int| 0 <= i < k - pos implies !is_sep(#[trigger] tail[i]) by {
                assert(tail[i] == s@[pos + i]);
            }
            if k < len {
                assert(tail[k - pos] == s@[k as int]);
            }
            lemma_sep_scan_at(tail, k - pos);
            assert(tail.subrange(0, k - pos) =~= s@.subrange(pos as int, k as int));
            if k == len {
                assert(tail =~= s@.subrange(pos as int, k as int));
            } else {
                assert(tail.subrange(k - pos + 1, tail.len() as int) =~= s@.subrange(
                    k + 1,
                    len as int,
                ));
            }
        }
        match parse_fixed(&s[pos..k]) {
            Ok(v) => {
                let ghost oldvs = vs@;
                vs.push(v);
                proof {
                    assert(widened(vs@) =~= widened(oldvs) + seq![v as int]);
                }
                if k == len {
                    proof {
                        assert(steps_of(tail) == Some(seq![v as int]));
                    }
                    return Ok(vs);
                }
                pos = k + 1;
                proof {
                    match steps_of(s@.subrange(pos as int, len as int)) {
                        Some(rest2) => {
                            assert(steps_of(tail) == Some(seq![v as int] + rest2));
                            assert(widened(oldvs) + (seq![v as int] + rest2) =~= widened(vs@)
                                + rest2);
                        },
                        None => {
                            assert(steps_of(tail) is None);
                        },
                    }
                }
            },
            Err(e) => {
                proof {
                    let hv = fixed_of(s@.subrange(pos as int, k as int));
                    if hv is None {
                        assert(steps_of(tail) is None);
                    } else {
                        let x = hv->Some_0;
                        if k == len {
                            assert(steps_of(tail) == Some(seq![x]));
                            match steps_of(s@) {
                                Some(xs) => {
                                    assert(xs == widened(vs@) + seq![x]);
                                    assert(xs[vs@.len() as int] == x);
                                },
                                None => {},
                            }
                        } else {
                            match steps_of(s@.subrange(k + 1, len as int)) {
                                Some(rest2) => {
                                    assert(steps_of(tail) == Some(seq![x] + rest2));
                                    match steps_of(s@) {
                                        Some(xs) => {
                                            assert(xs == widened(vs@) + (seq![x] + rest2));
                                            assert((seq![x] + rest2)[0] == x);
                                            assert(xs[vs@.len() as int] == x);
                                        },
                                        None => {},
                                    }
                                },
                                None => {
                                    assert(steps_of(tail) is None);
                                },
                            }
                        }
                    }
                }
                return Err(e);
            },
        }
    }
}

} // verus!
