use vstd::prelude::*;

verus! {

pub open spec fn is_digit(b: u8) -> bool {
    '0' as u8 <= b && b <= '9' as u8
}

pub open spec fn all_digits(s: Seq<u8>) -> bool {
    forall|i: int| 0 <= i < s.len() ==> is_digit(#[trigger] s[i])
}

/// The value of a digit string read in base ten.
pub open spec fn digits_val(s: Seq<u8>) -> int
    decreases s.len(),
{
    if s.len() == 0 {
        0
    } else {
        digits_val(s.drop_last()) * 10 + (s.last() - ('0' as u8))
    }
}

/// A decimal unsigned literal as `usize::from_str` reads it: an
/// optional `+`, then one or more digits, value within range.
pub open spec fn uint_body(s: Seq<u8>) -> Seq<u8> {
    if s.len() > 0 && s[0] == '+' as u8 {
        s.drop_first()
    } else {
        s
    }
}

pub open spec fn parse_usize_sp(s: Seq<u8>) -> Option<int> {
    let body = uint_body(s);
    if body.len() > 0 && all_digits(body) && digits_val(body) <= usize::MAX {
        Some(digits_val(body))
    } else {
        None
    }
}

/// A decimal signed literal as `i32::from_str` reads it: an optional
/// sign, then one or more digits, value within range.
pub open spec fn int_body(s: Seq<u8>) -> Seq<u8> {
    if s.len() > 0 && (s[0] == '+' as u8 || s[0] == '-' as u8) {
        s.drop_first()
    } else {
        s
    }
}

pub open spec fn int_sign(s: Seq<u8>) -> int {
    if s.len() > 0 && s[0] == '-' as u8 {
        -1
    } else {
        1
    }
}

pub open spec fn parse_i32_sp(s: Seq<u8>) -> Option<int> {
    let body = int_body(s);
    let v = int_sign(s) * digits_val(body);
    if body.len() > 0 && all_digits(body) && i32::MIN <= v && v <= i32::MAX {
        Some(v)
    } else {
        None
    }
}

proof fn lemma_digits_val_nonneg(s: Seq<u8>)
    requires
        all_digits(s),
    ensures
        digits_val(s) >= 0,
    decreases s.len(),
{
    if s.len() > 0 {
        assert(forall|i: int| 0 <= i < s.len() - 1 ==> is_digit(#[trigger] s.drop_last()[i]));
        lemma_digits_val_nonneg(s.drop_last());
    }
}

proof fn lemma_digits_val_mono(s: Seq<u8>, k: int)
    requires
        all_digits(s),
        0 <= k <= s.len(),
    ensures
        digits_val(s) >= digits_val(s.take(k)),
    decreases s.len() - k,
{
    if k == s.len() {
        assert(s.take(k) =~= s);
    } else {
        let t = s.drop_last();
        assert(forall|i: int| 0 <= i < t.len() ==> is_digit(#[trigger] t[i]));
        lemma_digits_val_nonneg(t);
        assert(digits_val(s) >= digits_val(t));
        assert(t.take(k) =~= s.take(k));
        lemma_digits_val_mono(t, k);
    }
}

fn digit_checked(b: u8) -> (r: bool)
    ensures
        r == is_digit(b),
{
    '0' as u8 <= b && b <= '9' as u8
}

/// Accumulates the value of `s[start..]`, all digits, or reports that
/// it does not fit below the `cap`.
fn digits_to_val(s: &Vec<u8>, start: usize, cap: u64) -> (r: Option<u64>)
    requires
        start <= s@.len(),
        s@.skip(start as int).len() > 0,
        all_digits(s@.skip(start as int)),
        cap >= 9,
    ensures
        match r {
            Some(v) => v <= cap && digits_val(s@.skip(start as int)) == v,
            None => digits_val(s@.skip(start as int)) > cap,
        },
{
    let ghost body = s@.skip(start as int);
    let mut acc: u64 = 0;
    let mut i: usize = start;
    while i < s.len()
        invariant
            start <= i <= s@.len(),
            body == s@.skip(start as int),
            all_digits(body),
            cap >= 9,
            acc <= cap,
            acc == digits_val(body.take(i - start)),
        decreases s.len() - i,
    {
        let b = s[i];
        proof {
            assert(body[i - start] == s@[i as int]);
            assert(is_digit(body[i - start]));
            assert(body.take(i - start + 1).drop_last() =~= body.take(i - start));
            assert(body.take(i - start + 1).last() == s@[i as int]);
            assert(48 <= b && b <= 57);
        }
        let d: u64 = (b - 48) as u64;
        if acc > (cap - d) / 10 {
            proof {
                let j = i - start;
                assert(acc * 10 + d > cap) by (nonlinear_arith)
                    requires
                        acc > (cap - d) / 10,
                        0 <= d <= 9,
                        d <= cap,
                        acc >= 0,
                        cap >= 9,
                {}
                assert(digits_val(body.take(j + 1)) > cap);
                lemma_digits_val_mono(body, j + 1);
            }
            return None;
        }
        proof {
            assert(acc * 10 + d <= cap) by (nonlinear_arith)
                requires
                    acc <= (cap - d) / 10,
                    0 <= d <= 9,
                    d <= cap,
                    acc >= 0,
                    cap >= 9,
            {}
        }
        acc = acc * 10 + d;
        i += 1;
    }
    proof {
        assert(body.take(s@.len() - start) =~= body);
    }
    Some(acc)
}

/// Checks that every byte of `s[start..]` is a decimal digit.
fn check_digits(s: &Vec<u8>, start: usize) -> (r: bool)
    requires
        start <= s@.len(),
    ensures
        r == all_digits(s@.skip(start as int)),
{
    let ghost body = s@.skip(start as int);
    let mut i: usize = start;
    while i < s.len()
        invariant
            start <= i <= s@.len(),
            body == s@.skip(start as int),
            forall|j: int| 0 <= j < i - start ==> is_digit(#[trigger] body[j]),
        decreases s.len() - i,
    {
        if !digit_checked(s[i]) {
            proof {
                assert(body[i - start] == s@[i as int]);
            }
            return false;
        }
        proof {
            assert(body[i - start] == s@[i as int]);
        }
        i += 1;
    }
    true
}

/// Reads a decimal `usize` exactly as `str::parse::<usize>` does.
pub fn parse_usize(s: &Vec<u8>) -> (r: Option<usize>)
    ensures
        match r {
            Some(v) => parse_usize_sp(s@) == Some(v as int),
            None => parse_usize_sp(s@) is None,
        },
{
    let start: usize = if s.len() > 0 && s[0] == '+' as u8 {
        1
    } else {
        0
    };
    proof {
        assert(uint_body(s@) =~= s@.skip(start as int));
    }
    if s.len() == start {
        return None;
    }
    if !check_digits(s, start) {
        return None;
    }
    match digits_to_val(s, start, usize::MAX as u64) {
        Some(v) => Some(v as usize),
        None => None,
    }
}

/// Reads a decimal `i32` exactly as `str::parse::<i32>` does.
pub fn parse_i32(s: &Vec<u8>) -> (r: Option<i32>)
    ensures
        match r {
            Some(v) => parse_i32_sp(s@) == Some(v as int),
            None => parse_i32_sp(s@) is None,
        },
{
    let neg = s.len() > 0 && s[0] == '-' as u8;
    let start: usize = if s.len() > 0 && (s[0] == '+' as u8 || s[0] == '-' as u8) {
        1
    } else {
        0
    };
    proof {
        assert(int_body(s@) =~= s@.skip(start as int));
    }
    if s.len() == start {
        return None;
    }
    if !check_digits(s, start) {
        return None;
    }
    match digits_to_val(s, start, 0x8000_0000) {
        Some(v) => {
            if neg {
                if v == 0x8000_0000 {
                    Some(i32::MIN)
                } else {
                    Some(-(v as i32))
                }
            } else {
                if v <= 0x7fff_ffff {
                    Some(v as i32)
                } else {
                    None
                }
            }
        },
        None => None,
    }
}

/// The decimal digits of a nonnegative value.
pub open spec fn udec_sp(n: int) -> Seq<u8>
    decreases n,
{
    if n < 10 {
        seq![(n + ('0' as u8)) as u8]
    } else {
        udec_sp(n / 10).push((n % 10 + ('0' as u8)) as u8)
    }
}

/// The decimal form of a signed value, as integer `Display` writes it.
pub open spec fn idec_sp(v: int) -> Seq<u8> {
    if v < 0 {
        seq![('-' as u8) as u8] + udec_sp(-v)
    } else {
        udec_sp(v)
    }
}

/// Writes a value in decimal, exactly as `i32`'s `to_string` does.
pub fn format_i32(v: i32) -> (r: Vec<u8>)
    ensures
        r@ == idec_sp(v as int),
{
    let neg = v < 0;
    let m0: u64 = if neg {
        (-(v as i64)) as u64
    } else {
        v as u64
    };
    let mut m: u64 = m0;
    let mut digits: Vec<u8> = Vec::new();
    while m >= 10
        invariant
            m >= 0,
            udec_sp(m0 as int) =~= udec_sp(m as int) + digits@.reverse(),
        decreases m,
    {
        let ghost prev = digits@;
        let d: u8 = (m % 10) as u8 + 48;
        digits.push(d);
        proof {
            assert(digits@.reverse() =~= seq![d] + prev.reverse());
            assert(udec_sp(m as int) =~= udec_sp(m as int / 10).push(d));
            assert(udec_sp(m as int / 10) + digits@.reverse() =~= udec_sp(m as int)
                + prev.reverse());
        }
        m = m / 10;
    }
    let mut out: Vec<u8> = Vec::new();
    if neg {
        out.push('-' as u8);
    }
    out.push(m as u8 + 48);
    let ghost head = out@;
    proof {
        assert(head + digits@.subrange(digits@.len() as int, digits@.len() as int).reverse()
            =~= head);
    }
    let mut j: usize = digits.len();
    while j > 0
        invariant
            0 <= j <= digits@.len(),
            out@ =~= head + digits@.subrange(j as int, digits@.len() as int).reverse(),
        decreases j,
    {
        j -= 1;
        out.push(digits[j]);
        proof {
            assert(out@ =~= head + digits@.subrange(j as int, digits@.len() as int).reverse());
        }
    }
    proof {
        assert(digits@.subrange(0, digits@.len() as int) =~= digits@);
        assert(out@ =~= head + digits@.reverse());
        if neg {
            assert(m0 == -(v as int));
            assert(head =~= seq![('-' as u8) as u8, (m as int + ('0' as u8)) as u8]);
            assert(seq![('-' as u8) as u8] + udec_sp(m0 as int) =~= seq![('-' as u8) as u8] + (
            udec_sp(m as int) + digits@.reverse()));
            assert(out@ =~= seq![('-' as u8) as u8] + udec_sp(m0 as int));
        } else {
            assert(out@ =~= udec_sp(m0 as int));
        }
    }
    out
}

} // verus!
