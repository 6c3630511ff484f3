use vstd::prelude::*;

verus! {

/// Number of fractional decimal digits a price value keeps.
pub const PRICE_SCALE_DIGITS: u32 = 6;

/// `10 ^ PRICE_SCALE_DIGITS`: one currency unit in mantissa steps.
pub const PRICE_SCALE: u64 = 1000000;

/// A fixed-point decimal price: the represented value is
/// `mantissa / 10^PRICE_SCALE_DIGITS` currency units. Fixed-point avoids the
/// rounding drift a binary float would introduce on currency amounts.
#[derive(Debug, Clone, Copy, PartialEq, Eq, Structural)]
pub struct FixedDecimal {
    pub mantissa: i64,
}

impl FixedDecimal {
    /// The zero price, also the substitute for malformed provider values.
    pub fn zero() -> (r: FixedDecimal)
        ensures
            r.mantissa == 0,
    {
        FixedDecimal { mantissa: 0 }
    }

    /// The price worth `units` whole currency units.
    pub fn from_int(units: i64) -> (r: FixedDecimal)
        requires
            -9223372036854 <= units <= 9223372036854,
        ensures
            r.mantissa == units * 1000000,
    {
        FixedDecimal { mantissa: units * 1000000 }
    }
}

pub open spec fn is_dec_digit(c: char) -> bool {
    ('0' as u32) <= (c as u32) && (c as u32) <= ('9' as u32)
}

pub open spec fn digit_val(c: char) -> int {
    (c as u32) - ('0' as u32)
}

pub open spec fn all_digits(s: Seq<char>) -> bool {
    forall|i: int| 0 <= i < s.len() ==> is_dec_digit(#[trigger] s[i])
}

/// The integer denoted by a sequence of decimal digits, most significant
/// first. The empty sequence denotes zero.
pub open spec fn digits_val(s: Seq<char>) -> int
    decreases s.len(),
{
    if s.len() == 0 {
        0
    } else {
        digits_val(s.drop_last()) * 10 + digit_val(s.last())
    }
}

pub open spec fn pow10(n: nat) -> int
    decreases n,
{
    if n == 0 {
        1
    } else {
        10 * pow10((n - 1) as nat)
    }
}

/// Splits a character sequence at its first `'.'`: the part before it, and,
/// if a dot occurs at all, the part after it.
pub open spec fn split_at_dot(s: Seq<char>) -> (Seq<char>, Option<Seq<char>>)
    decreases s.len(),
{
    if s.len() == 0 {
        (Seq::<char>::empty(), None)
    } else if s[0] == '.' {
        (Seq::<char>::empty(), Some(s.skip(1)))
    } else {
        let r = split_at_dot(s.skip(1));
        (seq![s[0]] + r.0, r.1)
    }
}

/// The mantissa contributed by the fractional digit string `fp`: its first
/// `PRICE_SCALE_DIGITS` digits, right-padded with zeros; further digits are
/// truncated.
pub open spec fn frac_mantissa(fp: Seq<char>) -> int {
    if fp.len() >= PRICE_SCALE_DIGITS {
        digits_val(fp.take(PRICE_SCALE_DIGITS as int))
    } else {
        digits_val(fp) * pow10((PRICE_SCALE_DIGITS - fp.len()) as nat)
    }
}

/// The exact scaled value denoted by a decimal numeral
/// `[-] digits [. digits]`, or `None` where the text is not of that shape.
pub open spec fn decimal_value(s: Seq<char>) -> Option<int> {
    let neg = s.len() > 0 && s[0] == '-';
    let body = if neg {
        s.skip(1)
    } else {
        s
    };
    let sp = split_at_dot(body);
    let well_formed = sp.0.len() >= 1 && all_digits(sp.0) && (match sp.1 {
        None => true,
        Some(fp) => fp.len() >= 1 && all_digits(fp),
    });
    if well_formed {
        let frac = match sp.1 {
            None => 0,
            Some(fp) => frac_mantissa(fp),
        };
        let mag = digits_val(sp.0) * (PRICE_SCALE as int) + frac;
        Some(
            if neg {
                -mag
            } else {
                mag
            },
        )
    } else {
        None
    }
}

/// What [`parse_fixed_decimal`] returns: the denoted value where the text is
/// a well-formed numeral whose mantissa fits the symmetric `i64` range,
/// `None` otherwise.
pub open spec fn parse_result(s: Seq<char>) -> Option<FixedDecimal> {
    match decimal_value(s) {
        None => None,
        Some(v) => if -(i64::MAX as int) <= v <= (i64::MAX as int) {
            Some(FixedDecimal { mantissa: v as i64 })
        } else {
            None
        },
    }
}

proof fn lemma_digits_val_nonneg(s: Seq<char>)
    requires
        all_digits(s),
    ensures
        digits_val(s) >= 0,
    decreases s.len(),
{
    if s.len() > 0 {
        assert(all_digits(s.drop_last()));
        lemma_digits_val_nonneg(s.drop_last());
    }
}

/// A digit string denotes at least as much as any of its prefixes.
proof fn lemma_digits_val_prefix_bound(s: Seq<char>, q: int)
    requires
        all_digits(s),
        0 <= q <= s.len(),
    ensures
        digits_val(s) >= digits_val(s.take(q)),
    decreases s.len() - q,
{
    if q < s.len() {
        let t = s.take(q + 1);
        assert(t.drop_last() =~= s.take(q));
        assert(all_digits(s.take(q + 1)));
        assert(all_digits(s.take(q)));
        lemma_digits_val_nonneg(s.take(q));
        assert(digits_val(t) == digits_val(s.take(q)) * 10 + digit_val(s[q]));
        assert(digits_val(s.take(q)) * 10 >= digits_val(s.take(q))) by {
            vstd::arithmetic::mul::lemma_mul_inequality(1, 10, digits_val(s.take(q)));
        }
        lemma_digits_val_prefix_bound(s, q + 1);
    } else {
        assert(s.take(q) =~= s);
    }
}

/// A sequence without any dot splits into itself and no fractional part.
proof fn lemma_split_no_dot(s: Seq<char>)
    requires
        forall|k: int| 0 <= k < s.len() ==> s[k] != '.',
    ensures
        split_at_dot(s).0 =~= s,
        split_at_dot(s).1 is None,
    decreases s.len(),
{
    if s.len() > 0 {
        assert(forall|k: int| 0 <= k < s.skip(1).len() ==> s.skip(1)[k] != '.');
        lemma_split_no_dot(s.skip(1));
    }
}

/// A sequence whose first dot stands at `p` splits into the part before `p`
/// and the part after it.
proof fn lemma_split_dot_at(s: Seq<char>, p: int)
    requires
        0 <= p < s.len(),
        s[p] == '.',
        forall|k: int| 0 <= k < p ==> s[k] != '.',
    ensures
        split_at_dot(s).0 =~= s.take(p),
        split_at_dot(s).1 == Some(s.skip(p + 1)),
    decreases p,
{
    if p == 0 {
        assert(split_at_dot(s).0 =~= s.take(0));
    } else {
        lemma_split_dot_at(s.skip(1), p - 1);
        assert(split_at_dot(s).0 =~= seq![s[0]] + s.skip(1).take(p - 1));
        assert(seq![s[0]] + s.skip(1).take(p - 1) =~= s.take(p));
        assert(s.skip(1).skip(p) =~= s.skip(p + 1));
    }
}

/// The part before the first dot agrees with the sequence itself on every
/// position that no dot precedes.
proof fn lemma_split_prefix_agrees(s: Seq<char>, q: int)
    requires
        0 <= q <= s.len(),
        forall|k: int| 0 <= k < q ==> s[k] != '.',
    ensures
        split_at_dot(s).0.len() >= q,
        forall|k: int| 0 <= k < q ==> split_at_dot(s).0[k] == s[k],
    decreases q,
{
    if q > 0 {
        assert(forall|k: int| 0 <= k < q - 1 ==> #[trigger] s.skip(1)[k] != '.');
        lemma_split_prefix_agrees(s.skip(1), q - 1);
        let sp = split_at_dot(s).0;
        let sub = split_at_dot(s.skip(1)).0;
        assert(sp =~= seq![s[0]] + sub);
        assert forall|k: int| 0 <= k < q implies sp[k] == s[k] by {
            if k > 0 {
                assert(sp[k] == sub[k - 1]);
                assert(sub[k - 1] == s.skip(1)[k - 1]);
            }
        }
    }
}

proof fn lemma_pow10_pos(n: nat)
    ensures
        pow10(n) >= 1,
    decreases n,
{
    if n > 0 {
        lemma_pow10_pos((n - 1) as nat);
    }
}

proof fn lemma_pow10_adds(a: nat, b: nat)
    ensures
        pow10(a) * pow10(b) == pow10(a + b),
    decreases a,
{
    if a == 0 {
        assert(pow10(0) == 1);
    } else {
        lemma_pow10_adds((a - 1) as nat, b);
        vstd::arithmetic::mul::lemma_mul_is_associative(10, pow10((a - 1) as nat), pow10(b));
    }
}

proof fn lemma_digits_val_upper(s: Seq<char>)
    requires
        all_digits(s),
    ensures
        digits_val(s) < pow10(s.len()),
    decreases s.len(),
{
    if s.len() == 0 {
    } else {
        assert(all_digits(s.drop_last()));
        lemma_digits_val_upper(s.drop_last());
        lemma_digits_val_nonneg(s.drop_last());
        let dl = digits_val(s.drop_last());
        let p = pow10((s.len() - 1) as nat);
        assert(dl <= p - 1);
        assert(dl * 10 <= (p - 1) * 10) by (nonlinear_arith)
            requires
                dl <= p - 1,
        ;
        assert((p - 1) * 10 == 10 * p - 10) by (nonlinear_arith);
        assert(pow10(s.len()) == 10 * p);
    }
}

/// The fractional mantissa of a digit string is a proper fraction of one
/// currency unit.
proof fn lemma_frac_mantissa_bounds(fp: Seq<char>)
    requires
        all_digits(fp),
    ensures
        0 <= frac_mantissa(fp) < 1000000,
{
    assert(pow10(0) == 1);
    assert(pow10(1) == 10);
    assert(pow10(2) == 100);
    assert(pow10(3) == 1000);
    assert(pow10(4) == 10000);
    assert(pow10(5) == 100000);
    assert(pow10(6) == 1000000);
    if fp.len() >= PRICE_SCALE_DIGITS {
        let t = fp.take(PRICE_SCALE_DIGITS as int);
        assert(all_digits(t));
        lemma_digits_val_upper(t);
        lemma_digits_val_nonneg(t);
    } else {
        let a = fp.len();
        let b = (PRICE_SCALE_DIGITS - a) as nat;
        lemma_digits_val_upper(fp);
        lemma_digits_val_nonneg(fp);
        lemma_pow10_adds(a, b);
        lemma_pow10_pos(b);
        lemma_pow10_pos(a);
        let dv = digits_val(fp);
        let pa = pow10(a);
        let pb = pow10(b);
        vstd::arithmetic::mul::lemma_mul_inequality(dv, pa - 1, pb);
        assert((pa - 1) * pb == pa * pb - pb) by (nonlinear_arith);
        assert(dv * pb >= 0) by (nonlinear_arith)
            requires
                dv >= 0,
                pb >= 1,
        ;
    }
}

/// `10^k` for the scales that a fractional part can need.
fn pow10_small(k: u32) -> (r: u64)
    requires
        k <= 6,
    ensures
        r as int == pow10(k as nat),
{
    proof {
        assert(pow10(0) == 1);
        assert(pow10(1) == 10);
        assert(pow10(2) == 100);
        assert(pow10(3) == 1000);
        assert(pow10(4) == 10000);
        assert(pow10(5) == 100000);
        assert(pow10(6) == 1000000);
    }
    if k == 0 {
        1
    } else if k == 1 {
        10
    } else if k == 2 {
        100
    } else if k == 3 {
        1000
    } else if k == 4 {
        10000
    } else if k == 5 {
        100000
    } else {
        1000000
    }
}

/// End of the run of decimal digits beginning at `from`.
fn digit_run_end(s: &str, from: usize) -> (e: usize)
    requires
        from <= s@.len(),
    ensures
        from <= e <= s@.len(),
        forall|k: int| from <= k < e ==> is_dec_digit(#[trigger] s@[k]),
        e < s@.len() ==> !is_dec_digit(s@[e as int]),
{
    let n = s.unicode_len();
    let mut i: usize = from;
    while i < n
        invariant
            from <= i <= n,
            n == s@.len(),
            forall|k: int| from <= k < i ==> is_dec_digit(#[trigger] s@[k]),
        ensures
            from <= i <= n,
            forall|k: int| from <= k < i ==> is_dec_digit(#[trigger] s@[k]),
            i < n ==> !is_dec_digit(s@[i as int]),
        decreases n - i,
    {
        let u = s.get_char(i) as u32;
        if u < 48 || u > 57 {
            break;
        }
        i += 1;
    }
    i
}

/// The value of the digit run `[from, to)`, unless it exceeds `cap`.
fn digits_to_acc(s: &str, from: usize, to: usize, cap: u64) -> (r: Option<u64>)
    requires
        from <= to <= s@.len(),
        forall|k: int| from <= k < to ==> is_dec_digit(#[trigger] s@[k]),
        cap <= 1000000000000000000,
    ensures
        r matches Some(a) ==> a as int == digits_val(s@.subrange(from as int, to as int)) && a
            <= cap,
        r is None ==> digits_val(s@.subrange(from as int, to as int)) > cap,
{
    let mut acc: u64 = 0;
    let mut i: usize = from;
    while i < to
        invariant
            from <= i <= to <= s@.len(),
            forall|k: int| from <= k < to ==> is_dec_digit(#[trigger] s@[k]),
            cap <= 1000000000000000000,
            acc as int == digits_val(s@.subrange(from as int, i as int)),
            acc <= cap,
        decreases to - i,
    {
        let u = s.get_char(i) as u32;
        assert(is_dec_digit(s@[i as int]));
        let d = (u - 48) as u64;
        proof {
            let pfx = s@.subrange(from as int, i as int);
            let pfx1 = s@.subrange(from as int, i as int + 1);
            assert(pfx1.drop_last() =~= pfx);
            assert(pfx1.last() == s@[i as int]);
        }
        let next = acc * 10 + d;
        if next > cap {
            proof {
                let whole = s@.subrange(from as int, to as int);
                assert(all_digits(whole));
                lemma_digits_val_prefix_bound(whole, i as int + 1 - from as int);
                assert(whole.take(i as int + 1 - from as int) =~= s@.subrange(
                    from as int,
                    i as int + 1,
                ));
            }
            return None;
        }
        acc = next;
        i += 1;
    }
    proof {
        assert(s@.subrange(from as int, i as int) =~= s@.subrange(from as int, to as int));
    }
    Some(acc)
}

/// The scaled mantissa of the fractional digit run `[from, to)`: its first
/// `PRICE_SCALE_DIGITS` digits, right-padded with zeros.
fn frac_scaled_value(s: &str, from: usize, to: usize) -> (f: u64)
    requires
        from <= to <= s@.len(),
        forall|k: int| from <= k < to ==> is_dec_digit(#[trigger] s@[k]),
    ensures
        f as int == frac_mantissa(s@.subrange(from as int, to as int)),
        f < 1000000,
{
    let ghost fp = s@.subrange(from as int, to as int);
    proof {
        assert(all_digits(fp));
        lemma_frac_mantissa_bounds(fp);
        assert(pow10(0) == 1);
        assert(pow10(1) == 10);
        assert(pow10(2) == 100);
        assert(pow10(3) == 1000);
        assert(pow10(4) == 10000);
        assert(pow10(5) == 100000);
        assert(pow10(6) == 1000000);
    }
    let limit = if to - from >= 6 {
        from + 6
    } else {
        to
    };
    let ghost run = s@.subrange(from as int, limit as int);
    proof {
        assert(all_digits(run));
        lemma_digits_val_upper(run);
        lemma_digits_val_nonneg(run);
        if to - from >= 6 {
            assert(run =~= fp.take(PRICE_SCALE_DIGITS as int));
        } else {
            assert(run =~= fp);
        }
    }
    let base = match digits_to_acc(s, from, limit, 999999) {
        Some(a) => a,
        None => {
            proof {
                assert(false);
            }
            0
        },
    };
    if to - from >= 6 {
        base
    } else {
        let scale = pow10_small((6 - (to - from)) as u32);
        proof {
            let a = fp.len();
            let b = (PRICE_SCALE_DIGITS - a) as nat;
            lemma_pow10_adds(a, b);
            lemma_pow10_pos(b);
            lemma_pow10_pos(a);
            let dv = digits_val(fp);
            let pa = pow10(a);
            let pb = pow10(b);
            vstd::arithmetic::mul::lemma_mul_inequality(dv, pa - 1, pb);
            assert((pa - 1) * pb == pa * pb - pb) by (nonlinear_arith);
            assert(dv * pb >= 0) by (nonlinear_arith)
                requires
                    dv >= 0,
                    pb >= 1,
            ;
        }
        base * scale
    }
}

/// Parses a decimal numeral `[-] digits [. digits]` into a fixed-point
/// price, truncating fraction digits beyond the scale. Returns `None` for
/// text of any other shape — an exponent, a stray character, a missing
/// digit — and for values whose mantissa leaves the `i64` range.
#[verifier::rlimit(100)]
pub fn parse_fixed_decimal(s: &str) -> (r: Option<FixedDecimal>)
    ensures
        r == parse_result(s@),
{
    let n = s.unicode_len();
    let neg = if n > 0 {
        s.get_char(0) == '-'
    } else {
        false
    };
    let start: usize = if neg {
        1
    } else {
        0
    };
    let ghost body = if neg {
        s@.skip(1)
    } else {
        s@
    };
    proof {
        assert(body =~= s@.skip(start as int));
    }
    if start >= n {
        proof {
            lemma_split_no_dot(body);
        }
        return None;
    }
    let int_end = digit_run_end(s, start);
    let ghost q = int_end - start;
    if int_end == start {
        proof {
            if s@[start as int] == '.' {
                lemma_split_dot_at(body, 0);
            } else {
                lemma_split_prefix_agrees(body, 1);
                assert(split_at_dot(body).0[0] == body[0]);
                assert(!is_dec_digit(split_at_dot(body).0[0]));
            }
        }
        return None;
    }
    let ghost intseq = s@.subrange(start as int, int_end as int);
    proof {
        assert(intseq =~= body.take(q as int));
        assert(all_digits(intseq));
    }
    let int_acc = match digits_to_acc(s, start, int_end, 9223372036854) {
        Some(a) => a,
        None => {
            proof {
                if decimal_value(s@) is Some {
                    let sp = split_at_dot(body);
                    assert forall|k: int| 0 <= k < q implies body[k] != '.' by {
                        assert(is_dec_digit(body[k]));
                    }
                    lemma_split_prefix_agrees(body, q as int);
                    assert(sp.0.take(q as int) =~= intseq);
                    lemma_digits_val_prefix_bound(sp.0, q as int);
                    vstd::arithmetic::mul::lemma_mul_inequality(
                        9223372036855,
                        digits_val(sp.0),
                        1000000,
                    );
                    match sp.1 {
                        None => {},
                        Some(fpart) => {
                            lemma_frac_mantissa_bounds(fpart);
                        },
                    }
                }
            }
            return None;
        },
    };
    if int_end == n {
        proof {
            assert forall|k: int| 0 <= k < body.len() implies body[k] != '.' by {
                assert(is_dec_digit(body[k]));
            }
            lemma_split_no_dot(body);
            assert(body =~= intseq);
        }
        let total: u64 = int_acc * 1000000;
        let mantissa: i64 = if neg {
            -(total as i64)
        } else {
            total as i64
        };
        return Some(FixedDecimal { mantissa });
    }
    let c = s.get_char(int_end);
    if c != '.' {
        proof {
            assert forall|k: int| 0 <= k < q + 1 implies body[k] != '.' by {
                if k < q {
                    assert(is_dec_digit(body[k]));
                }
            }
            lemma_split_prefix_agrees(body, q as int + 1);
            assert(split_at_dot(body).0[q as int] == body[q as int]);
            assert(!is_dec_digit(split_at_dot(body).0[q as int]));
        }
        return None;
    }
    proof {
        assert forall|k: int| 0 <= k < q implies body[k] != '.' by {
            assert(is_dec_digit(body[k]));
        }
        lemma_split_dot_at(body, q as int);
        assert(split_at_dot(body).0 =~= intseq);
    }
    let frac_from = int_end + 1;
    let ghost fp = s@.subrange(frac_from as int, n as int);
    proof {
        assert(fp =~= body.skip(q as int + 1));
    }
    if frac_from >= n {
        return None;
    }
    let frac_end = digit_run_end(s, frac_from);
    if frac_end < n {
        proof {
            assert(fp[frac_end as int - frac_from as int] == s@[frac_end as int]);
            assert(!all_digits(fp));
        }
        return None;
    }
    proof {
        assert(forall|k: int| 0 <= k < fp.len() ==> #[trigger] fp[k] == s@[k + frac_from as int]);
        assert(all_digits(fp));
    }
    let f = frac_scaled_value(s, frac_from, n);
    let total: u64 = int_acc * 1000000 + f;
    if total > 9223372036854775807u64 {
        return None;
    }
    let mantissa: i64 = if neg {
        -(total as i64)
    } else {
        total as i64
    };
    Some(FixedDecimal { mantissa })
}

} // verus!
