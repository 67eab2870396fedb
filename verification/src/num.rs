//! Fixed-point parsing of decimal price and size strings.
//!
//! A feed value such as `"123.45"` is parsed into an unsigned integer
//! holding the value in hundred-millionths (eight fractional digits),
//! so that prices are exact, totally ordered, and never "not-a-number".
//! A malformed or oversized string parses to nothing, and the caller
//! drops the offending level rather than defaulting it.

use vstd::prelude::*;

verus! {

/// The character is an ASCII decimal digit.
pub open spec fn is_dec_digit(c: char) -> bool {
    48 <= c as int && c as int <= 57
}

/// The numeric value of one ASCII decimal digit.
pub open spec fn digit_val(c: char) -> int {
    c as int - 48
}

/// Every character of the sequence is an ASCII decimal digit.
pub open spec fn all_digits(s: Seq<char>) -> bool {
    forall|i: int| 0 <= i < s.len() ==> is_dec_digit(s[i])
}

/// The value of a digit string read most-significant first.
pub open spec fn digits_value(s: Seq<char>) -> int
    decreases s.len(),
{
    if s.len() == 0 {
        0
    } else {
        digits_value(s.drop_last()) * 10 + digit_val(s.last())
    }
}

/// Ten to the given power.
pub open spec fn pow10(n: nat) -> int
    decreases n,
{
    if n == 0 {
        1
    } else {
        10 * pow10((n - 1) as nat)
    }
}

/// The string has exactly one decimal point, at this index: digits on
/// both sides, at least one character besides the point, and at most
/// eight fractional digits.
pub open spec fn dot_at(s: Seq<char>, i: int) -> bool {
    &&& 0 <= i < s.len()
    &&& s[i] == '.'
    &&& all_digits(s.take(i))
    &&& all_digits(s.skip(i + 1))
    &&& s.len() >= 2
    &&& s.len() - i - 1 <= 8
}

/// The string is a well-formed unsigned decimal: either all digits, or
/// digits around a single decimal point with at most eight fractional
/// digits.
pub open spec fn valid_decimal(s: Seq<char>) -> bool {
    (s.len() > 0 && all_digits(s)) || (exists|i: int| dot_at(s, i))
}

/// The value of a well-formed decimal string in hundred-millionths.
pub open spec fn decimal_value(s: Seq<char>) -> int {
    if all_digits(s) {
        digits_value(s) * pow10(8)
    } else {
        let i = choose|i: int| dot_at(s, i);
        digits_value(s.take(i)) * pow10(8) + digits_value(s.skip(i + 1)) * pow10(
            (8 - (s.len() - i - 1)) as nat,
        )
    }
}

/// A string holds at most one decimal point satisfying `dot_at`.
proof fn lemma_dot_unique(s: Seq<char>, i: int, j: int)
    requires
        dot_at(s, i),
        dot_at(s, j),
    ensures
        i == j,
{
    if i < j {
        assert(s.skip(i + 1)[j - i - 1] == s[j]);
        assert(is_dec_digit(s[j]));
        assert(s[j] as int == 46);
    }
    if j < i {
        assert(s.skip(j + 1)[i - j - 1] == s[i]);
        assert(is_dec_digit(s[i]));
        assert(s[i] as int == 46);
    }
}

/// Ten to a power is positive.
proof fn lemma_pow10_pos(n: nat)
    ensures
        pow10(n) >= 1,
    decreases n,
{
    if n > 0 {
        lemma_pow10_pos((n - 1) as nat);
    }
}

/// Powers of ten multiply by adding exponents.
proof fn lemma_pow10_add(a: nat, b: nat)
    ensures
        pow10(a + b) == pow10(a) * pow10(b),
    decreases a,
{
    if a == 0 {
    } else {
        lemma_pow10_add((a - 1) as nat, b);
        assert(pow10(a + b) == 10 * pow10((a - 1) as nat + b));
        assert(10 * (pow10((a - 1) as nat) * pow10(b)) == (10 * pow10((a - 1) as nat)) * pow10(b))
            by (nonlinear_arith);
    }
}

/// The value of a digit string is non-negative.
proof fn lemma_digits_value_nonneg(s: Seq<char>)
    requires
        all_digits(s),
    ensures
        digits_value(s) >= 0,
    decreases s.len(),
{
    if s.len() > 0 {
        assert(all_digits(s.drop_last()));
        lemma_digits_value_nonneg(s.drop_last());
        assert(is_dec_digit(s.last()));
    }
}

/// A digit string is worth at least any of its prefixes.
proof fn lemma_digits_value_prefix(s: Seq<char>, j: int)
    requires
        all_digits(s),
        0 <= j <= s.len(),
    ensures
        digits_value(s.take(j)) <= digits_value(s),
    decreases s.len(),
{
    if j == s.len() {
        assert(s.take(j) =~= s);
    } else {
        let t = s.drop_last();
        assert(all_digits(t));
        assert(t.take(j) =~= s.take(j));
        lemma_digits_value_prefix(t, j);
        lemma_digits_value_nonneg(t);
        assert(is_dec_digit(s.last()));
        assert(digits_value(s) == digits_value(t) * 10 + digit_val(s.last()));
        assert(digits_value(t) * 10 >= digits_value(t)) by (nonlinear_arith)
            requires
                digits_value(t) >= 0,
        ;
    }
}

/// Appending one digit multiplies the value by ten and adds the digit.
proof fn lemma_digits_value_step(s: Seq<char>, j: int)
    requires
        0 <= j < s.len(),
    ensures
        digits_value(s.take(j + 1)) == digits_value(s.take(j)) * 10 + digit_val(s[j]),
{
    assert(s.take(j + 1).drop_last() =~= s.take(j));
    assert(s.take(j + 1).last() == s[j]);
}

/// Parse an unsigned decimal string into hundred-millionths.
///
/// Returns a value exactly when the string is a well-formed decimal
/// (`valid_decimal`) whose scaled value fits in a `u64`; the returned
/// integer is then exactly `decimal_value` of the string.
pub fn parse_fixed8(s: &str) -> (r: Option<u64>)
    ensures
        r is Some <==> valid_decimal(s@) && decimal_value(s@) <= u64::MAX,
        r matches Some(v) ==> v as int == decimal_value(s@),
{
    let n = s.unicode_len();
    if n == 0 {
        assert(!valid_decimal(s@));
        return None;
    }
    // Scan: locate the decimal point, require digits everywhere else.
    let mut dot: usize = n;
    let mut k: usize = 0;
    while k < n
        invariant
            n == s@.len(),
            k <= n,
            dot <= n,
            dot < n ==> dot < k && s@[dot as int] == '.',
            dot == n ==> forall|i: int| 0 <= i < k ==> is_dec_digit(s@[i]),
            dot < n ==> forall|i: int| 0 <= i < k && i != dot ==> is_dec_digit(s@[i]),
        decreases n - k,
    {
        let c = s.get_char(k);
        let cu = c as u32;
        if cu == 46 {
            if dot < n {
                proof {
                    assert(s@[dot as int] as int == 46);
                    assert(!is_dec_digit(s@[dot as int]));
                    assert(!all_digits(s@));
                    assert forall|j: int| !dot_at(s@, j) by {
                        if dot_at(s@, j) {
                            if j != dot {
                                if (dot as int) < j {
                                    assert(s@.take(j)[dot as int] == s@[dot as int]);
                                } else {
                                    assert(s@.skip(j + 1)[dot - j - 1] == s@[dot as int]);
                                }
                                assert(is_dec_digit(s@[dot as int]));
                            } else {
                                assert(s@[k as int] as int == 46);
                                if j < k {
                                    assert(s@.skip(j + 1)[k - j - 1] == s@[k as int]);
                                    assert(is_dec_digit(s@[k as int]));
                                }
                            }
                        }
                    }
                }
                return None;
            }
            dot = k;
        } else if cu < 48 || cu > 57 {
            proof {
                assert(!is_dec_digit(s@[k as int]));
                assert(s@[k as int] as int != 46);
                assert(!all_digits(s@));
                assert forall|j: int| !dot_at(s@, j) by {
                    if dot_at(s@, j) {
                        if j == k {
                            assert(s@[j] == '.');
                            assert(s@[j] as int == 46);
                        } else if (k as int) < j {
                            assert(s@.take(j)[k as int] == s@[k as int]);
                            assert(is_dec_digit(s@[k as int]));
                        } else {
                            assert(s@.skip(j + 1)[k - j - 1] == s@[k as int]);
                            assert(is_dec_digit(s@[k as int]));
                        }
                    }
                }
            }
            return None;
        }
        k += 1;
    }
    // Shape checks around the decimal point.
    let frac_len: usize = if dot == n {
        0
    } else {
        n - dot - 1
    };
    if dot < n && (n < 2 || frac_len > 8) {
        proof {
            assert(s@[dot as int] as int == 46);
            assert(!is_dec_digit(s@[dot as int]));
            assert(!all_digits(s@));
            assert forall|j: int| !dot_at(s@, j) by {
                if dot_at(s@, j) {
                    if j != dot {
                        if (dot as int) < j {
                            assert(s@.take(j)[dot as int] == s@[dot as int]);
                        } else {
                            assert(s@.skip(j + 1)[dot - j - 1] == s@[dot as int]);
                        }
                        assert(is_dec_digit(s@[dot as int]));
                    }
                }
            }
        }
        return None;
    }
    proof {
        if dot == n {
            assert(all_digits(s@));
            assert(valid_decimal(s@));
        } else {
            assert(all_digits(s@.take(dot as int)));
            assert(all_digits(s@.skip(dot + 1)));
            assert(dot_at(s@, dot as int));
            assert(valid_decimal(s@));
            assert(!is_dec_digit(s@[dot as int]));
            assert(!all_digits(s@));
        }
    }
    let int_end: usize = if dot == n {
        n
    } else {
        dot
    };
    let ghost ip = s@.take(int_end as int);
    let ghost fr = s@.skip(dot + 1);
    // Accumulate the integer part.
    let mut acc: u128 = 0;
    let mut k2: usize = 0;
    proof {
        assert(ip.take(0) =~= Seq::<char>::empty());
    }
    while k2 < int_end
        invariant
            n == s@.len(),
            int_end <= n,
            dot == n || (dot < n && int_end == dot && s@[dot as int] == '.'),
            dot == n ==> int_end == n && all_digits(s@),
            dot < n ==> dot_at(s@, dot as int) && !all_digits(s@),
            ip == s@.take(int_end as int),
            fr == s@.skip(dot + 1),
            all_digits(ip),
            k2 <= int_end,
            acc == digits_value(ip.take(k2 as int)),
            acc <= u64::MAX,
        decreases int_end - k2,
    {
        let c = s.get_char(k2);
        let cu = c as u32;
        proof {
            assert(ip[k2 as int] == s@[k2 as int]);
            assert(is_dec_digit(s@[k2 as int]));
            lemma_digits_value_step(ip, k2 as int);
        }
        acc = acc * 10 + (cu - 48) as u128;
        if acc > u64::MAX as u128 {
            proof {
                lemma_digits_value_prefix(ip, k2 + 1);
                lemma_digits_value_nonneg(ip.take(k2 + 1));
                lemma_pow10_pos(8);
                assert(digits_value(ip) > u64::MAX);
                assert(digits_value(ip) * pow10(8) >= digits_value(ip)) by (nonlinear_arith)
                    requires
                        digits_value(ip) >= 0,
                        pow10(8) >= 1,
                ;
                if dot == n {
                    assert(ip =~= s@);
                    assert(decimal_value(s@) > u64::MAX);
                } else {
                    let j = choose|j: int| dot_at(s@, j);
                    lemma_dot_unique(s@, j, dot as int);
                    let fl = (n - dot - 1) as nat;
                    assert(all_digits(fr));
                    lemma_digits_value_nonneg(fr);
                    lemma_pow10_pos((8 - fl) as nat);
                    assert(digits_value(fr) * pow10((8 - fl) as nat) >= 0) by (nonlinear_arith)
                        requires
                            digits_value(fr) >= 0,
                            pow10((8 - fl) as nat) >= 1,
                    ;
                    assert(decimal_value(s@) == digits_value(ip) * pow10(8) + digits_value(fr)
                        * pow10((8 - fl) as nat));
                    assert(decimal_value(s@) > u64::MAX);
                }
            }
            return None;
        }
        k2 += 1;
    }
    proof {
        assert(ip.take(int_end as int) =~= ip);
    }
    // Accumulate the fractional part.
    if dot < n {
        let mut k3: usize = dot + 1;
        proof {
            assert(fr.take(0) =~= Seq::<char>::empty());
            assert(acc * 1 == acc);
        }
        while k3 < n
            invariant
                n == s@.len(),
                dot < n,
                dot_at(s@, dot as int),
                !all_digits(s@),
                ip == s@.take(dot as int),
                fr == s@.skip(dot + 1),
                all_digits(ip),
                all_digits(fr),
                fr.len() == n - dot - 1 <= 8,
                dot + 1 <= k3 <= n,
                acc == digits_value(ip) * pow10((k3 - dot - 1) as nat) + digits_value(
                    fr.take(k3 - dot - 1),
                ),
                acc <= u64::MAX,
            decreases n - k3,
        {
            let c = s.get_char(k3);
            let cu = c as u32;
            let ghost j = k3 - dot - 1;
            proof {
                assert(fr[j as int] == s@[k3 as int]);
                assert(is_dec_digit(s@[k3 as int]));
                lemma_digits_value_step(fr, j as int);
                lemma_digits_value_nonneg(ip);
                lemma_pow10_pos(j as nat);
                assert((digits_value(ip) * pow10(j as nat)) * 10 == digits_value(ip) * (pow10(
                    j as nat,
                ) * 10)) by (nonlinear_arith);
                assert(pow10((j + 1) as nat) == 10 * pow10(j as nat));
            }
            acc = acc * 10 + (cu - 48) as u128;
            if acc > u64::MAX as u128 {
                proof {
                    let fl = (n - dot - 1) as nat;
                    let part = digits_value(ip) * pow10((j + 1) as nat) + digits_value(
                        fr.take(j + 1),
                    );
                    assert(part > u64::MAX);
                    lemma_digits_value_prefix(fr, j + 1);
                    lemma_digits_value_nonneg(fr.take(j + 1));
                    lemma_digits_value_nonneg(fr);
                    lemma_pow10_pos(fl);
                    lemma_pow10_pos((fl - (j + 1)) as nat);
                    lemma_pow10_add(((j + 1)) as nat, (fl - (j + 1)) as nat);
                    assert(pow10(fl) == pow10((j + 1) as nat) * pow10((fl - (j + 1)) as nat));
                    assert(digits_value(ip) * pow10(fl) >= digits_value(ip) * pow10(
                        (j + 1) as nat,
                    )) by (nonlinear_arith)
                        requires
                            digits_value(ip) >= 0,
                            pow10(fl) == pow10((j + 1) as nat) * pow10((fl - (j + 1)) as nat),
                            pow10((j + 1) as nat) >= 1,
                            pow10((fl - (j + 1)) as nat) >= 1,
                    ;
                    let full = digits_value(ip) * pow10(fl) + digits_value(fr);
                    assert(full > u64::MAX);
                    let rest = (8 - fl) as nat;
                    lemma_pow10_pos(rest);
                    lemma_pow10_add(fl, rest);
                    let jd = choose|jd: int| dot_at(s@, jd);
                    lemma_dot_unique(s@, jd, dot as int);
                    assert(decimal_value(s@) == digits_value(ip) * pow10(8) + digits_value(fr)
                        * pow10(rest));
                    assert(digits_value(ip) * pow10(8) + digits_value(fr) * pow10(rest) == (
                    digits_value(ip) * pow10(fl) + digits_value(fr)) * pow10(rest))
                        by (nonlinear_arith)
                        requires
                            pow10(8) == pow10(fl) * pow10(rest),
                    ;
                    assert(full * pow10(rest) >= full) by (nonlinear_arith)
                        requires
                            full > 0,
                            pow10(rest) >= 1,
                    ;
                    assert(decimal_value(s@) > u64::MAX);
                }
                return None;
            }
            k3 += 1;
        }
        proof {
            assert(fr.take(n - dot - 1) =~= fr);
        }
    }
    // Scale up to eight fractional digits.
    let mut have: usize = frac_len;
    proof {
        if dot == n {
            assert(ip =~= s@);
            assert(acc * 1 == acc);
            assert(acc == digits_value(s@) * pow10(0));
        }
    }
    let ghost base = if dot == n {
        digits_value(s@)
    } else {
        digits_value(ip) * pow10((n - dot - 1) as nat) + digits_value(fr)
    };
    while have < 8
        invariant
            n == s@.len(),
            n > 0,
            dot <= n,
            dot == n ==> all_digits(s@) && frac_len == 0 && base == digits_value(s@),
            dot < n ==> dot_at(s@, dot as int) && !all_digits(s@) && frac_len == n - dot - 1
                && ip == s@.take(dot as int) && fr == s@.skip(dot + 1) && all_digits(ip)
                && all_digits(fr) && base == digits_value(ip) * pow10((n - dot - 1) as nat)
                + digits_value(fr),
            frac_len <= have <= 8,
            acc == base * pow10((have - frac_len) as nat),
            base >= 0,
            acc <= u64::MAX,
        decreases 8 - have,
    {
        proof {
            assert((base * pow10((have - frac_len) as nat)) * 10 == base * (pow10(
                (have - frac_len) as nat,
            ) * 10)) by (nonlinear_arith);
            assert(pow10((have + 1 - frac_len) as nat) == 10 * pow10((have - frac_len) as nat));
        }
        acc = acc * 10;
        if acc > u64::MAX as u128 {
            proof {
                let done = (have + 1 - frac_len) as nat;
                let rest = (8 - have - 1) as nat;
                lemma_pow10_pos(done);
                lemma_pow10_pos(rest);
                lemma_pow10_add(done, rest);
                assert(base * pow10((8 - frac_len) as nat) == (base * pow10(done)) * pow10(rest))
                    by (nonlinear_arith)
                    requires
                        pow10((8 - frac_len) as nat) == pow10(done) * pow10(rest),
                ;
                assert((base * pow10(done)) * pow10(rest) >= base * pow10(done))
                    by (nonlinear_arith)
                    requires
                        base * pow10(done) > 0,
                        pow10(rest) >= 1,
                ;
                if dot == n {
                    assert(decimal_value(s@) == base * pow10(8));
                    assert(decimal_value(s@) > u64::MAX);
                } else {
                    let fl = (n - dot - 1) as nat;
                    let rest2 = (8 - fl) as nat;
                    lemma_pow10_pos(rest2);
                    lemma_pow10_add(fl, rest2);
                    let jd = choose|jd: int| dot_at(s@, jd);
                    lemma_dot_unique(s@, jd, dot as int);
                    assert(decimal_value(s@) == digits_value(ip) * pow10(8) + digits_value(fr)
                        * pow10(rest2));
                    assert(digits_value(ip) * pow10(8) + digits_value(fr) * pow10(rest2) == (
                    digits_value(ip) * pow10(fl) + digits_value(fr)) * pow10(rest2))
                        by (nonlinear_arith)
                        requires
                            pow10(8) == pow10(fl) * pow10(rest2),
                    ;
                    assert(decimal_value(s@) == base * pow10(rest2));
                    assert(frac_len == fl);
                    assert(decimal_value(s@) > u64::MAX);
                }
            }
            return None;
        }
        have += 1;
    }
    proof {
        if dot == n {
            assert(decimal_value(s@) == base * pow10(8));
            assert((8 - frac_len) as nat == 8);
        } else {
            let fl = (n - dot - 1) as nat;
            let rest2 = (8 - fl) as nat;
            lemma_pow10_pos(rest2);
            lemma_pow10_add(fl, rest2);
            let jd = choose|jd: int| dot_at(s@, jd);
            lemma_dot_unique(s@, jd, dot as int);
            assert(decimal_value(s@) == digits_value(ip) * pow10(8) + digits_value(fr) * pow10(
                rest2,
            ));
            assert(digits_value(ip) * pow10(8) + digits_value(fr) * pow10(rest2) == (digits_value(
                ip,
            ) * pow10(fl) + digits_value(fr)) * pow10(rest2)) by (nonlinear_arith)
                requires
                    pow10(8) == pow10(fl) * pow10(rest2),
            ;
            assert(decimal_value(s@) == base * pow10(rest2));
            assert(frac_len == fl);
        }
        assert(decimal_value(s@) == acc as int);
    }
    Some(acc as u64)
}

} // verus!
