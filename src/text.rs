use vstd::prelude::*;

verus! {

pub open spec fn is_digit(b: u8) -> bool {
    48 <= b <= 57
}

pub open spec fn all_digits(s: Seq<u8>) -> bool {
    forall|i: int| 0 <= i < s.len() ==> is_digit(#[trigger] s[i])
}

/// The number that a run of decimal digits spells.
pub open spec fn digits_value(s: Seq<u8>) -> nat
    decreases s.len(),
{
    if s.len() == 0 {
        0
    } else {
        digits_value(s.drop_last()) * 10 + (s.last() - 48) as nat
    }
}

/// Text of an unsigned 64-bit number: an optional `+`, then one or more digits.
pub open spec fn unsigned_text(s: Seq<u8>) -> Option<u64> {
    let body = if s.len() > 0 && s[0] == 43 { s.subrange(1, s.len() as int) } else { s };
    if body.len() > 0 && all_digits(body) && digits_value(body) <= u64::MAX {
        Some(digits_value(body) as u64)
    } else {
        None
    }
}

/// Text of a signed 64-bit number: an optional `+` or `-`, then one or more digits.
pub open spec fn signed_text(s: Seq<u8>) -> Option<i64> {
    let signed = s.len() > 0 && (s[0] == 43 || s[0] == 45);
    let body = if signed { s.subrange(1, s.len() as int) } else { s };
    let v: int = if s.len() > 0 && s[0] == 45 { -digits_value(body) } else { digits_value(body) as int };
    if body.len() > 0 && all_digits(body) && i64::MIN <= v <= i64::MAX {
        Some(v as i64)
    } else {
        None
    }
}

/// Text of a boolean: exactly `true` or `false`.
pub open spec fn bool_text(s: Seq<u8>) -> Option<bool> {
    if s == seq![116u8, 114u8, 117u8, 101u8] {
        Some(true)
    } else if s == seq![102u8, 97u8, 108u8, 115u8, 101u8] {
        Some(false)
    } else {
        None
    }
}

/// Index of the first `.` at or after `i`, or the length when there is none.
pub open spec fn find_dot(s: Seq<u8>, i: int) -> int
    decreases s.len() - i,
{
    if i >= s.len() {
        s.len() as int
    } else if s[i] == 46 {
        i
    } else {
        find_dot(s, i + 1)
    }
}

/// Text of a decimal: two unsigned runs split by exactly one `.`.
pub open spec fn decimal_text(s: Seq<u8>) -> Option<(u64, u64)> {
    let k = find_dot(s, 0);
    if k >= s.len() {
        None
    } else {
        match (unsigned_text(s.subrange(0, k)), unsigned_text(s.subrange(k + 1, s.len() as int))) {
            (Some(a), Some(b)) => Some((a, b)),
            _ => None,
        }
    }
}

/// Shortest decimal digits of `n`.
pub open spec fn decimal_digits(n: nat) -> Seq<u8>
    decreases n,
{
    if n < 10 {
        seq![(48 + n) as u8]
    } else {
        decimal_digits(n / 10).push((48 + n % 10) as u8)
    }
}

/// Text of a signed number as the encoder writes it.
pub open spec fn signed_digits(v: i64) -> Seq<u8> {
    if v < 0 {
        seq![45u8] + decimal_digits((-(v as int)) as nat)
    } else {
        decimal_digits(v as nat)
    }
}

pub proof fn lemma_digits_value_grows(s: Seq<u8>, i: int, j: int)
    requires
        0 <= i <= j <= s.len(),
        all_digits(s.subrange(0, j)),
    ensures
        digits_value(s.subrange(0, i)) <= digits_value(s.subrange(0, j)),
    decreases j - i,
{
    if i < j {
        assert(s.subrange(0, j).drop_last() =~= s.subrange(0, j - 1));
        assert(all_digits(s.subrange(0, j - 1))) by {
            assert forall|k: int| 0 <= k < j - 1 implies is_digit(#[trigger] s.subrange(0, j - 1)[k]) by {
                assert(s.subrange(0, j)[k] == s[k]);
            }
        }
        lemma_digits_value_grows(s, i, j - 1);
    }
}

pub proof fn lemma_decimal_digits(n: nat)
    ensures
        decimal_digits(n).len() > 0,
        all_digits(decimal_digits(n)),
        digits_value(decimal_digits(n)) == n,
    decreases n,
{
    if n >= 10 {
        lemma_decimal_digits(n / 10);
        let d = decimal_digits(n);
        assert(d.drop_last() =~= decimal_digits(n / 10));
        assert(d.last() - 48 == n % 10);
        assert(digits_value(d) == digits_value(decimal_digits(n / 10)) * 10 + n % 10);
        assert((n / 10) * 10 + n % 10 == n);
    } else {
        let d = decimal_digits(n);
        assert(d.drop_last() =~= Seq::<u8>::empty());
        assert(d.last() - 48 == n);
        assert(digits_value(d) == digits_value(d.drop_last()) * 10 + (d.last() - 48) as nat);
    }
}

/// Reads `s[lo..hi]` as a run of digits whose value is at most `limit`.
pub fn digit_run_value(s: &[u8], lo: usize, hi: usize, limit: u64) -> (r: Option<u64>)
    requires
        lo <= hi <= s@.len(),
    ensures
        ({
            let t = s@.subrange(lo as int, hi as int);
            r == if t.len() > 0 && all_digits(t) && digits_value(t) <= limit {
                Some(digits_value(t) as u64)
            } else {
                None::<u64>
            }
        }),
{
    let ghost t = s@.subrange(lo as int, hi as int);
    if lo == hi {
        return None;
    }
    let mut acc: u64 = 0;
    let mut i: usize = lo;
    while i < hi
        invariant
            lo <= i <= hi <= s@.len(),
            t == s@.subrange(lo as int, hi as int),
            all_digits(t.subrange(0, i - lo)),
            acc as nat == digits_value(t.subrange(0, i - lo)),
            acc <= limit,
        decreases hi - i,
    {
        let b = s[i];
        if b < 48 || b > 57 {
            assert(!is_digit(t[i - lo]));
            return None;
        }
        let next: u128 = acc as u128 * 10 + (b - 48) as u128;
        assert(t.subrange(0, i - lo + 1).drop_last() =~= t.subrange(0, i - lo));
        assert(digits_value(t.subrange(0, i - lo + 1)) == next);
        if next > limit as u128 {
            proof {
                if all_digits(t) {
                    assert(t.subrange(0, t.len() as int) =~= t);
                    lemma_digits_value_grows(t, i - lo + 1, t.len() as int);
                }
            }
            return None;
        }
        acc = next as u64;
        i = i + 1;
    }
    assert(t.subrange(0, hi - lo) =~= t);
    Some(acc)
}

/// Reads `s[lo..hi]` as an unsigned 64-bit number.
pub fn parse_unsigned(s: &[u8], lo: usize, hi: usize) -> (r: Option<u64>)
    requires
        lo <= hi <= s@.len(),
    ensures
        r == unsigned_text(s@.subrange(lo as int, hi as int)),
{
    let ghost t = s@.subrange(lo as int, hi as int);
    if lo < hi && s[lo] == 43u8 {
        assert(t.subrange(1, t.len() as int) =~= s@.subrange(lo + 1, hi as int));
        digit_run_value(s, lo + 1, hi, u64::MAX)
    } else {
        digit_run_value(s, lo, hi, u64::MAX)
    }
}

/// Reads `s` as a signed 64-bit number.
pub fn parse_signed(s: &[u8]) -> (r: Option<i64>)
    ensures
        r == signed_text(s@),
{
    let n = s.len();
    assert(s@.subrange(0, n as int) =~= s@);
    if n > 0 && s[0] == 45u8 {
        match digit_run_value(s, 1, n, 9223372036854775808u64) {
            None => None,
            Some(m) => {
                if m == 9223372036854775808u64 {
                    Some(i64::MIN)
                } else {
                    Some(-(m as i64))
                }
            },
        }
    } else if n > 0 && s[0] == 43u8 {
        match digit_run_value(s, 1, n, 9223372036854775807u64) {
            None => None,
            Some(m) => Some(m as i64),
        }
    } else {
        match digit_run_value(s, 0, n, 9223372036854775807u64) {
            None => None,
            Some(m) => Some(m as i64),
        }
    }
}

/// Reads `s` as `true` or `false`.
pub fn parse_bool(s: &[u8]) -> (r: Option<bool>)
    ensures
        r == bool_text(s@),
{
    if s.len() == 4 && s[0] == 116u8 && s[1] == 114u8 && s[2] == 117u8 && s[3] == 101u8 {
        assert(s@ =~= seq![116u8, 114u8, 117u8, 101u8]);
        Some(true)
    } else if s.len() == 5 && s[0] == 102u8 && s[1] == 97u8 && s[2] == 108u8 && s[3] == 115u8
        && s[4] == 101u8 {
        assert(s@ =~= seq![102u8, 97u8, 108u8, 115u8, 101u8]);
        Some(false)
    } else {
        proof {
            if s@ == seq![116u8, 114u8, 117u8, 101u8] {
                assert(s@[0] == 116u8 && s@[1] == 114u8 && s@[2] == 117u8 && s@[3] == 101u8);
            }
            if s@ == seq![102u8, 97u8, 108u8, 115u8, 101u8] {
                assert(s@[0] == 102u8 && s@[4] == 101u8 && s@[1] == 97u8 && s@[2] == 108u8);
            }
        }
        None
    }
}

/// Reads `s` as two unsigned runs split by one `.`.
pub fn parse_decimal(s: &[u8]) -> (r: Option<(u64, u64)>)
    ensures
        r == decimal_text(s@),
{
    let n = s.len();
    let mut k: usize = 0;
    while k < n && s[k] != 46u8
        invariant
            k <= n == s@.len(),
            find_dot(s@, 0) == find_dot(s@, k as int),
        decreases n - k,
    {
        k = k + 1;
    }
    if k >= n {
        return None;
    }
    match parse_unsigned(s, 0, k) {
        None => None,
        Some(a) => match parse_unsigned(s, k + 1, n) {
            None => None,
            Some(b) => Some((a, b)),
        },
    }
}

/// Appends the shortest decimal digits of `n`.
pub fn push_decimal(out: &mut Vec<u8>, n: u64)
    ensures
        final(out)@ == old(out)@ + decimal_digits(n as nat),
    decreases n,
{
    if n >= 10 {
        push_decimal(out, n / 10);
    }
    out.push(48u8 + (n % 10) as u8);
    assert(decimal_digits(n as nat) =~= if n < 10 { seq![(48 + n) as u8] } else {
        decimal_digits((n / 10) as nat).push((48 + n % 10) as u8)
    });
}

} // verus!
