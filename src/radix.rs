use vstd::prelude::*;

verus! {

/// Value of an ASCII digit or letter as a digit, `36` for any other byte.
pub open spec fn digit_value(c: u8) -> nat {
    if 48 <= c <= 57 {
        (c - 48) as nat
    } else if 97 <= c <= 122 {
        (c - 97 + 10) as nat
    } else if 65 <= c <= 90 {
        (c - 65 + 10) as nat
    } else {
        36
    }
}

/// Whether every byte of `s` is a digit in the given radix.
pub open spec fn all_digits(s: Seq<u8>, radix: nat) -> bool {
    forall|i: int| 0 <= i < s.len() ==> #[trigger] digit_value(s[i]) < radix
}

/// The number that the digits `s` denote in the given radix, most
/// significant digit first.
pub open spec fn radix_value(s: Seq<u8>, radix: nat) -> nat
    decreases s.len(),
{
    if s.len() == 0 {
        0
    } else {
        radix_value(s.drop_last(), radix) * radix + digit_value(s.last())
    }
}

/// The digits of a number text: the text without one leading `+`.
pub open spec fn number_digits(s: Seq<u8>) -> Seq<u8> {
    if s.len() > 0 && s[0] == 43 {
        s.drop_first()
    } else {
        s
    }
}

/// Whether `s` is an unsigned number in the given radix that fits in 64 bits.
pub open spec fn is_number(s: Seq<u8>, radix: nat) -> bool {
    let d = number_digits(s);
    &&& d.len() > 0
    &&& all_digits(d, radix)
    &&& radix_value(d, radix) <= u64::MAX
}

/// What the unsigned number text `s` holds, or nothing where it holds none.
pub open spec fn number_of(s: Seq<u8>, radix: nat) -> Option<u64> {
    if is_number(s, radix) {
        Some(radix_value(number_digits(s), radix) as u64)
    } else {
        None
    }
}

/// A prefix of a digit string never denotes more than the whole string.
pub proof fn lemma_prefix_value_le(s: Seq<u8>, j: int, radix: nat)
    requires
        0 <= j <= s.len(),
        radix >= 1,
    ensures
        radix_value(s.take(j), radix) <= radix_value(s, radix),
    decreases s.len(),
{
    if j < s.len() {
        let t = s.drop_last();
        assert(t.take(j) =~= s.take(j));
        lemma_prefix_value_le(t, j, radix);
        assert(radix_value(t, radix) * radix >= radix_value(t, radix)) by (nonlinear_arith)
            requires
                radix >= 1,
        ;
    } else {
        assert(s.take(j) =~= s);
    }
}

/// Reads the unsigned number `s` in radix 10 or 16: an optional `+`, then
/// one or more digits, of a value that fits in 64 bits.
pub fn parse_number(s: &[u8], radix: u64) -> (r: Option<u64>)
    requires
        radix == 10 || radix == 16,
    ensures
        r == number_of(s@, radix as nat),
{
    let start: usize = if s.len() > 0 && s[0] == 43 { 1 } else { 0 };
    let ghost d = number_digits(s@);
    assert(d =~= s@.subrange(start as int, s@.len() as int));
    if start == s.len() {
        return None;
    }
    let mut v: u64 = 0;
    let mut i: usize = start;
    while i < s.len()
        invariant
            start <= i <= s.len(),
            d == s@.subrange(start as int, s@.len() as int),
            d == number_digits(s@),
            radix == 10 || radix == 16,
            all_digits(s@.subrange(start as int, i as int), radix as nat),
            v == radix_value(s@.subrange(start as int, i as int), radix as nat),
        decreases s.len() - i,
    {
        let c = s[i];
        let digit: u64 = if 48 <= c && c <= 57 {
            (c - 48) as u64
        } else if 97 <= c && c <= 122 {
            (c - 97 + 10) as u64
        } else if 65 <= c && c <= 90 {
            (c - 65 + 10) as u64
        } else {
            36
        };
        assert(digit == digit_value(c));
        let ghost prefix = s@.subrange(start as int, i as int + 1);
        assert(prefix.drop_last() =~= s@.subrange(start as int, i as int));
        assert(prefix.last() == c);
        if digit >= radix {
            assert(!all_digits(d, radix as nat)) by {
                assert(d[i - start] == c);
                assert(digit_value(d[i - start]) >= radix);
            }
            return None;
        }
        let limit: u64 = (u64::MAX - digit) / radix;
        if v > limit {
            assert(v * radix + digit > u64::MAX) by (nonlinear_arith)
                requires
                    v > limit,
                    limit == (u64::MAX - digit) as int / radix as int,
                    radix > 0,
                    digit < radix,
            ;
            assert(radix_value(prefix, radix as nat) == v * radix + digit);
            proof {
                if all_digits(d, radix as nat) {
                    assert(d.take(i - start + 1) =~= prefix);
                    lemma_prefix_value_le(d, i - start + 1, radix as nat);
                }
            }
            return None;
        }
        assert(v * radix + digit <= u64::MAX) by (nonlinear_arith)
            requires
                v <= limit,
                limit == (u64::MAX - digit) as int / radix as int,
                radix > 0,
                digit < radix,
        ;
        assert(radix_value(prefix, radix as nat) == v * radix + digit);
        v = v * radix + digit;
        i = i + 1;
    }
    assert(s@.subrange(start as int, i as int) =~= d);
    Some(v)
}

} // verus!
