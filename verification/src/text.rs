//! Byte text used in configuration lines and encoder options.

use vstd::prelude::*;
use vstd::string::StringSliceAdditionalSpecFns;

verus! {

/// ASCII code of the decimal digit `d` (below 10).
pub open spec fn digit_byte(d: nat) -> u8 {
    (48 + d) as u8
}

/// Decimal digits of `n`, most significant first, with no leading zero.
pub open spec fn decimal(n: nat) -> Seq<u8>
    decreases n,
{
    if n < 10 {
        seq![digit_byte(n)]
    } else {
        decimal(n / 10).push(digit_byte(n % 10))
    }
}

/// Decimal text of `n`, with a minus sign in front when it is negative.
pub open spec fn signed_decimal(n: int) -> Seq<u8> {
    if n < 0 {
        seq![45u8] + decimal((-n) as nat)
    } else {
        decimal(n as nat)
    }
}

/// Appends the decimal digits of `n`.
pub fn push_decimal(out: &mut Vec<u8>, n: u32)
    ensures
        final(out)@ == old(out)@ + decimal(n as nat),
    decreases n,
{
    if n >= 10 {
        push_decimal(out, n / 10);
    }
    out.push((48 + n % 10) as u8);
    proof {
        if n >= 10 {
            assert(decimal(n as nat) == decimal((n / 10) as nat).push(digit_byte((n % 10) as nat)));
        }
    }
}

/// Appends the decimal text of `n`, signed.
pub fn push_signed_decimal(out: &mut Vec<u8>, n: i32)
    ensures
        final(out)@ == old(out)@ + signed_decimal(n as int),
{
    if n < 0 {
        out.push(45u8);
        let magnitude = (0i64 - (n as i64)) as u32;
        push_decimal(out, magnitude);
        assert(final(out)@ =~= old(out)@ + signed_decimal(n as int)) by {
            assert(magnitude as int == -(n as int));
        }
    } else {
        push_decimal(out, n as u32);
    }
}

/// Appends the UTF-8 bytes of `text`.
pub fn push_text(out: &mut Vec<u8>, text: &str)
    ensures
        final(out)@ == old(out)@ + text.spec_bytes(),
{
    let bytes = text.as_bytes();
    let ghost start = out@;
    let mut i: usize = 0;
    while i < bytes.len()
        invariant
            i <= bytes@.len(),
            bytes@ == text.spec_bytes(),
            out@ =~= start + bytes@.subrange(0, i as int),
        decreases bytes@.len() - i,
    {
        out.push(bytes[i]);
        i = i + 1;
    }
    assert(bytes@.subrange(0, bytes@.len() as int) =~= bytes@);
}

/// Whether every byte of `text` is an ASCII decimal digit.
pub open spec fn all_digits(text: Seq<u8>) -> bool {
    forall|i: int| 0 <= i < text.len() ==> 48 <= #[trigger] text[i] <= 57
}

/// Whether `text` is a decimal numeral as a person writes it: at least one
/// digit, and no leading zero unless it is the numeral `0` itself.
pub open spec fn is_numeral(text: Seq<u8>) -> bool {
    &&& text.len() >= 1
    &&& all_digits(text)
    &&& (text.len() > 1 ==> text[0] != 48)
}

/// The number a string of decimal digits reads as.
pub open spec fn digits_value(text: Seq<u8>) -> int
    decreases text.len(),
{
    if text.len() == 0 {
        0
    } else {
        digits_value(text.drop_last()) * 10 + (text.last() - 48)
    }
}

/// The number a numeral reads as, a leading minus sign making it negative.
pub open spec fn signed_value(text: Seq<u8>) -> int {
    if text.len() > 0 && text[0] == 45 {
        -digits_value(text.drop_first())
    } else {
        digits_value(text)
    }
}

/// Whether `text` is a signed decimal numeral as a person writes it: a
/// numeral, or a minus sign followed by a numeral other than `0`.
pub open spec fn is_signed_numeral(text: Seq<u8>) -> bool {
    is_numeral(text) || (text.len() > 1 && text[0] == 45 && is_numeral(text.drop_first())
        && text.drop_first() != seq![48u8])
}

proof fn lemma_decimal_leading(n: nat)
    ensures
        decimal(n).len() >= 1,
        n >= 1 ==> decimal(n)[0] != 48,
    decreases n,
{
    if n >= 10 {
        lemma_decimal_leading(n / 10);
    }
}

/// The decimal text of `n` is a numeral without a leading zero, and it
/// reads back as `n`.
pub proof fn lemma_decimal_reads_back(n: nat)
    ensures
        is_numeral(decimal(n)),
        digits_value(decimal(n)) == n,
    decreases n,
{
    lemma_decimal_leading(n);
    if n >= 10 {
        lemma_decimal_reads_back(n / 10);
        lemma_decimal_leading(n / 10);
        let d = decimal(n);
        assert(d.drop_last() =~= decimal(n / 10));
        assert(d[0] == decimal(n / 10)[0]);
        assert(n % 10 < 10 && n == (n / 10) * 10 + n % 10);
        assert(d.last() == 48 + n % 10);
        assert(digits_value(d) == digits_value(decimal(n / 10)) * 10 + (d.last() - 48));
        assert(all_digits(d)) by {
            assert forall|i: int| 0 <= i < d.len() implies 48 <= #[trigger] d[i] <= 57 by {
                if i < d.len() - 1 {
                    assert(d[i] == decimal(n / 10)[i]);
                }
            }
        }
    } else {
        let d = decimal(n);
        assert(d.drop_last() =~= Seq::<u8>::empty());
        assert(d.last() == 48 + n);
        assert(digits_value(d) == digits_value(d.drop_last()) * 10 + (d.last() - 48));
    }
}

/// The signed decimal text of `n` is a signed numeral as a person writes it
/// and reads back as `n`.
pub proof fn lemma_signed_decimal_reads_back(n: int)
    ensures
        is_signed_numeral(signed_decimal(n)),
        signed_value(signed_decimal(n)) == n,
{
    if n < 0 {
        let m = (-n) as nat;
        lemma_decimal_reads_back(m);
        let t = signed_decimal(n);
        assert(t.drop_first() =~= decimal(m));
        assert(decimal(m) != seq![48u8]) by {
            if decimal(m) == seq![48u8] {
                let z = seq![48u8];
                assert(z.drop_last() =~= Seq::<u8>::empty());
                assert(z.last() == 48);
                assert(digits_value(z) == digits_value(z.drop_last()) * 10 + (z.last() - 48));
            }
        }
        lemma_decimal_leading(m);
    } else {
        lemma_decimal_reads_back(n as nat);
    }
}

} // verus!
