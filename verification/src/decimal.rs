//! Numbers in decimal, as they stand in names.
use vstd::prelude::*;

verus! {

/// The digits of a number, without leading zeros.
pub open spec fn decimal(n: nat) -> Seq<u8>
    decreases n,
{
    if n < 10 {
        seq![(0x30 + n) as u8]
    } else {
        decimal(n / 10).push((0x30 + n % 10) as u8)
    }
}

/// Writes the digits of a number at the end of `out`.
pub fn push_decimal(out: &mut Vec<u8>, n: u64)
    ensures
        final(out)@ == old(out)@ + decimal(n as nat),
    decreases n,
{
    if n < 10 {
        out.push(0x30 + n as u8);
        assert(out@ =~= old(out)@ + decimal(n as nat));
    } else {
        push_decimal(out, n / 10);
        out.push(0x30 + (n % 10) as u8);
        assert(out@ =~= old(out)@ + decimal(n as nat));
    }
}

/// Different numbers have different digits.
pub proof fn law_decimal_is_unique(a: nat, b: nat)
    requires
        decimal(a) == decimal(b),
    ensures
        a == b,
    decreases a,
{
    lemma_decimal_len(a);
    lemma_decimal_len(b);
    if a >= 10 && b >= 10 {
        let x = decimal(a);
        let y = decimal(b);
        assert(x.last() == y.last());
        assert(x.last() as int == 0x30 + a % 10);
        assert(y.last() as int == 0x30 + b % 10);
        assert(x.drop_last() =~= decimal(a / 10));
        assert(y.drop_last() =~= decimal(b / 10));
        law_decimal_is_unique(a / 10, b / 10);
    } else if a < 10 && b < 10 {
        assert(decimal(a)[0] as int == 0x30 + a);
        assert(decimal(b)[0] as int == 0x30 + b);
    }
}

proof fn lemma_decimal_len(n: nat)
    ensures
        decimal(n).len() >= 1,
        n < 10 <==> decimal(n).len() == 1,
    decreases n,
{
    if n >= 10 {
        lemma_decimal_len(n / 10);
    }
}

/// Numbers are written in digits.
pub proof fn lemma_decimal_digits(n: nat)
    ensures
        decimal(n).len() >= 1,
        forall|i: int| 0 <= i < decimal(n).len() ==> 0x30 <= #[trigger] decimal(n)[i] <= 0x39,
    decreases n,
{
    if n >= 10 {
        lemma_decimal_digits(n / 10);
    }
}

/// The number that some digits stand for.
pub open spec fn number_of(digits: Seq<u8>) -> int
    decreases digits.len(),
{
    if digits.len() == 0 {
        0
    } else {
        10 * number_of(digits.drop_last()) + (digits.last() - 0x30)
    }
}

/// The digits of a number stand for it: read from the left, each ten times what
/// comes after it, they give the number. Nothing but digits is written, and no
/// zero before the others.
pub proof fn law_digits_stand_for_their_number(n: nat)
    ensures
        number_of(decimal(n)) == n,
        decimal(n).len() > 0,
        forall|i: int| 0 <= i < decimal(n).len() ==> 0x30 <= #[trigger] decimal(n)[i] <= 0x39,
        decimal(n).len() > 1 ==> decimal(n)[0] != 0x30,
    decreases n,
{
    lemma_decimal_digits(n);
    let digits = decimal(n);
    if n < 10 {
        assert(digits.drop_last() =~= Seq::<u8>::empty());
        reveal_with_fuel(number_of, 2);
    } else {
        law_digits_stand_for_their_number(n / 10);
        assert(digits.drop_last() =~= decimal(n / 10));
        lemma_decimal_len(n / 10);
        if n / 10 < 10 {
            assert(decimal(n / 10)[0] as int == 0x30 + n / 10);
        }
        assert(digits[0] == decimal(n / 10)[0]);
    }
}

} // verus!
