//! Text of the operating system, in which a surrogate may stand alone.
//!
//! Windows gives its strings in 16-bit units. As bytes (in the encoding of
//! `std::ffi::OsStr`) they are UTF-8, but for surrogates that are no part of a
//! pair, which take three bytes each: `0xed`, one from `0xa0` on, and another.
use vstd::prelude::*;

verus! {

/// Whether a surrogate stands at the beginning.
pub open spec fn starts_with_surrogate(text: Seq<u8>) -> bool {
    text.len() >= 3 && text[0] == 0xed && text[1] >= 0xa0
}

/// The character U+FFFD, in UTF-8.
pub open spec fn replacement_character() -> Seq<u8> {
    seq![0xefu8, 0xbfu8, 0xbdu8]
}

/// A text with the replacement character in the place of each surrogate.
pub open spec fn lossy(text: Seq<u8>) -> Seq<u8>
    decreases text.len(),
{
    if text.len() == 0 {
        Seq::empty()
    } else if starts_with_surrogate(text) {
        replacement_character() + lossy(text.skip(3))
    } else {
        seq![text[0]] + lossy(text.skip(1))
    }
}

/// A text with the replacement character in the place of each surrogate.
pub fn to_lossy(text: &[u8]) -> (r: Vec<u8>)
    ensures
        r@ == lossy(text@),
{
    let mut r: Vec<u8> = Vec::new();
    let mut i: usize = 0;
    assert(text@.skip(0) =~= text@);
    assert(r@ + lossy(text@) =~= lossy(text@));
    while i < text.len()
        invariant
            i <= text@.len(),
            lossy(text@) == r@ + lossy(text@.skip(i as int)),
        decreases text@.len() - i,
    {
        let ghost before = r@;
        let ghost rest = text@.skip(i as int);
        assert(rest[0] == text@[i as int]);
        if text.len() - i >= 3 && text[i] == 0xed && text[i + 1] >= 0xa0 {
            r.push(0xef);
            r.push(0xbf);
            r.push(0xbd);
            proof {
                assert(starts_with_surrogate(rest));
                assert(rest.skip(3) =~= text@.skip(i + 3));
                assert(before + (replacement_character() + lossy(rest.skip(3))) =~= r@ + lossy(
                    rest.skip(3),
                ));
            }
            i += 3;
        } else {
            r.push(text[i]);
            proof {
                assert(!starts_with_surrogate(rest));
                assert(rest.skip(1) =~= text@.skip(i + 1));
                assert(before + (seq![rest[0]] + lossy(rest.skip(1))) =~= r@ + lossy(
                    rest.skip(1),
                ));
            }
            i += 1;
        }
    }
    assert(r@ + lossy(text@.skip(i as int)) =~= r@);
    r
}

/// A text without a surrogate is not changed.
pub proof fn law_text_without_surrogates_is_kept(text: Seq<u8>)
    requires
        forall|i: int| 0 <= i < text.len() ==> !starts_with_surrogate(#[trigger] text.skip(i)),
    ensures
        lossy(text) == text,
    decreases text.len(),
{
    if text.len() > 0 {
        assert(text.skip(0) =~= text);
        let rest = text.skip(1);
        assert forall|i: int| 0 <= i < rest.len() implies !starts_with_surrogate(
            #[trigger] rest.skip(i),
        ) by {
            assert(rest.skip(i) =~= text.skip(i + 1));
        }
        law_text_without_surrogates_is_kept(rest);
        assert(seq![text[0]] + rest =~= text);
    }
}

/// A surrogate that stands alone becomes the replacement character, and what comes
/// after it is read on its own; any other byte stays.
pub proof fn law_surrogates_are_replaced_one_by_one(first: u8, second: u8, third: u8, rest: Seq<u8>)
    ensures
        lossy(Seq::empty()) == Seq::<u8>::empty(),
        first == 0xed && second >= 0xa0 ==> lossy(seq![first, second, third] + rest) == seq![
            0xefu8,
            0xbfu8,
            0xbdu8,
        ] + lossy(rest),
        first != 0xed ==> lossy(seq![first] + rest) == seq![first] + lossy(rest),
        rest.len() < 2 || rest[0] < 0xa0 ==> lossy(seq![first] + rest) == seq![first] + lossy(rest),
{
    let long = seq![first, second, third] + rest;
    assert(long.skip(3) =~= rest);
    let short = seq![first] + rest;
    assert(short.skip(1) =~= rest);
    if rest.len() > 0 {
        assert(short[1] == rest[0]);
    }
}

} // verus!
