//! What the parts of a text are.

use crate::types::text::{
    blank, decimal, leading, lemma_decimal_number, lower, numeral, space, split, trimmed,
    without_blanks, without_trailing,
};
use vstd::prelude::*;

verus! {

proof fn lemma_leading_space(s: Seq<char>)
    ensures
        0 <= leading(s) <= s.len(),
        forall|i: int| 0 <= i < leading(s) ==> space(#[trigger] s[i]),
        leading(s) < s.len() ==> !space(s[leading(s)]),
    decreases s.len(),
{
    if s.len() > 0 && space(s[0]) {
        let rest = s.drop_first();
        lemma_leading_space(rest);
        assert forall|i: int| 0 <= i < leading(s) implies space(#[trigger] s[i]) by {
            if i > 0 {
                assert(space(rest[i - 1]));
            }
        }
        if leading(s) < s.len() {
            assert(!space(rest[leading(rest)]));
        }
    }
}

proof fn lemma_trailing_space(s: Seq<char>)
    ensures
        0 <= without_trailing(s) <= s.len(),
        forall|i: int| without_trailing(s) <= i < s.len() ==> space(#[trigger] s[i]),
        without_trailing(s) > 0 ==> !space(s[without_trailing(s) - 1]),
    decreases s.len(),
{
    if s.len() > 0 && space(s.last()) {
        let rest = s.drop_last();
        lemma_trailing_space(rest);
        assert forall|i: int| without_trailing(s) <= i < s.len() implies space(#[trigger] s[i]) by {
            if i < s.len() - 1 {
                assert(space(rest[i]));
            }
        }
        if without_trailing(s) > 0 {
            assert(!space(rest[without_trailing(rest) - 1]));
        }
    }
}

/// A text that is trimmed neither begins nor ends with white space, and only white space has
/// been taken off it.
pub proof fn law_trimmed(s: Seq<char>)
    ensures
        trimmed(s).len() > 0 ==> !space(trimmed(s)[0]) && !space(trimmed(s).last()),
        exists|a: Seq<char>, b: Seq<char>|
            s == #[trigger] (a + trimmed(s) + b) && (forall|i: int|
                0 <= i < a.len() ==> space(#[trigger] a[i])) && (forall|i: int|
                0 <= i < b.len() ==> space(#[trigger] b[i])),
{
    lemma_trailing_space(s);
    let n = without_trailing(s);
    let t = s.take(n);
    lemma_leading_space(t);
    let k = leading(t);
    let a = t.take(k);
    let b = s.skip(n);
    assert(trimmed(s) =~= t.skip(k));
    assert(s =~= a + trimmed(s) + b);
    assert forall|i: int| 0 <= i < a.len() implies space(#[trigger] a[i]) by {
        assert(space(t[i]));
    }
    assert forall|i: int| 0 <= i < b.len() implies space(#[trigger] b[i]) by {
        assert(space(s[n + i]));
    }
    if trimmed(s).len() > 0 {
        assert(!space(t[k]));
        assert(!space(s[n - 1]));
        assert(trimmed(s).last() == s[n - 1]);
    }
}

/// What is left of a text without the separators at its end does not end with one, and what is
/// taken off consists of them.
pub proof fn law_without_blanks(s: Seq<char>)
    ensures
        0 <= without_blanks(s) <= s.len(),
        forall|i: int| without_blanks(s) <= i < s.len() ==> blank(#[trigger] s[i]),
        without_blanks(s) > 0 ==> !blank(s[without_blanks(s) - 1]),
    decreases s.len(),
{
    if s.len() > 0 && blank(s.last()) {
        let rest = s.drop_last();
        law_without_blanks(rest);
        assert forall|i: int| without_blanks(s) <= i < s.len() implies blank(#[trigger] s[i]) by {
            if i < s.len() - 1 {
                assert(blank(rest[i]));
            }
        }
        if without_blanks(s) > 0 {
            assert(!blank(rest[without_blanks(rest) - 1]));
        }
    }
}

/// Texts one after another, each but the last with a character behind it.
pub open spec fn joined(parts: Seq<Seq<char>>, c: char) -> Seq<char>
    decreases parts.len(),
{
    if parts.len() == 0 {
        Seq::empty()
    } else if parts.len() == 1 {
        parts[0]
    } else {
        joined(parts.drop_last(), c).push(c) + parts.last()
    }
}

/// The parts of a text hold the separator nowhere, and put together with it they give the text.
pub proof fn law_split(s: Seq<char>, c: char)
    ensures
        split(s, c).len() >= 1,
        joined(split(s, c), c) == s,
        forall|i: int| 0 <= i < split(s, c).len() ==> !(#[trigger] split(s, c)[i]).contains(c),
    decreases s.len(),
{
    if s.len() == 0 {
        assert(joined(split(s, c), c) =~= s);
        assert(!Seq::<char>::empty().contains(c));
    } else {
        let less = s.drop_last();
        law_split(less, c);
        let head = split(less, c);
        let all = split(s, c);
        if s.last() == c {
            assert(all.drop_last() =~= head);
            assert(joined(all, c) =~= s);
            assert(!Seq::<char>::empty().contains(c));
        } else {
            let last = head.last().push(s.last());
            assert(all.drop_last() =~= head.drop_last());
            assert(all.last() == last);
            assert(joined(all, c) =~= s) by {
                assert(less.push(s.last()) =~= s);
                if head.len() == 1 {
                    assert(joined(head, c) == head[0]);
                    assert(all.len() == 1 && all[0] == last);
                    assert(joined(all, c) == last);
                } else {
                    let front = joined(head.drop_last(), c).push(c);
                    assert(joined(head, c) == front + head.last());
                    assert(joined(all, c) == front + last);
                    assert(front + last =~= (front + head.last()).push(s.last()));
                }
            }
            assert(!last.contains(c)) by {
                assert(!head[head.len() - 1].contains(c));
                if last.contains(c) {
                    let i = choose|i: int| 0 <= i < last.len() && last[i] == c;
                    assert(i < head.last().len());
                    assert(head.last()[i] == c);
                }
            }
        }
        assert forall|i: int| 0 <= i < all.len() implies !(#[trigger] all[i]).contains(c) by {
            if i < all.len() - 1 {
                assert(all[i] == head[i]);
            }
        }
    }
}

/// A capital letter becomes the small one at the same place of the alphabet, and everything else
/// stays as it is.
pub proof fn law_lower(k: int, c: char)
    requires
        0 <= k < 26,
    ensures
        c as int == 'A' as int + k ==> lower(c) as int == 'a' as int + k,
        !('A' <= c <= 'Z') ==> lower(c) == c,
        lower(lower(c)) == lower(c),
{
}

/// Words are separated by blanks, tabulators and the ends of lines and pages, all of which are
/// white space.
pub proof fn law_separators(c: char)
    ensures
        blank(c) <==> c as int == 32 || c as int == 9 || c as int == 10 || c as int == 12
            || c as int == 13,
        blank(c) ==> space(c),
        '!' <= c <= '~' ==> !blank(c) && !space(c),
{
}

/// A number is read back from its decimal notation, with or without a plus sign, as far as it is
/// not too great; a text with anything but digits behind the sign is none.
pub proof fn law_numeral(n: nat, max: int, s: Seq<char>, i: int)
    requires
        0 <= max,
        1 <= i < s.len(),
        !('0' <= s[i] <= '9'),
    ensures
        n <= max ==> numeral(decimal(n), max) == Some(n as int),
        n <= max ==> numeral(seq!['+'] + decimal(n), max) == Some(n as int),
        n > max ==> numeral(decimal(n), max) is None,
        numeral(s, max) is None,
        numeral(Seq::empty(), max) is None,
{
    let d = decimal(n);
    lemma_decimal_number(n);
    assert('0' <= d[0] <= '9');
    let signed = seq!['+'] + d;
    assert(signed.drop_first() =~= d);
    if numeral(s, max) is Some {
        if s[0] == '+' {
            assert(s.drop_first()[i - 1] == s[i]);
        }
    }
}

} // verus!
