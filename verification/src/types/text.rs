//! Building strings.

use vstd::prelude::*;

verus! {

/// `String::push`: appends the given character to the end.
pub assume_specification[ std::string::String::push ](s: &mut String, c: char)
    ensures
        final(s)@ == old(s)@.push(c),
;

/// `String::push_str`: appends the given string slice to the end.
pub assume_specification[ std::string::String::push_str ](s: &mut String, tail: &str)
    ensures
        final(s)@ == old(s)@ + tail@,
;

/// The decimal digit for `n`.
pub open spec fn digit_char(n: int) -> char {
    if n == 0 {
        '0'
    } else if n == 1 {
        '1'
    } else if n == 2 {
        '2'
    } else if n == 3 {
        '3'
    } else if n == 4 {
        '4'
    } else if n == 5 {
        '5'
    } else if n == 6 {
        '6'
    } else if n == 7 {
        '7'
    } else if n == 8 {
        '8'
    } else {
        '9'
    }
}

/// The value of a decimal digit, if `c` is one.
pub open spec fn digit_value(c: char) -> Option<int> {
    if '0' <= c <= '9' {
        Some(c as int - '0' as int)
    } else {
        None
    }
}

/// The decimal notation of `n`, without leading zeros.
pub open spec fn decimal(n: nat) -> Seq<char>
    decreases n,
{
    if n < 10 {
        seq![digit_char(n as int)]
    } else {
        decimal(n / 10).push(digit_char((n % 10) as int))
    }
}

/// The digits in `s` read as one decimal number.
pub open spec fn number(s: Seq<char>) -> nat
    decreases s.len(),
{
    if s.len() == 0 {
        0
    } else {
        10 * number(s.drop_last()) + (s.last() as nat - '0' as nat) as nat
    }
}

/// Whether every character of `s` is a decimal digit.
pub open spec fn all_digits(s: Seq<char>) -> bool {
    forall|i: int| 0 <= i < s.len() ==> '0' <= #[trigger] s[i] <= '9'
}

pub fn digit_to_char(n: u64) -> (res: char)
    requires
        n < 10,
    ensures
        res == digit_char(n as int),
{
    match n {
        0 => '0',
        1 => '1',
        2 => '2',
        3 => '3',
        4 => '4',
        5 => '5',
        6 => '6',
        7 => '7',
        8 => '8',
        _ => '9',
    }
}

/// Appends `n` in decimal notation.
pub fn push_decimal(out: &mut String, n: u64)
    ensures
        final(out)@ == old(out)@ + decimal(n as nat),
    decreases n,
{
    if n >= 10 {
        push_decimal(out, n / 10);
    }
    out.push(digit_to_char(n % 10));
    assert(out@ =~= old(out)@ + decimal(n as nat));
}

/// The decimal notation of a number reads back as that number.
pub proof fn lemma_decimal_number(n: nat)
    ensures
        number(decimal(n)) == n,
        all_digits(decimal(n)),
        decimal(n).len() > 0,
    decreases n,
{
    if n < 10 {
        let s = seq![digit_char(n as int)];
        assert(s.drop_last() =~= Seq::<char>::empty());
        assert(number(Seq::<char>::empty()) == 0);
    } else {
        lemma_decimal_number(n / 10);
        assert(decimal(n).drop_last() =~= decimal(n / 10));
    }
}

/// `s` cut at every `c`: the pieces between the separators, empty ones included.
pub open spec fn split(s: Seq<char>, c: char) -> Seq<Seq<char>>
    decreases s.len(),
{
    if s.len() == 0 {
        seq![Seq::empty()]
    } else {
        let head = split(s.drop_last(), c);
        if s.last() == c {
            head.push(Seq::empty())
        } else {
            head.drop_last().push(head.last().push(s.last()))
        }
    }
}

pub proof fn lemma_split_len(s: Seq<char>, c: char)
    ensures
        split(s, c).len() >= 1,
    decreases s.len(),
{
    if s.len() > 0 {
        lemma_split_len(s.drop_last(), c);
    }
}

/// The characters of the elements of `v`.
pub open spec fn texts(v: Seq<Vec<char>>) -> Seq<Seq<char>> {
    Seq::new(v.len(), |i: int| v[i]@)
}

/// The characters of a string.
pub fn chars_of(s: &str) -> (res: Vec<char>)
    ensures
        res@ == s@,
{
    let n: usize = s.unicode_len();
    let mut chars: Vec<char> = Vec::new();
    let mut i: usize = 0;
    while i < n
        invariant
            n == s@.len(),
            i <= n,
            chars@ == s@.take(i as int),
        decreases n - i,
    {
        chars.push(s.get_char(i));
        i += 1;
        assert(chars@ =~= s@.take(i as int));
    }
    assert(s@.take(n as int) =~= s@);
    chars
}

/// Cuts `s` at every `c`.
pub fn split_on(s: &Vec<char>, c: char) -> (res: Vec<Vec<char>>)
    ensures
        texts(res@) == split(s@, c),
        res@.len() == split(s@, c).len(),
        res@.len() >= 1,
        forall|i: int| 0 <= i < res@.len() ==> (#[trigger] res@[i])@ == split(s@, c)[i],
{
    let mut parts: Vec<Vec<char>> = Vec::new();
    let mut part: Vec<char> = Vec::new();
    let mut i: usize = 0;
    proof {
        assert(texts(parts@).push(part@) =~= split(s@.take(0), c)) by {
            assert(part@ =~= Seq::<char>::empty());
        }
    }
    while i < s.len()
        invariant
            i <= s@.len(),
            texts(parts@).push(part@) == split(s@.take(i as int), c),
        decreases s@.len() - i,
    {
        let x: char = s[i];
        let ghost before = s@.take(i as int);
        let ghost after = s@.take(i + 1);
        let ghost head = split(before, c);
        proof {
            assert(after.drop_last() =~= before);
            assert(head.last() == part@);
            assert(head.drop_last() =~= texts(parts@));
        }
        if x == c {
            let ghost old_parts = parts@;
            parts.push(part);
            part = Vec::new();
            proof {
                assert(texts(parts@) =~= texts(old_parts).push(head.last()));
                assert(part@ =~= Seq::<char>::empty());
                assert(texts(parts@).push(part@) =~= head.push(Seq::empty()));
            }
        } else {
            part.push(x);
            proof {
                assert(texts(parts@).push(part@) =~= head.drop_last().push(head.last().push(x)));
            }
        }
        i += 1;
    }
    proof {
        assert(s@.take(s@.len() as int) =~= s@);
    }
    let ghost old_parts = parts@;
    let ghost last = part@;
    parts.push(part);
    proof {
        assert(texts(parts@) =~= texts(old_parts).push(last));
    }
    parts
}

/// The number that `s` denotes, if it is at most `max`: decimal digits, which a plus sign
/// may precede.
pub open spec fn numeral(s: Seq<char>, max: int) -> Option<int> {
    let digits = if s.len() > 1 && s[0] == '+' {
        s.drop_first()
    } else {
        s
    };
    if digits.len() > 0 && all_digits(digits) && number(digits) <= max {
        Some(number(digits) as int)
    } else {
        None
    }
}

/// A number only grows with more digits.
pub proof fn lemma_number_prefix(s: Seq<char>, n: int)
    requires
        all_digits(s),
        0 <= n <= s.len(),
    ensures
        number(s.take(n)) <= number(s),
    decreases s.len() - n,
{
    if n < s.len() {
        lemma_number_prefix(s, n + 1);
        let t = s.take(n + 1);
        assert(t.drop_last() =~= s.take(n));
        assert('0' <= t.last() <= '9');
    } else {
        assert(s.take(n) =~= s);
    }
}

/// Reads a number of at most `max`.
pub fn read_number(s: &Vec<char>, max: u64) -> (res: Option<u64>)
    ensures
        match numeral(s@, max as int) {
            Some(n) => res == Some(n as u64) && 0 <= n <= max,
            None => res is None,
        },
{
    let start: usize = if s.len() > 1 && s[0] == '+' { 1 } else { 0 };
    let ghost digits = s@.skip(start as int);
    proof {
        if start == 1 {
            assert(digits =~= s@.drop_first());
        } else {
            assert(digits =~= s@);
        }
    }
    if s.len() == 0 {
        return None;
    }
    let mut value: u64 = 0;
    let mut i: usize = start;
    proof {
        assert(digits.take(0) =~= Seq::<char>::empty());
    }
    while i < s.len()
        invariant
            start <= i <= s@.len(),
            s@.len() > start,
            digits == s@.skip(start as int),
            numeral(s@, max as int) == if digits.len() > 0 && all_digits(digits) && number(digits)
                <= max {
                Some(number(digits) as int)
            } else {
                None
            },
            value <= max,
            value == number(digits.take(i - start)),
            forall|j: int| 0 <= j < i - start ==> '0' <= #[trigger] digits[j] <= '9',
        decreases s@.len() - i,
    {
        let c: char = s[i];
        assert(digits[i - start] == c);
        if !('0' <= c && c <= '9') {
            return None;
        }
        let d: u64 = (c as u32 - '0' as u32) as u64;
        proof {
            let t = digits.take(i - start + 1);
            assert(t.drop_last() =~= digits.take(i - start));
            assert(t.last() == c);
            assert(number(t) == 10 * value + d);
            if all_digits(digits) {
                lemma_number_prefix(digits, i - start + 1);
            }
        }
        match value.checked_mul(10) {
            None => {
                return None;
            },
            Some(v) => {
                match v.checked_add(d) {
                    None => {
                        return None;
                    },
                    Some(w) => {
                        if w > max {
                            return None;
                        }
                        value = w;
                    },
                }
            },
        }
        i += 1;
    }
    assert(digits.take(digits.len() as int) =~= digits);
    Some(value)
}

/// Whether the characters are those of a string.
pub fn same_text(s: &Vec<char>, t: &str) -> (res: bool)
    ensures
        res <==> s@ == t@,
{
    let u = chars_of(t);
    if s.len() != u.len() {
        return false;
    }
    let mut i: usize = 0;
    while i < s.len()
        invariant
            i <= s@.len(),
            u@ == t@,
            s@.len() == u@.len(),
            forall|j: int| 0 <= j < i ==> s@[j] == u@[j],
        decreases s@.len() - i,
    {
        if s[i] != u[i] {
            return false;
        }
        i += 1;
    }
    assert(s@ =~= u@);
    true
}

/// The characters that separate words: blank, tab, line feed, form feed and return.
pub open spec fn blank(c: char) -> bool {
    c == ' ' || c == '\t' || c == '\n' || c == '\x0C' || c == '\r'
}

pub fn is_blank(c: char) -> (res: bool)
    ensures
        res == blank(c),
{
    c == ' ' || c == '\t' || c == '\n' || c == '\x0C' || c == '\r'
}

/// The words of a text: its longest pieces without separators.
pub open spec fn words_of(s: Seq<char>) -> Seq<Seq<char>>
    decreases s.len(),
{
    if s.len() == 0 {
        Seq::empty()
    } else {
        let head = words_of(s.drop_last());
        if blank(s.last()) {
            head
        } else if s.len() > 1 && !blank(s[s.len() - 2]) {
            head.drop_last().push(head.last().push(s.last()))
        } else {
            head.push(seq![s.last()])
        }
    }
}

/// Cuts a text into its words.
pub fn words(s: &Vec<char>) -> (res: Vec<Vec<char>>)
    ensures
        texts(res@) == words_of(s@),
        res@.len() == words_of(s@).len(),
        forall|i: int| 0 <= i < res@.len() ==> (#[trigger] res@[i])@ == words_of(s@)[i],
{
    let mut list: Vec<Vec<char>> = Vec::new();
    let mut word: Vec<char> = Vec::new();
    let mut i: usize = 0;
    proof {
        assert(texts(list@) =~= words_of(s@.take(0)));
    }
    while i < s.len()
        invariant
            i <= s@.len(),
            word@.len() > 0 <==> i > 0 && !blank(s@[i - 1]),
            words_of(s@.take(i as int)) == if word@.len() > 0 {
                texts(list@).push(word@)
            } else {
                texts(list@)
            },
        decreases s@.len() - i,
    {
        let c: char = s[i];
        let ghost before = s@.take(i as int);
        let ghost after = s@.take(i + 1);
        let ghost list_before = list@;
        let ghost word_before = word@;
        proof {
            assert(after.drop_last() =~= before);
            assert(after.last() == c);
        }
        if is_blank(c) {
            if word.len() > 0 {
                list.push(word);
                word = Vec::new();
                assert(texts(list@) =~= texts(list_before).push(word_before));
            }
        } else {
            word.push(c);
            proof {
                if word_before.len() > 0 {
                    assert(after[after.len() - 2] == s@[i - 1]);
                    assert(texts(list@).push(word@) =~= words_of(before).drop_last().push(
                        words_of(before).last().push(c),
                    ));
                } else {
                    assert(word@ =~= seq![c]);
                }
            }
        }
        i += 1;
    }
    proof {
        assert(s@.take(s@.len() as int) =~= s@);
    }
    if word.len() > 0 {
        let ghost list_before = list@;
        let ghost last = word@;
        list.push(word);
        assert(texts(list@) =~= texts(list_before).push(last));
    }
    list
}

/// The characters that trimming takes off: the white space of Unicode.
pub open spec fn space(c: char) -> bool {
    let n = c as u32;
    9 <= n <= 13 || n == 32 || n == 0x85 || n == 0xA0 || n == 0x1680 || 0x2000 <= n <= 0x200A || n
        == 0x2028 || n == 0x2029 || n == 0x202F || n == 0x205F || n == 0x3000
}

pub fn is_space(c: char) -> (res: bool)
    ensures
        res == space(c),
{
    let n: u32 = c as u32;
    (9 <= n && n <= 13) || n == 32 || n == 0x85 || n == 0xA0 || n == 0x1680 || (0x2000 <= n && n
        <= 0x200A) || n == 0x2028 || n == 0x2029 || n == 0x202F || n == 0x205F || n == 0x3000
}

/// The text consists of white space.
pub open spec fn all_space(s: Seq<char>) -> bool {
    forall|i: int| 0 <= i < s.len() ==> space(#[trigger] s[i])
}

/// The number of characters at the start that are white space.
pub open spec fn leading(s: Seq<char>) -> int
    decreases s.len(),
{
    if s.len() == 0 || !space(s[0]) {
        0
    } else {
        1 + leading(s.drop_first())
    }
}

/// The length of the text without the white space at its end.
pub open spec fn without_trailing(s: Seq<char>) -> int
    decreases s.len(),
{
    if s.len() == 0 || !space(s.last()) {
        s.len() as int
    } else {
        without_trailing(s.drop_last())
    }
}

/// The text without white space at both ends.
pub open spec fn trimmed(s: Seq<char>) -> Seq<char> {
    let t = s.take(without_trailing(s));
    t.skip(leading(t))
}

proof fn lemma_leading(s: Seq<char>, n: int)
    requires
        0 <= n <= s.len(),
        forall|i: int| 0 <= i < n ==> space(#[trigger] s[i]),
        n == s.len() || !space(s[n]),
    ensures
        leading(s) == n,
    decreases n,
{
    if n > 0 {
        assert(space(s[0]));
        assert(s.drop_first().len() == s.len() - 1);
        assert forall|i: int| 0 <= i < n - 1 implies space(#[trigger] s.drop_first()[i]) by {
            assert(space(s[i + 1]));
        }
        lemma_leading(s.drop_first(), n - 1);
    }
}

/// Takes white space off both ends.
pub fn trim(s: &Vec<char>) -> (res: Vec<char>)
    ensures
        res@ == trimmed(s@),
{
    let mut end: usize = s.len();
    proof {
        assert(s@.take(s@.len() as int) =~= s@);
    }
    while end > 0 && is_space(s[end - 1])
        invariant
            end <= s@.len(),
            without_trailing(s@) == without_trailing(s@.take(end as int)),
        decreases end,
    {
        proof {
            assert(s@.take(end as int).drop_last() =~= s@.take(end - 1));
        }
        end -= 1;
    }
    let ghost t = s@.take(end as int);
    let mut start: usize = 0;
    while start < end && is_space(s[start])
        invariant
            start <= end <= s@.len(),
            t == s@.take(end as int),
            forall|i: int| 0 <= i < start ==> space(#[trigger] t[i]),
        decreases end - start,
    {
        start += 1;
    }
    proof {
        lemma_leading(t, start as int);
    }
    let mut res: Vec<char> = Vec::new();
    let mut i: usize = start;
    while i < end
        invariant
            start <= i <= end <= s@.len(),
            t == s@.take(end as int),
            res@ == t.subrange(start as int, i as int),
        decreases end - i,
    {
        res.push(s[i]);
        i += 1;
        assert(res@ =~= t.subrange(start as int, i as int));
    }
    assert(res@ =~= t.skip(start as int));
    res
}

/// The length of the text without the separators at its end.
pub open spec fn without_blanks(s: Seq<char>) -> int
    decreases s.len(),
{
    if s.len() == 0 || !blank(s.last()) {
        s.len() as int
    } else {
        without_blanks(s.drop_last())
    }
}

/// Takes separators off the end.
pub fn trim_blank_end(s: &Vec<char>) -> (res: Vec<char>)
    ensures
        res@ == s@.take(without_blanks(s@)),
{
    let mut end: usize = s.len();
    proof {
        assert(s@.take(s@.len() as int) =~= s@);
    }
    while end > 0 && is_blank(s[end - 1])
        invariant
            end <= s@.len(),
            without_blanks(s@) == without_blanks(s@.take(end as int)),
        decreases end,
    {
        proof {
            assert(s@.take(end as int).drop_last() =~= s@.take(end - 1));
        }
        end -= 1;
    }
    let res = copy_range(s, 0, end);
    assert(res@ =~= s@.take(end as int));
    res
}

/// A letter of the alphabet in lower case.
pub open spec fn lower(c: char) -> char {
    if 'A' <= c <= 'Z' {
        (c as u32 + 32) as char
    } else {
        c
    }
}

pub fn to_lower(c: char) -> (res: char)
    ensures
        res == lower(c),
{
    if 'A' <= c && c <= 'Z' {
        ((c as u8) + 32) as char
    } else {
        c
    }
}

/// The characters of a string with the letters of the alphabet in lower case.
pub fn lower_chars(s: &str) -> (res: Vec<char>)
    ensures
        res@ == s@.map_values(|c: char| lower(c)),
{
    let chars = chars_of(s);
    let mut res: Vec<char> = Vec::new();
    let mut i: usize = 0;
    while i < chars.len()
        invariant
            i <= chars@.len(),
            chars@ == s@,
            res@ == s@.take(i as int).map_values(|c: char| lower(c)),
        decreases chars@.len() - i,
    {
        res.push(to_lower(chars[i]));
        i += 1;
        assert(res@ =~= s@.take(i as int).map_values(|c: char| lower(c)));
    }
    assert(s@.take(s@.len() as int) =~= s@);
    res
}

/// The string of some characters.
pub fn string_of(s: &Vec<char>) -> (res: String)
    ensures
        res@ == s@,
{
    let mut res = String::new();
    let mut i: usize = 0;
    assert(res@ =~= s@.take(0));
    while i < s.len()
        invariant
            i <= s@.len(),
            res@ == s@.take(i as int),
        decreases s@.len() - i,
    {
        res.push(s[i]);
        i += 1;
        assert(res@ =~= s@.take(i as int));
    }
    assert(s@.take(s@.len() as int) =~= s@);
    res
}

/// `t` stands in `s` at `i`.
pub open spec fn stands_at(s: Seq<char>, t: Seq<char>, i: int) -> bool {
    0 <= i && i + t.len() <= s.len() && s.subrange(i, i + t.len()) == t
}

/// `i` is the first place at which `t` stands in `s`.
pub open spec fn first_at(s: Seq<char>, t: Seq<char>, i: int) -> bool {
    stands_at(s, t, i) && forall|j: int| 0 <= j < i ==> !#[trigger] stands_at(s, t, j)
}

/// `a` and `b` are what comes before and after the first `t` in `s`; without a `t` the
/// first is all of `s` and the second empty.
pub open spec fn cut(s: Seq<char>, t: Seq<char>, a: Seq<char>, b: Seq<char>) -> bool {
    ||| exists|i: int| #[trigger]
        first_at(s, t, i) && a == s.take(i) && b == s.skip(i + t.len())
    ||| (forall|i: int| !#[trigger] stands_at(s, t, i)) && a == s && b.len() == 0
}

/// Whether `t` stands in `s` at `i`.
fn is_at(s: &Vec<char>, t: &Vec<char>, i: usize) -> (res: bool)
    requires
        i <= s@.len(),
    ensures
        res == stands_at(s@, t@, i as int),
{
    let size: usize = s.len();
    if t.len() > size - i {
        return false;
    }
    let mut j: usize = 0;
    while j < t.len()
        invariant
            j <= t@.len(),
            size == s@.len(),
            i + t@.len() <= size,
            forall|k: int| 0 <= k < j ==> s@[i + k] == #[trigger] t@[k],
        decreases t@.len() - j,
    {
        if s[i + j] != t[j] {
            proof {
                assert(s@.subrange(i as int, i + t@.len())[j as int] == s@[i + j]);
            }
            return false;
        }
        j += 1;
    }
    assert(s@.subrange(i as int, i + t@.len()) =~= t@);
    true
}

fn copy_range(s: &Vec<char>, a: usize, b: usize) -> (res: Vec<char>)
    requires
        a <= b <= s@.len(),
    ensures
        res@ == s@.subrange(a as int, b as int),
{
    let mut res: Vec<char> = Vec::new();
    let mut i: usize = a;
    while i < b
        invariant
            a <= i <= b <= s@.len(),
            res@ == s@.subrange(a as int, i as int),
        decreases b - i,
    {
        res.push(s[i]);
        i += 1;
        assert(res@ =~= s@.subrange(a as int, i as int));
    }
    res
}

/// Cuts a text at the first place where another one stands in it.
pub fn split_once(s: &Vec<char>, pattern: &str) -> (res: (Vec<char>, Vec<char>))
    ensures
        cut(s@, pattern@, res.0@, res.1@),
{
    let t = chars_of(pattern);
    let n: usize = s.len();
    let mut i: usize = 0;
    while i < n && !is_at(s, &t, i)
        invariant
            i <= n,
            n == s@.len(),
            t@ == pattern@,
            forall|j: int| 0 <= j < i ==> !#[trigger] stands_at(s@, t@, j),
        decreases n - i,
    {
        i += 1;
    }
    if is_at(s, &t, i) {
        let before = copy_range(s, 0, i);
        let after = copy_range(s, i + t.len(), n);
        proof {
            assert(first_at(s@, t@, i as int));
            assert(before@ =~= s@.take(i as int));
            assert(after@ =~= s@.skip(i + t@.len()));
        }
        return (before, after);
    }
    proof {
        assert forall|j: int| !#[trigger] stands_at(s@, t@, j) by {}
        assert(s@.subrange(0, n as int) =~= s@);
    }
    (copy_range(s, 0, n), Vec::new())
}

} // verus!
