//! Text as sequences of characters: splitting, trimming, joining, numerals.

use vstd::prelude::*;

verus! {

/// `String::push` appends one character.
pub assume_specification[ String::push ](s: &mut String, c: char)
    ensures
        final(s)@ == old(s)@.push(c),
;

/// The contents of a list of strings.
pub open spec fn texts(list: Seq<String>) -> Seq<Seq<char>> {
    Seq::new(list.len(), |i: int| list[i]@)
}

/// The characters of a string.
pub fn chars_of(s: &str) -> (r: Vec<char>)
    ensures
        r@ == s@,
{
    let mut r: Vec<char> = Vec::new();
    for c in it: s.chars()
        invariant
            r@ == it.seq().take(it.index() as int),
            it.seq() == s@,
    {
        r.push(c);
    }
    assert(r@ =~= s@);
    r
}

/// The string of the given characters.
pub fn string_of(chars: &[char]) -> (r: String)
    ensures
        r@ == chars@,
{
    let mut r = String::new();
    let mut i: usize = 0;
    while i < chars.len()
        invariant
            i <= chars@.len(),
            r@ == chars@.take(i as int),
        decreases chars@.len() - i,
    {
        r.push(chars[i]);
        i += 1;
        assert(chars@.take(i as int) =~= chars@.take(i - 1).push(chars@[i - 1]));
    }
    assert(chars@.take(i as int) =~= chars@);
    r
}

/// Whether two strings hold the same characters.
pub fn same_text(a: &str, b: &str) -> (r: bool)
    ensures
        r == (a@ == b@),
{
    a.to_owned() == b.to_owned()
}

/// The parts of a text between the characters at which it is cut.
pub open spec fn split_by(s: Seq<char>, cut: spec_fn(char) -> bool) -> Seq<Seq<char>>
    decreases s.len(),
{
    if s.len() == 0 {
        seq![Seq::<char>::empty()]
    } else {
        let parts = split_by(s.drop_last(), cut);
        if cut(s.last()) {
            parts.push(Seq::<char>::empty())
        } else {
            parts.drop_last().push(parts.last().push(s.last()))
        }
    }
}

/// The parts of a text between its spaces.
pub open spec fn split_spaces(s: Seq<char>) -> Seq<Seq<char>> {
    split_by(s, |c: char| c == ' ')
}

/// The parts that are not empty.
pub open spec fn non_empty(parts: Seq<Seq<char>>) -> Seq<Seq<char>>
    decreases parts.len(),
{
    if parts.len() == 0 {
        parts
    } else if parts.last().len() == 0 {
        non_empty(parts.drop_last())
    } else {
        non_empty(parts.drop_last()).push(parts.last())
    }
}

/// Whether a character has the Unicode property White_Space.
pub open spec fn white(c: char) -> bool {
    let v = c as u32;
    ||| 0x9 <= v <= 0xD
    ||| v == 0x20
    ||| v == 0x85
    ||| v == 0xA0
    ||| v == 0x1680
    ||| 0x2000 <= v <= 0x200A
    ||| v == 0x2028
    ||| v == 0x2029
    ||| v == 0x202F
    ||| v == 0x205F
    ||| v == 0x3000
}

/// The words of a text: its parts between white space, empty ones left out.
pub open spec fn words(s: Seq<char>) -> Seq<Seq<char>> {
    non_empty(split_by(s, |c: char| white(c)))
}

/// How many characters of white space a text begins with.
pub open spec fn leading_white(s: Seq<char>) -> int
    decreases s.len(),
{
    if s.len() == 0 || !white(s[0]) {
        0
    } else {
        1 + leading_white(s.drop_first())
    }
}

/// How many characters of white space a text ends with.
pub open spec fn trailing_white(s: Seq<char>) -> int
    decreases s.len(),
{
    if s.len() == 0 || !white(s.last()) {
        0
    } else {
        1 + trailing_white(s.drop_last())
    }
}

/// A text without the white space at its two ends.
pub open spec fn trimmed(s: Seq<char>) -> Seq<char> {
    let rest = s.skip(leading_white(s));
    rest.take(rest.len() - trailing_white(rest))
}

/// The parts of a text, with one space between each two.
pub open spec fn joined(parts: Seq<Seq<char>>) -> Seq<char>
    decreases parts.len(),
{
    if parts.len() == 0 {
        Seq::empty()
    } else if parts.len() == 1 {
        parts[0]
    } else {
        joined(parts.drop_last()).push(' ') + parts.last()
    }
}

/// A text always has at least one part.
pub proof fn lemma_split_has_part(s: Seq<char>, cut: spec_fn(char) -> bool)
    ensures
        split_by(s, cut).len() >= 1,
    decreases s.len(),
{
    if s.len() > 0 {
        lemma_split_has_part(s.drop_last(), cut);
    }
}

/// Splits a text at its spaces.
pub fn split_at_spaces(chars: &[char]) -> (r: Vec<String>)
    ensures
        texts(r@) == split_spaces(chars@),
{
    let mut parts: Vec<String> = Vec::new();
    let mut part = String::new();
    let mut i: usize = 0;
    let ghost cut = |c: char| c == ' ';
    assert(split_by(chars@.take(0), cut) =~= texts(parts@).push(part@));
    while i < chars.len()
        invariant
            i <= chars@.len(),
            cut == (|c: char| c == ' '),
            split_by(chars@.take(i as int), cut) == texts(parts@).push(part@),
        decreases chars@.len() - i,
    {
        let c = chars[i];
        let ghost before = texts(parts@).push(part@);
        let ghost part0 = part@;
        let ghost head = chars@.take(i + 1);
        assert(head.drop_last() =~= chars@.take(i as int));
        assert(before.drop_last() =~= texts(parts@));
        if c == ' ' {
            let ghost parts0 = parts@;
            parts.push(part);
            part = String::new();
            assert(texts(parts@) =~= texts(parts0).push(part0));
        } else {
            part.push(c);
        }
        assert(split_by(head, cut) =~= texts(parts@).push(part@));
        i += 1;
    }
    assert(chars@.take(i as int) =~= chars@);
    let ghost parts0 = parts@;
    let ghost part0 = part@;
    parts.push(part);
    assert(texts(parts@) =~= texts(parts0).push(part0));
    parts
}

/// Whether a character is white space.
pub fn is_white(c: char) -> (r: bool)
    ensures
        r == white(c),
{
    let v = c as u32;
    (0x9 <= v && v <= 0xD) || v == 0x20 || v == 0x85 || v == 0xA0 || v == 0x1680 || (0x2000 <= v
        && v <= 0x200A) || v == 0x2028 || v == 0x2029 || v == 0x202F || v == 0x205F || v == 0x3000
}

/// Splits a text into its words.
pub fn split_words(chars: &[char]) -> (r: Vec<String>)
    ensures
        texts(r@) == words(chars@),
{
    let mut parts: Vec<String> = Vec::new();
    let mut part = String::new();
    let mut i: usize = 0;
    let ghost cut = |c: char| white(c);
    assert(split_by(chars@.take(0), cut) =~= seq![Seq::<char>::empty()]);
    assert(split_by(chars@.take(0), cut).drop_last() =~= Seq::<Seq<char>>::empty());
    assert(texts(parts@) =~= Seq::<Seq<char>>::empty());
    while i < chars.len()
        invariant
            i <= chars@.len(),
            cut == (|c: char| white(c)),
            split_by(chars@.take(i as int), cut).len() >= 1,
            split_by(chars@.take(i as int), cut).last() == part@,
            non_empty(split_by(chars@.take(i as int), cut).drop_last()) == texts(parts@),
        decreases chars@.len() - i,
    {
        let c = chars[i];
        let ghost before = split_by(chars@.take(i as int), cut);
        let ghost part0 = part@;
        let ghost head = chars@.take(i + 1);
        assert(head.drop_last() =~= chars@.take(i as int));
        let ghost after = split_by(head, cut);
        if is_white(c) {
            assert(after == before.push(Seq::<char>::empty()));
            assert(after.drop_last() =~= before);
            if !part.as_str().is_empty() {
                let ghost parts0 = parts@;
                parts.push(part);
                assert(texts(parts@) =~= texts(parts0).push(part0));
            }
            part = String::new();
        } else {
            part.push(c);
            assert(after == before.drop_last().push(part0.push(c)));
            assert(after.drop_last() =~= before.drop_last());
        }
        i += 1;
    }
    assert(chars@.take(i as int) =~= chars@);
    let ghost part0 = part@;
    if !part.as_str().is_empty() {
        let ghost parts0 = parts@;
        parts.push(part);
        assert(texts(parts@) =~= texts(parts0).push(part0));
    }
    parts
}

/// A text without the white space at its two ends.
pub fn trim(chars: &[char]) -> (r: Vec<char>)
    ensures
        r@ == trimmed(chars@),
{
    let n = chars.len();
    let mut from: usize = 0;
    assert(chars@.skip(0) =~= chars@);
    while from < n && is_white(chars[from])
        invariant
            from <= n,
            n == chars@.len(),
            leading_white(chars@) == from + leading_white(chars@.skip(from as int)),
        decreases n - from,
    {
        assert(chars@.skip(from as int).drop_first() =~= chars@.skip(from + 1));
        from += 1;
    }
    let ghost rest = chars@.skip(from as int);
    assert(from == leading_white(chars@));
    let mut to: usize = n;
    assert(rest.take(n - from) =~= rest);
    while to > from && is_white(chars[to - 1])
        invariant
            from <= to <= n,
            n == chars@.len(),
            rest == chars@.skip(from as int),
            trailing_white(rest) == (n - to) + trailing_white(rest.take(to - from)),
        decreases to - from,
    {
        assert(rest.take(to - from).drop_last() =~= rest.take(to - from - 1));
        to -= 1;
    }
    let mut r: Vec<char> = Vec::new();
    let mut i: usize = from;
    while i < to
        invariant
            from <= i <= to <= n,
            n == chars@.len(),
            r@ == chars@.subrange(from as int, i as int),
        decreases to - i,
    {
        r.push(chars[i]);
        i += 1;
        assert(r@ =~= chars@.subrange(from as int, i as int));
    }
    assert(r@ =~= trimmed(chars@));
    r
}

/// Joins texts with one space between each two.
pub fn join_with_spaces(parts: &[String]) -> (r: String)
    ensures
        r@ == joined(texts(parts@)),
{
    let mut r = String::new();
    let mut i: usize = 0;
    assert(texts(parts@).take(0) =~= Seq::<Seq<char>>::empty());
    while i < parts.len()
        invariant
            i <= parts@.len(),
            r@ == joined(texts(parts@).take(i as int)),
        decreases parts@.len() - i,
    {
        let ghost head = texts(parts@).take(i + 1);
        assert(head.drop_last() =~= texts(parts@).take(i as int));
        let ghost before = r@;
        if i > 0 {
            r.push(' ');
        }
        r.append(parts[i].as_str());
        assert(r@ =~= joined(head));
        i += 1;
    }
    assert(texts(parts@).take(i as int) =~= texts(parts@));
    r
}

/// The numeral of one decimal digit.
pub open spec fn digit_char(d: nat) -> char {
    (48 + d) as char
}

/// The decimal numeral of a number.
pub open spec fn numeral(n: nat) -> Seq<char>
    decreases n,
{
    if n < 10 {
        seq![digit_char(n)]
    } else {
        numeral(n / 10).push(digit_char(n % 10))
    }
}

/// Writes a number in decimal.
pub fn decimal(n: usize) -> (r: String)
    ensures
        r@ == numeral(n as nat),
    decreases n,
{
    let mut r = if n < 10 {
        String::new()
    } else {
        decimal(n / 10)
    };
    let d = n % 10;
    let c = (48u8 + d as u8) as char;
    r.push(c);
    assert(r@ =~= numeral(n as nat));
    r
}

/// The value of a text of decimal digits; the empty text has the value zero.
pub open spec fn digits_value(s: Seq<char>) -> Option<nat>
    decreases s.len(),
{
    if s.len() == 0 {
        Some(0)
    } else {
        match digits_value(s.drop_last()) {
            Some(v) => if '0' <= s.last() <= '9' {
                Some((v * 10 + (s.last() as int - 48)) as nat)
            } else {
                None
            },
            None => None,
        }
    }
}

/// The number that a text writes: an optional plus sign and decimal digits.
pub open spec fn number_value(s: Seq<char>) -> Option<nat> {
    let digits = if s.len() > 0 && s[0] == '+' {
        s.skip(1)
    } else {
        s
    };
    if digits.len() == 0 {
        None
    } else {
        digits_value(digits)
    }
}

/// More digits write no smaller number.
proof fn lemma_digits_grow(s: Seq<char>, n: int)
    requires
        0 <= n <= s.len(),
    ensures
        digits_value(s) matches Some(v) ==> (digits_value(s.take(n)) matches Some(u) && u <= v),
    decreases s.len() - n,
{
    if n < s.len() {
        lemma_digits_grow(s, n + 1);
        assert(s.take(n + 1).drop_last() =~= s.take(n));
    } else {
        assert(s.take(n) =~= s);
    }
}

/// Reads a number: an optional plus sign and decimal digits.  There is none
/// where the text is not of this form or the number does not fit.
pub fn parse_number(chars: &[char]) -> (r: Option<usize>)
    ensures
        match r {
            Some(n) => number_value(chars@) == Some(n as nat),
            None => number_value(chars@) matches Some(n) ==> n > usize::MAX,
        },
{
    let from: usize = if chars.len() > 0 && chars[0] == '+' {
        1
    } else {
        0
    };
    let ghost digits = chars@.skip(from as int);
    assert(from == 0 ==> digits =~= chars@);
    if from == chars.len() {
        return None;
    }
    let mut value: usize = 0;
    let mut i: usize = from;
    assert(digits.take(0) =~= Seq::<char>::empty());
    while i < chars.len()
        invariant
            from <= i <= chars@.len(),
            from < chars@.len(),
            digits == chars@.skip(from as int),
            number_value(chars@) == digits_value(digits),
            digits_value(digits.take(i - from)) == Some(value as nat),
        decreases chars@.len() - i,
    {
        let c = chars[i];
        assert(digits.take(i - from + 1).drop_last() =~= digits.take(i - from));
        assert(digits.take(i - from + 1).last() == c);
        proof {
            lemma_digits_grow(digits, i - from + 1);
        }
        if !('0' <= c && c <= '9') {
            return None;
        }
        let d = (c as u32 - 48) as usize;
        match value.checked_mul(10) {
            Some(shifted) => match shifted.checked_add(d) {
                Some(next) => {
                    value = next;
                },
                None => {
                    return None;
                },
            },
            None => {
                return None;
            },
        }
        i += 1;
    }
    assert(digits.take(i - from) =~= digits);
    Some(value)
}

/// A character with ASCII capitals made small.
pub open spec fn ascii_lower_char(c: char) -> char {
    if 'A' <= c <= 'Z' {
        (c as int + 32) as char
    } else {
        c
    }
}

/// A text with ASCII capitals made small.
pub open spec fn ascii_lower(s: Seq<char>) -> Seq<char> {
    s.map_values(|c: char| ascii_lower_char(c))
}

/// Makes the ASCII capitals of a text small.
pub fn to_ascii_lower(chars: &[char]) -> (r: Vec<char>)
    ensures
        r@ == ascii_lower(chars@),
{
    let mut r: Vec<char> = Vec::new();
    let mut i: usize = 0;
    while i < chars.len()
        invariant
            i <= chars@.len(),
            r@.len() == i,
            forall|k: int| 0 <= k < i ==> #[trigger] r@[k] == ascii_lower_char(chars@[k]),
        decreases chars@.len() - i,
    {
        let c = chars[i];
        if 'A' <= c && c <= 'Z' {
            r.push((c as u8 + 32) as char);
        } else {
            r.push(c);
        }
        i += 1;
    }
    assert(r@ =~= ascii_lower(chars@));
    r
}

/// Whether `bs` holds the bounds of parts of a text, one after the other.
pub open spec fn are_bounds(bs: Seq<(int, int)>, len: int) -> bool {
    &&& forall|i: int| 0 <= i < bs.len() ==> 0 <= (#[trigger] bs[i]).0 <= bs[i].1 <= len
    &&& forall|i: int, j: int|
        0 <= i < j < bs.len() ==> (#[trigger] bs[i]).1 < (#[trigger] bs[j]).0
}

/// Whether part `i` ends at a character of `cut`, and the next part begins right
/// after it.
pub open spec fn cut_after(
    s: Seq<char>,
    cut: spec_fn(char) -> bool,
    bs: Seq<(int, int)>,
    i: int,
) -> bool {
    cut(s[bs[i].1]) && bs[i + 1].0 == bs[i].1 + 1
}

/// Splitting cuts a text at exactly the characters that `cut` names: the parts
/// lie between them, from the beginning of the text to its end, with one such
/// character between each two, and hold none.
pub proof fn law_split_is_between_cuts(s: Seq<char>, cut: spec_fn(char) -> bool) -> (bs: Seq<
    (int, int),
>)
    ensures
        bs.len() == split_by(s, cut).len(),
        bs.len() >= 1,
        bs[0].0 == 0,
        bs[bs.len() - 1].1 == s.len(),
        are_bounds(bs, s.len() as int),
        forall|i: int|
            0 <= i < bs.len() ==> #[trigger] split_by(s, cut)[i] == s.subrange(
                bs[i].0,
                bs[i].1,
            ),
        forall|i: int, k: int|
            0 <= i < bs.len() && (#[trigger] bs[i]).0 <= k < bs[i].1 ==> !cut(#[trigger] s[k]),
        forall|i: int| 0 <= i < bs.len() - 1 ==> #[trigger] cut_after(s, cut, bs, i),
    decreases s.len(),
{
    let n = s.len() as int;
    if n == 0 {
        let bs = seq![(0int, 0int)];
        assert(s.subrange(0, 0) =~= Seq::<char>::empty());
        bs
    } else {
        let before = s.drop_last();
        let old_bs = law_split_is_between_cuts(before, cut);
        let m = old_bs.len() - 1;
        let parts = split_by(before, cut);
        assert forall|i: int| 0 <= i < old_bs.len() implies before.subrange(
            (#[trigger] old_bs[i]).0,
            old_bs[i].1,
        ) =~= s.subrange(old_bs[i].0, old_bs[i].1) by {}
        if cut(s.last()) {
            let bs = old_bs.push((n, n));
            assert(s.subrange(n, n) =~= Seq::<char>::empty());
            assert forall|i: int| 0 <= i < bs.len() implies #[trigger] split_by(s, cut)[i]
                == s.subrange(bs[i].0, bs[i].1) by {
                if i <= m {
                    assert(parts[i] == before.subrange(old_bs[i].0, old_bs[i].1));
                }
            }
            assert forall|i: int| 0 <= i < bs.len() - 1 implies #[trigger] cut_after(
                s,
                cut,
                bs,
                i,
            ) by {
                if i < m {
                    assert(cut_after(before, cut, old_bs, i));
                    assert(old_bs[i].1 < old_bs[i + 1].0);
                }
            }
            assert forall|i: int, k: int|
                0 <= i < bs.len() && (#[trigger] bs[i]).0 <= k < bs[i].1 implies !cut(
                #[trigger] s[k],
            ) by {
                assert(!cut(before[k]));
            }
            bs
        } else {
            let bs = old_bs.drop_last().push((old_bs[m].0, n));
            assert forall|i: int| 0 <= i < bs.len() implies #[trigger] split_by(s, cut)[i]
                == s.subrange(bs[i].0, bs[i].1) by {
                assert(parts[i] == before.subrange(old_bs[i].0, old_bs[i].1));
                if i == m {
                    assert(s.subrange(old_bs[m].0, n) =~= before.subrange(
                        old_bs[m].0,
                        n - 1,
                    ).push(s.last()));
                }
            }
            assert forall|i: int, j: int| 0 <= i < j < bs.len() implies (#[trigger] bs[i]).1
                < (#[trigger] bs[j]).0 by {
                assert(old_bs[i].1 < old_bs[j].0);
            }
            assert forall|i: int| 0 <= i < bs.len() - 1 implies #[trigger] cut_after(
                s,
                cut,
                bs,
                i,
            ) by {
                assert(cut_after(before, cut, old_bs, i));
                assert(old_bs[i].1 < old_bs[i + 1].0);
            }
            assert forall|i: int, k: int|
                0 <= i < bs.len() && (#[trigger] bs[i]).0 <= k < bs[i].1 implies !cut(
                #[trigger] s[k],
            ) by {
                if k < n - 1 {
                    assert(old_bs[i].0 <= k < old_bs[i].1);
                    assert(!cut(before[k]));
                }
            }
            bs
        }
    }
}

/// Leaving out the empty parts of a list keeps the others, in their order.
pub proof fn law_non_empty_keeps_the_others(parts: Seq<Seq<char>>) -> (ks: Seq<int>)
    ensures
        ks.len() == non_empty(parts).len(),
        forall|i: int|
            0 <= i < ks.len() ==> 0 <= #[trigger] ks[i] < parts.len() && parts[ks[i]].len() > 0
                && non_empty(parts)[i] == parts[ks[i]],
        forall|i: int, j: int| 0 <= i < j < ks.len() ==> #[trigger] ks[i] < #[trigger] ks[j],
        forall|k: int|
            0 <= k < parts.len() && (#[trigger] parts[k]).len() > 0 ==> ks.contains(k),
    decreases parts.len(),
{
    if parts.len() == 0 {
        Seq::empty()
    } else {
        let before = parts.drop_last();
        let n = before.len() as int;
        let old_ks = law_non_empty_keeps_the_others(before);
        let ks = if parts.last().len() == 0 {
            old_ks
        } else {
            old_ks.push(n)
        };
        assert forall|i: int| 0 <= i < ks.len() implies 0 <= #[trigger] ks[i] < parts.len()
            && parts[ks[i]].len() > 0 && non_empty(parts)[i] == parts[ks[i]] by {
            if i < old_ks.len() {
                assert(before[old_ks[i]] == parts[old_ks[i]]);
            }
        }
        assert forall|k: int| 0 <= k < parts.len() && (#[trigger] parts[k]).len() > 0 implies
            ks.contains(k) by {
            if k < n {
                assert(before[k].len() > 0);
                let i = choose|i: int| 0 <= i < old_ks.len() && old_ks[i] == k;
                assert(ks[i] == k);
            } else {
                assert(ks[ks.len() - 1] == n);
            }
        }
        ks
    }
}

/// The words of a text are its longest stretches without white space, in order:
/// every character that is not white space lies in one, and between two words
/// there is white space only, and some.
pub proof fn law_words_are_the_stretches(s: Seq<char>) -> (bs: Seq<(int, int)>)
    ensures
        bs.len() == words(s).len(),
        are_bounds(bs, s.len() as int),
        forall|i: int|
            0 <= i < bs.len() ==> (#[trigger] bs[i]).0 < bs[i].1 && words(s)[i] == s.subrange(
                bs[i].0,
                bs[i].1,
            ),
        forall|i: int, k: int|
            0 <= i < bs.len() && (#[trigger] bs[i]).0 <= k < bs[i].1 ==> !white(#[trigger] s[k]),
        forall|k: int|
            0 <= k < s.len() && !white(#[trigger] s[k]) ==> exists|i: int|
                0 <= i < bs.len() && (#[trigger] bs[i]).0 <= k < bs[i].1,
{
    let cut = |c: char| white(c);
    let parts = split_by(s, cut);
    let all = law_split_is_between_cuts(s, cut);
    let ks = law_non_empty_keeps_the_others(parts);
    let bs = Seq::new(ks.len(), |i: int| all[ks[i]]);
    assert(words(s) == non_empty(parts));
    assert forall|i: int| 0 <= i < bs.len() implies (#[trigger] bs[i]).0 < bs[i].1 && words(s)[i]
        == s.subrange(bs[i].0, bs[i].1) by {
        assert(0 <= ks[i] < parts.len());
        assert(parts[ks[i]] == s.subrange(all[ks[i]].0, all[ks[i]].1));
    }
    assert forall|i: int, j: int| 0 <= i < j < bs.len() implies (#[trigger] bs[i]).1
        < (#[trigger] bs[j]).0 by {
        assert(ks[i] < ks[j]);
        assert(all[ks[i]].1 < all[ks[j]].0);
    }
    assert forall|i: int| 0 <= i < bs.len() implies 0 <= (#[trigger] bs[i]).0 <= bs[i].1
        <= s.len() by {
        assert(0 <= all[ks[i]].0 <= all[ks[i]].1 <= s.len());
    }
    assert forall|i: int, k: int|
        0 <= i < bs.len() && (#[trigger] bs[i]).0 <= k < bs[i].1 implies !white(
        #[trigger] s[k],
    ) by {
        assert(all[ks[i]].0 <= k < all[ks[i]].1);
        assert(!cut(s[k]));
    }
    assert forall|k: int| 0 <= k < s.len() && !white(#[trigger] s[k]) implies exists|i: int|
        0 <= i < bs.len() && (#[trigger] bs[i]).0 <= k < bs[i].1 by {
        let m = lemma_part_of(s, cut, all, k, all.len() - 1);
        assert(parts[m] == s.subrange(all[m].0, all[m].1));
        assert(parts[m].len() > 0);
        assert(ks.contains(m));
        let i = choose|i: int| 0 <= i < ks.len() && ks[i] == m;
        assert(bs[i] == all[m]);
    }
    bs
}

/// A character at which a text is not cut lies in one of the first parts, if it
/// lies before the end of the last of them.
proof fn lemma_part_of(
    s: Seq<char>,
    cut: spec_fn(char) -> bool,
    bs: Seq<(int, int)>,
    k: int,
    last: int,
) -> (m: int)
    requires
        0 <= last < bs.len(),
        bs[0].0 == 0,
        0 <= k < bs[last].1,
        k < s.len(),
        !cut(s[k]),
        forall|i: int| 0 <= i < bs.len() - 1 ==> #[trigger] cut_after(s, cut, bs, i),
    ensures
        0 <= m <= last,
        bs[m].0 <= k < bs[m].1,
    decreases last,
{
    if bs[last].0 <= k {
        last
    } else {
        assert(cut_after(s, cut, bs, last - 1));
        lemma_part_of(s, cut, bs, k, last - 1)
    }
}

/// White space is the tab, the line and form feeds, the carriage return, the
/// space, the next line, and the wider spaces and separators of Unicode;
/// letters, digits and marks are not.
pub proof fn law_white_space(c: char)
    ensures
        white(c) <==> (c == ' ' || '\t' <= c <= '\r' || c == '\u{85}' || c == '\u{a0}' || c
            == '\u{1680}' || '\u{2000}' <= c <= '\u{200a}' || c == '\u{2028}' || c == '\u{2029}'
            || c == '\u{202f}' || c == '\u{205f}' || c == '\u{3000}'),
        '!' <= c <= '~' ==> !white(c),
{
}

/// Trimming takes white space off the two ends of a text, all of it and nothing
/// else.
pub proof fn law_trimmed_is_the_middle(s: Seq<char>) -> (r: (int, int))
    ensures
        0 <= r.0 <= r.1 <= s.len(),
        trimmed(s) == s.subrange(r.0, r.1),
        forall|k: int|
            0 <= k < s.len() && !(r.0 <= k < r.1) ==> white(#[trigger] s[k]),
        r.0 < r.1 ==> !white(s[r.0]) && !white(s[r.1 - 1]),
{
    lemma_leading(s);
    let a = leading_white(s);
    let rest = s.skip(a);
    lemma_trailing(rest);
    let b = s.len() - trailing_white(rest);
    assert(trimmed(s) =~= s.subrange(a, b));
    assert forall|k: int| 0 <= k < s.len() && !(a <= k < b) implies white(#[trigger] s[k]) by {
        if k >= a {
            assert(rest[k - a] == s[k]);
        }
    }
    if a < b {
        assert(rest[b - 1 - a] == s[b - 1]);
    }
    (a, b)
}

proof fn lemma_leading(s: Seq<char>)
    ensures
        0 <= leading_white(s) <= s.len(),
        forall|k: int| 0 <= k < leading_white(s) ==> white(#[trigger] s[k]),
        leading_white(s) < s.len() ==> !white(s[leading_white(s)]),
    decreases s.len(),
{
    if s.len() > 0 && white(s[0]) {
        let rest = s.drop_first();
        lemma_leading(rest);
        assert forall|k: int| 0 <= k < leading_white(s) implies white(#[trigger] s[k]) by {
            if k > 0 {
                assert(rest[k - 1] == s[k]);
            }
        }
    }
}

proof fn lemma_trailing(s: Seq<char>)
    ensures
        0 <= trailing_white(s) <= s.len(),
        forall|k: int| s.len() - trailing_white(s) <= k < s.len() ==> white(#[trigger] s[k]),
        trailing_white(s) < s.len() ==> !white(s[s.len() - trailing_white(s) - 1]),
    decreases s.len(),
{
    if s.len() > 0 && white(s.last()) {
        let rest = s.drop_last();
        lemma_trailing(rest);
        assert forall|k: int| s.len() - trailing_white(s) <= k < s.len() implies white(
            #[trigger] s[k],
        ) by {
            if k < s.len() - 1 {
                assert(rest[k] == s[k]);
            }
        }
    }
}

/// Joining puts the parts one after the other with one space between each two:
/// part `i` begins after all earlier parts and their spaces.
pub proof fn law_joined_is_parts_and_spaces(parts: Seq<Seq<char>>) -> (at: Seq<int>)
    ensures
        at.len() == parts.len(),
        parts.len() == 0 ==> joined(parts).len() == 0,
        parts.len() > 0 ==> at[0] == 0 && joined(parts).len() == at[parts.len() - 1]
            + parts[parts.len() - 1].len(),
        forall|i: int|
            0 <= i < parts.len() ==> 0 <= #[trigger] at[i] && at[i] + parts[i].len() <= joined(
                parts,
            ).len() && joined(parts).subrange(at[i], at[i] + parts[i].len()) == parts[i],
        forall|i: int|
            0 <= i < parts.len() - 1 ==> joined(parts)[#[trigger] at[i] + parts[i].len()] == ' '
                && at[i + 1] == at[i] + parts[i].len() + 1,
    decreases parts.len(),
{
    if parts.len() == 0 {
        Seq::empty()
    } else if parts.len() == 1 {
        let at = seq![0int];
        assert(joined(parts).subrange(0, parts[0].len() as int) =~= parts[0]);
        at
    } else {
        let before = parts.drop_last();
        let head = joined(before);
        let n = before.len() as int;
        let old_at = law_joined_is_parts_and_spaces(before);
        let whole = joined(parts);
        let at = old_at.push(head.len() as int + 1);
        assert(whole == head.push(' ') + parts.last());
        assert forall|i: int| 0 <= i < parts.len() implies 0 <= #[trigger] at[i] && at[i]
            + parts[i].len() <= whole.len() && whole.subrange(at[i], at[i] + parts[i].len())
            == parts[i] by {
            if i < n {
                assert(0 <= old_at[i]);
                assert(whole.subrange(at[i], at[i] + parts[i].len()) =~= head.subrange(
                    old_at[i],
                    old_at[i] + before[i].len(),
                ));
            } else {
                assert(whole.subrange(at[i], at[i] + parts[i].len()) =~= parts.last());
            }
        }
        assert forall|i: int| 0 <= i < parts.len() - 1 implies whole[#[trigger] at[i]
            + parts[i].len()] == ' ' && at[i + 1] == at[i] + parts[i].len() + 1 by {
            if i < n - 1 {
                assert(head[old_at[i] + before[i].len()] == ' ');
            }
        }
        at
    }
}

/// A numeral is what its number reads as: it is read back, and begins with no
/// zero but that of the number zero.
pub proof fn law_numeral_round_trip(n: nat)
    ensures
        digits_value(numeral(n)) == Some(n),
        number_value(numeral(n)) == Some(n),
        numeral(n).len() >= 1,
        forall|i: int| 0 <= i < numeral(n).len() ==> '0' <= #[trigger] numeral(n)[i] <= '9',
        n > 0 ==> numeral(n)[0] != '0',
    decreases n,
{
    reveal_with_fuel(digits_value, 2);
    if n < 10 {
        assert(numeral(n).drop_last() =~= Seq::<char>::empty());
    } else {
        law_numeral_round_trip(n / 10);
        assert(numeral(n).drop_last() =~= numeral(n / 10));
    }
}

/// The value of digits: each stands for ten times what one digit after it does.
pub proof fn law_digits_add_up(s: Seq<char>, d: char)
    ensures
        digits_value(Seq::<char>::empty()) == Some(0nat),
        '0' <= d <= '9' ==> (digits_value(s) matches Some(v) ==> digits_value(s.push(d)) == Some(
            (10 * v + (d as int - '0' as int)) as nat,
        )),
        !('0' <= d <= '9') ==> digits_value(s.push(d)) is None,
        digits_value(s) is None ==> digits_value(s.push(d)) is None,
{
    assert(s.push(d).drop_last() =~= s);
}

/// Making ASCII capitals small changes those letters alone.
pub proof fn law_ascii_lower(s: Seq<char>, i: int)
    requires
        0 <= i < s.len(),
    ensures
        ascii_lower(s).len() == s.len(),
        'A' <= s[i] <= 'Z' ==> ascii_lower(s)[i] as int - 'a' as int == s[i] as int - 'A' as int,
        !('A' <= s[i] <= 'Z') ==> ascii_lower(s)[i] == s[i],
{
}

/// A plus sign before digits changes nothing; without digits there is no number.
pub proof fn law_number_may_have_a_plus(s: Seq<char>)
    ensures
        number_value(Seq::<char>::empty()) is None,
        s.len() > 0 ==> number_value(seq!['+'] + s) == digits_value(s),
        s.len() == 0 ==> number_value(seq!['+'] + s) is None,
        s.len() > 0 && s[0] != '+' ==> number_value(s) == digits_value(s),
{
    assert((seq!['+'] + s).skip(1) =~= s);
}

/// White space around a text that has none at its ends comes off again.
pub proof fn law_trimming_undoes_padding(before: Seq<char>, text: Seq<char>, after: Seq<char>)
    requires
        forall|k: int| 0 <= k < before.len() ==> white(#[trigger] before[k]),
        forall|k: int| 0 <= k < after.len() ==> white(#[trigger] after[k]),
        text.len() > 0 ==> !white(text[0]) && !white(text[text.len() - 1]),
    ensures
        trimmed(before + text + after) == text,
{
    let whole = before + text + after;
    let n = before.len() as int;
    let m = n + text.len();
    let (a, b) = law_trimmed_is_the_middle(whole);
    if text.len() > 0 {
        assert(whole[n] == text[0]);
        assert(whole[m - 1] == text[text.len() - 1]);
        assert(a <= n < b && a <= m - 1 < b);
        if a < n {
            assert(whole[a] == before[a]);
        }
        if b > m {
            assert(whole[b - 1] == after[b - 1 - m]);
        }
        assert(whole.subrange(n, m) =~= text);
    } else {
        if a < b {
            if a < n {
                assert(whole[a] == before[a]);
            } else {
                assert(whole[a] == after[a - n]);
            }
        }
        assert(whole.subrange(a, b) =~= text);
    }
}

} // verus!
