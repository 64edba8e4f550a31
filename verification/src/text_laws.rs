//! What the texts of values mean.

use vstd::prelude::*;

use crate::text;

verus! {

// ---------------------------------------------------------------------------
// Numbers.

/// A number below ten is one digit; ten times a number and a digit is its text and that digit.
pub proof fn law_dec(n: nat, d: nat)
    requires
        d < 10,
    ensures
        text::dec(d) == seq![(48 + d) as char],
        n > 0 ==> text::dec(10 * n + d) == text::dec(n).push((48 + d) as char),
{
    assert(text::digit(d) == (48 + d) as char) by {
        lemma_small_char(48 + d);
    }
    if n > 0 {
        assert((10 * n + d) / 10 == n && (10 * n + d) % 10 == d);
    }
}

proof fn lemma_small_char(n: nat)
    requires
        n < 128,
    ensures
        (n as u8) as char == n as char,
{
}

/// The text of a number is read back as that number.
pub proof fn law_dec_reads_back(n: nat)
    ensures
        text::digits_value(text::dec(n)) == Some(n),
        text::dec(n).len() > 0,
        n > 0 ==> text::dec(n)[0] != '0',
        forall|i: int| 0 <= i < text::dec(n).len() ==> '0' <= #[trigger] text::dec(n)[i] <= '9',
    decreases n,
{
    let s = text::dec(n);
    if n < 10 {
        law_dec(0, n);
        assert(s.drop_last() =~= Seq::<char>::empty());
        assert(text::digits_value(Seq::<char>::empty()) == Some(0nat));
        assert(s.last() as nat - '0' as nat == n);
        assert(text::digits_value(s) == Some(n));
    } else {
        law_dec_reads_back(n / 10);
        law_dec(n / 10, n % 10);
        assert(s.drop_last() =~= text::dec(n / 10));
        assert(s.last() as nat - '0' as nat == n % 10);
    }
}

/// One more digit makes a number ten times as large, and adds the digit; anything but a digit
/// makes it no number.
pub proof fn law_digits_value(s: Seq<char>, c: char)
    ensures
        text::digits_value(Seq::empty()) == Some(0nat),
        text::digits_value(s.push(c)) == (match text::digits_value(s) {
            Some(v) => if 48 <= c as int <= 57 {
                Some((10 * v + (c as int - 48)) as nat)
            } else {
                None
            },
            None => None,
        }),
{
    assert(s.push(c).drop_last() =~= s);
}

/// A text is read as a number when it is made of digits, at least one, perhaps behind a plus
/// sign, and the number is not too large; the texts of numbers are.
pub proof fn law_number_value(s: Seq<char>, n: nat)
    ensures
        n <= usize::MAX ==> text::number_value(text::dec(n)) == Some(n),
        n <= usize::MAX ==> text::number_value(seq!['+'] + text::dec(n)) == Some(n),
        text::number_value(Seq::empty()) is None,
        text::number_value(s) matches Some(v) ==> v <= usize::MAX && s.len() > 0 && forall|i: int|
            0 <= i < s.len() ==> '0' <= #[trigger] s[i] <= '9' || (i == 0 && s[i] == '+'),
{
    law_dec_reads_back(n);
    let signed = seq!['+'] + text::dec(n);
    assert(signed.drop_first() =~= text::dec(n));
    if text::number_value(s) is Some {
        let digits = if s.len() > 0 && s[0] == '+' {
            s.drop_first()
        } else {
            s
        };
        lemma_all_digits(digits);
        assert forall|i: int| 0 <= i < s.len() implies '0' <= #[trigger] s[i] <= '9' || (i == 0
            && s[i] == '+') by {
            if s[0] == '+' && i > 0 {
                assert(digits[i - 1] == s[i]);
            } else if s[0] != '+' {
                assert(digits[i] == s[i]);
            }
        }
    }
}

proof fn lemma_all_digits(s: Seq<char>)
    requires
        text::digits_value(s) is Some,
    ensures
        forall|i: int| 0 <= i < s.len() ==> '0' <= #[trigger] s[i] <= '9',
    decreases s.len(),
{
    if s.len() > 0 {
        lemma_all_digits(s.drop_last());
        assert forall|i: int| 0 <= i < s.len() implies '0' <= #[trigger] s[i] <= '9' by {
            if i < s.len() - 1 {
                assert(s.drop_last()[i] == s[i]);
            }
        }
    }
}

/// The text of a negative number is a minus sign and the text of its absolute value.
pub proof fn law_signed_dec(n: nat)
    ensures
        text::signed_dec(n as int) == text::dec(n),
        n > 0 ==> text::signed_dec(-(n as int)) == seq!['-'] + text::dec(n),
{
}

/// The character for a hexadecimal digit.
pub open spec fn hex_char(d: int) -> char {
    if d < 10 {
        (48 + d) as char
    } else {
        (97 + d - 10) as char
    }
}

/// Hexadecimal digits, one by one: the last is the number modulo sixteen, the others those of
/// the number divided by sixteen.
pub proof fn law_hex_digits(n: nat, d: nat, width: nat)
    requires
        d < 16,
    ensures
        text::hex_digits(n, width).len() == width,
        text::hex_digits(16 * n + d, width + 1) == text::hex_digits(n, width).push(
            hex_char(d as int),
        ),
    decreases width,
{
    assert((16 * n + d) / 16 == n && (16 * n + d) % 16 == d);
    assert(text::digit(d) == hex_char(d as int)) by {
        if d < 10 {
            lemma_small_char(48 + d);
        } else {
            lemma_small_char(87 + d);
        }
    }
    if width > 0 {
        law_hex_digits(n / 16, n % 16, (width - 1) as nat);
    }
}

/// Bytes in hexadecimal: two digits for each, the upper half first.
pub proof fn law_hex_text(bytes: Seq<u8>, b: u8)
    ensures
        text::hex_text(Seq::empty()) == Seq::<char>::empty(),
        text::hex_text(bytes.push(b)) == text::hex_text(bytes) + seq![
            hex_char(b as int / 16),
            hex_char(b as int % 16),
        ],
{
    let (hi, lo) = ((b / 16) as nat, (b % 16) as nat);
    assert(bytes.push(b).drop_last() =~= bytes);
    law_hex_digits(hi, lo, 1);
    law_hex_digits(0, hi, 0);
    assert(text::hex_digits(hi, 1) =~= seq![hex_char(hi as int)]);
    assert(text::hex_digits(b as nat, 2) =~= seq![hex_char(hi as int), hex_char(lo as int)]);
}

// ---------------------------------------------------------------------------
// White space and case.

/// Whether all characters are white space.
pub open spec fn is_blank(s: Seq<char>) -> bool {
    forall|i: int| 0 <= i < s.len() ==> text::is_space(#[trigger] s[i])
}

/// In ASCII, white space is the space and the characters from tab to carriage return.
pub proof fn law_ascii_space(c: char)
    requires
        (c as int) < 128,
    ensures
        text::is_space(c) <==> c as int == 32 || 9 <= c as int <= 13,
{
}

proof fn lemma_trimmed_start(s: Seq<char>) -> (a: Seq<char>)
    ensures
        s == a + text::trimmed_start(s),
        is_blank(a),
        text::trimmed_start(s).len() > 0 ==> !text::is_space(text::trimmed_start(s)[0]),
    decreases s.len(),
{
    if s.len() > 0 && text::is_space(s[0]) {
        let rest = lemma_trimmed_start(s.drop_first());
        let a = seq![s[0]] + rest;
        assert(s.drop_first() == rest + text::trimmed_start(s));
        assert(s =~= seq![s[0]] + s.drop_first());
        assert(s =~= a + text::trimmed_start(s));
        a
    } else {
        assert(s =~= Seq::<char>::empty() + s);
        Seq::empty()
    }
}

proof fn lemma_trimmed_end(s: Seq<char>) -> (b: Seq<char>)
    ensures
        s == text::trimmed_end(s) + b,
        is_blank(b),
        text::trimmed_end(s).len() > 0 ==> !text::is_space(text::trimmed_end(s).last())
            && text::trimmed_end(s)[0] == s[0],
    decreases s.len(),
{
    if s.len() > 0 && text::is_space(s.last()) {
        let rest = lemma_trimmed_end(s.drop_last());
        let b = rest.push(s.last());
        assert(s.drop_last() == text::trimmed_end(s) + rest);
        assert(s =~= s.drop_last().push(s.last()));
        assert(s =~= text::trimmed_end(s) + b);
        b
    } else {
        assert(s =~= s + Seq::<char>::empty());
        Seq::empty()
    }
}

/// A trimmed text is the text without white space at either end: what was cut off is white
/// space, and what is left neither begins nor ends with it.
pub proof fn law_trimmed(s: Seq<char>)
    ensures
        exists|a: Seq<char>, b: Seq<char>|
            is_blank(a) && is_blank(b) && s == #[trigger] (a + text::trimmed(s) + b),
        text::trimmed(s).len() > 0 ==> !text::is_space(text::trimmed(s)[0]) && !text::is_space(
            text::trimmed(s).last(),
        ),
{
    let a = lemma_trimmed_start(s);
    let b = lemma_trimmed_end(text::trimmed_start(s));
    assert(s =~= a + text::trimmed(s) + b);
}

/// A text in lower case is as long as before, with each ASCII capital 32 higher and every other
/// character as it was.
pub proof fn law_lowered(s: Seq<char>)
    ensures
        text::lowered(s).len() == s.len(),
        forall|i: int|
            0 <= i < s.len() ==> #[trigger] text::lowered(s)[i] as int == (if 65 <= s[i] as int
                <= 90 {
                s[i] as int + 32
            } else {
                s[i] as int
            }),
{
    assert forall|i: int| 0 <= i < s.len() implies #[trigger] text::lowered(s)[i] as int == (if 65
        <= s[i] as int <= 90 {
        s[i] as int + 32
    } else {
        s[i] as int
    }) by {
        if 65 <= s[i] as int <= 90 {
            lemma_small_char((s[i] as int + 32) as nat);
        }
    }
}

// ---------------------------------------------------------------------------
// Parts of texts.

/// A text occurs in another exactly when that is made of something, the text, and something.
pub proof fn law_contains_text(s: Seq<char>, part: Seq<char>, a: Seq<char>, b: Seq<char>)
    ensures
        text::contains_text(a + part + b, part),
        text::contains_text(s, part) ==> exists|x: Seq<char>, y: Seq<char>|
            s == #[trigger] (x + part + y),
        text::begins_with(part + b, part),
        text::begins_with(s, part) ==> part.is_prefix_of(s),
{
    assert((a + part + b).subrange(a.len() as int, a.len() as int + part.len()) =~= part);
    assert(text::occurs_at(a + part + b, part, a.len() as int));
    assert((part + b).subrange(0, part.len() as int) =~= part);
    if text::contains_text(s, part) {
        let at = choose|at: int| text::occurs_at(s, part, at);
        let x = s.take(at);
        let y = s.skip(at + part.len());
        assert(s =~= x + part + y);
    }
}

/// The part of a text before a character holds no such character, and what follows it, if
/// anything does, begins with one.
pub proof fn law_before(s: Seq<char>, stop: char)
    ensures
        text::before(s, stop).is_prefix_of(s),
        !text::before(s, stop).contains(stop),
        text::before(s, stop).len() == s.len() || s[text::before(s, stop).len() as int] == stop,
    decreases s.len(),
{
    let b = text::before(s, stop);
    if s.len() > 0 && s[0] != stop {
        let rest = s.drop_first();
        let more = text::before(rest, stop);
        law_before(rest, stop);
        assert forall|i: int| 0 <= i < b.len() implies #[trigger] b[i] == s[i] && b[i] != stop by {
            if i > 0 {
                assert(b[i] == more[i - 1]);
                assert(rest[i - 1] == s[i]);
                assert(more.contains(more[i - 1]));
            }
        }
        assert(b =~= s.subrange(0, b.len() as int));
        if b.len() < s.len() {
            assert(rest[more.len() as int] == s[b.len() as int]);
        }
    } else {
        assert(b =~= s.subrange(0, 0));
    }
}

/// The parts of a text between separators hold no separator, and joined by it they are the text.
pub proof fn law_parts(s: Seq<char>, sep: char)
    ensures
        text::parts(s, sep).len() > 0,
        text::joined(text::parts(s, sep), seq![sep]) == s,
        forall|i: int| 0 <= i < text::parts(s, sep).len() ==> !(#[trigger] text::parts(s, sep)[i]).contains(sep),
    decreases s.len(),
{
    let all = text::parts(s, sep);
    if s.len() > 0 {
        let c = s.last();
        let before = text::parts(s.drop_last(), sep);
        law_parts(s.drop_last(), sep);
        if c == sep {
            assert(all.drop_last() =~= before);
            assert(text::joined(all, seq![sep]) =~= s);
        } else {
            let longer = before.last().push(c);
            assert(all.last() == longer);
            assert forall|i: int| 0 <= i < all.len() implies !(#[trigger] all[i]).contains(sep) by {
                if i < before.len() - 1 {
                    assert(all[i] == before[i]);
                } else {
                    assert(before[i] == before.last());
                    if longer.contains(sep) {
                        let k = choose|k: int| 0 <= k < longer.len() && longer[k] == sep;
                        assert(before.last()[k] == sep);
                    }
                }
            }
            assert(s =~= s.drop_last().push(c));
            if before.len() == 1 {
                assert(before[0] == s.drop_last());
                assert(all[0] == longer);
                assert(text::joined(all, seq![sep]) =~= s);
            } else {
                let start = text::joined(before.drop_last(), seq![sep]) + seq![sep];
                assert(all.drop_last() =~= before.drop_last());
                assert(s.drop_last() == start + before.last());
                assert(text::joined(all, seq![sep]) == start + longer);
                assert(start + longer =~= s);
            }
        }
    } else {
        assert(text::joined(all, seq![sep]) =~= s);
    }
}

/// Texts joined by a separator: one is itself, and each further one follows behind a separator.
pub proof fn law_joined(parts: Seq<Seq<char>>, p: Seq<char>, sep: Seq<char>)
    ensures
        text::joined(Seq::empty(), sep) == Seq::<char>::empty(),
        text::joined(seq![p], sep) == p,
        parts.len() > 0 ==> text::joined(parts.push(p), sep) == text::joined(parts, sep) + sep + p,
{
    assert(parts.push(p).drop_last() =~= parts);
}

/// The text that is found is the first that begins with `start`; none is found only when none
/// begins with it.
pub proof fn law_first_with(all: Seq<Seq<char>>, start: Seq<char>)
    ensures
        match text::first_with(all, start) {
            Some(s) => exists|i: int| is_first_with(all, start, i) && all[i] == s,
            None => forall|i: int| 0 <= i < all.len() ==> !start.is_prefix_of(#[trigger] all[i]),
        },
    decreases all.len(),
{
    if all.len() > 0 {
        let rest = all.drop_first();
        law_contains_text(all[0], start, Seq::empty(), Seq::empty());
        assert(start.is_prefix_of(all[0]) ==> text::begins_with(all[0], start));
        if text::begins_with(all[0], start) {
            assert(is_first_with(all, start, 0));
        } else {
            law_first_with(rest, start);
            match text::first_with(rest, start) {
                Some(s) => {
                    let i = choose|i: int| is_first_with(rest, start, i) && rest[i] == s;
                    assert forall|j: int| 0 <= j < i + 1 implies !start.is_prefix_of(
                        #[trigger] all[j],
                    ) by {
                        if j > 0 {
                            assert(rest[j - 1] == all[j]);
                        }
                    }
                    assert(is_first_with(all, start, i + 1) && all[i + 1] == s);
                },
                None => {
                    assert forall|j: int| 0 <= j < all.len() implies !start.is_prefix_of(
                        #[trigger] all[j],
                    ) by {
                        if j > 0 {
                            assert(rest[j - 1] == all[j]);
                        }
                    }
                },
            }
        }
    }
}

/// Whether text `i` begins with `start`, and none before it does.
pub open spec fn is_first_with(all: Seq<Seq<char>>, start: Seq<char>, i: int) -> bool {
    &&& 0 <= i < all.len()
    &&& start.is_prefix_of(all[i])
    &&& forall|j: int| 0 <= j < i ==> !start.is_prefix_of(#[trigger] all[j])
}

/// A text that is aligned is filled up with spaces to the width; one that is longer stays.
pub proof fn law_aligned(s: Seq<char>, width: nat)
    ensures
        ({
            let fill = if s.len() < width {
                width - s.len()
            } else {
                0
            };
            let left = text::left_aligned(s, width);
            let right = text::right_aligned(s, width);
            &&& left.len() == s.len() + fill
            &&& left.take(s.len() as int) == s
            &&& forall|i: int| s.len() <= i < left.len() ==> #[trigger] left[i] == ' '
            &&& right.len() == s.len() + fill
            &&& right.skip(fill) == s
            &&& forall|i: int| 0 <= i < fill ==> #[trigger] right[i] == ' '
        }),
{
    assert(text::left_aligned(s, width).take(s.len() as int) =~= s);
    let fill = if s.len() < width {
        width - s.len()
    } else {
        0
    };
    assert(text::right_aligned(s, width).skip(fill) =~= s);
}

/// Whether `part` occurs in `s`.
pub open spec fn holds(s: Seq<char>, part: Seq<char>) -> bool {
    exists|a: Seq<char>, b: Seq<char>| s == #[trigger] (a + part + b)
}

pub proof fn lemma_holds(x: Seq<char>, part: Seq<char>)
    ensures
        holds(x + part, part),
{
    assert(x + part =~= x + part + Seq::<char>::empty());
}

pub proof fn lemma_still_holds(s: Seq<char>, part: Seq<char>, more: Seq<char>)
    requires
        holds(s, part),
    ensures
        holds(s + more, part),
        holds(more + s, part),
{
    let (a, b) = choose|a: Seq<char>, b: Seq<char>| s == #[trigger] (a + part + b);
    assert(s + more =~= a + part + (b + more));
    assert(more + s =~= (more + a) + part + b);
}

/// What occurs in a part of a text occurs in the text.
pub proof fn lemma_holds_within(s: Seq<char>, part: Seq<char>, inner: Seq<char>)
    requires
        holds(s, part),
        holds(part, inner),
    ensures
        holds(s, inner),
{
    let (a, b) = choose|a: Seq<char>, b: Seq<char>| s == #[trigger] (a + part + b);
    let (c, d) = choose|c: Seq<char>, d: Seq<char>| part == #[trigger] (c + inner + d);
    assert(s =~= (a + c) + inner + (d + b));
}

} // verus!
