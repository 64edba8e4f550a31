//! Text as sequences of characters: numerals, padding, trimming and searching.

use vstd::prelude::*;

verus! {

/// `String::push` appends the given character to the end of the string. (Like every container
/// that grows, a string panics when it would outgrow the address space; that is left unsaid.)
pub assume_specification[ String::push ](s: &mut String, ch: char)
    ensures
        final(s)@ == old(s)@.push(ch),
;

// ---------------------------------------------------------------------------
// What the text of a value is.

/// The digit for `n` (below 16), in lower case.
pub open spec fn digit(n: nat) -> char {
    if n < 10 {
        ((48 + n) as u8) as char
    } else {
        ((87 + n) as u8) as char
    }
}

/// `n` in decimal, without leading zeros.
pub open spec fn dec(n: nat) -> Seq<char>
    decreases n,
{
    if n < 10 {
        seq![digit(n)]
    } else {
        dec(n / 10).push(digit(n % 10))
    }
}

/// `i` in decimal, with a minus sign when it is negative.
pub open spec fn signed_dec(i: int) -> Seq<char> {
    if i < 0 {
        seq!['-'] + dec((-i) as nat)
    } else {
        dec(i as nat)
    }
}

/// The last `width` hexadecimal digits of `n`.
pub open spec fn hex_digits(n: nat, width: nat) -> Seq<char>
    decreases width,
{
    if width == 0 {
        Seq::empty()
    } else {
        hex_digits(n / 16, (width - 1) as nat).push(digit(n % 16))
    }
}

/// Two hexadecimal digits for each byte.
pub open spec fn hex_text(bytes: Seq<u8>) -> Seq<char>
    decreases bytes.len(),
{
    if bytes.len() == 0 {
        Seq::empty()
    } else {
        hex_text(bytes.drop_last()) + hex_digits(bytes.last() as nat, 2)
    }
}

/// `n` copies of `c`.
pub open spec fn repeated(c: char, n: nat) -> Seq<char> {
    Seq::new(n, |i: int| c)
}

/// `s`, filled up with spaces on the right to `width` characters.
pub open spec fn left_aligned(s: Seq<char>, width: nat) -> Seq<char> {
    if s.len() < width {
        s + repeated(' ', (width - s.len()) as nat)
    } else {
        s
    }
}

/// `s`, filled up with spaces on the left to `width` characters.
pub open spec fn right_aligned(s: Seq<char>, width: nat) -> Seq<char> {
    if s.len() < width {
        repeated(' ', (width - s.len()) as nat) + s
    } else {
        s
    }
}

/// The contents of each string.
pub open spec fn texts(v: Seq<String>) -> Seq<Seq<char>> {
    v.map_values(|s: String| s@)
}

/// The contents of a string that may be missing.
pub open spec fn maybe(s: Option<String>) -> Option<Seq<char>> {
    match s {
        Some(s) => Some(s@),
        None => None,
    }
}

/// The parts one after the other, with `sep` between neighbours.
pub open spec fn joined(parts: Seq<Seq<char>>, sep: Seq<char>) -> Seq<char>
    decreases parts.len(),
{
    if parts.len() == 0 {
        Seq::empty()
    } else if parts.len() == 1 {
        parts[0]
    } else {
        joined(parts.drop_last(), sep) + sep + parts.last()
    }
}

/// Whether `c` has the Unicode property `White_Space`.
pub open spec fn is_space(c: char) -> bool {
    ||| '\u{9}' <= c <= '\u{d}'
    ||| c == '\u{20}'
    ||| c == '\u{85}'
    ||| c == '\u{a0}'
    ||| c == '\u{1680}'
    ||| '\u{2000}' <= c <= '\u{200a}'
    ||| c == '\u{2028}'
    ||| c == '\u{2029}'
    ||| c == '\u{202f}'
    ||| c == '\u{205f}'
    ||| c == '\u{3000}'
}

/// `s` without the white space it begins with.
pub open spec fn trimmed_start(s: Seq<char>) -> Seq<char>
    decreases s.len(),
{
    if s.len() > 0 && is_space(s[0]) {
        trimmed_start(s.drop_first())
    } else {
        s
    }
}

/// `s` without the white space it ends with.
pub open spec fn trimmed_end(s: Seq<char>) -> Seq<char>
    decreases s.len(),
{
    if s.len() > 0 && is_space(s.last()) {
        trimmed_end(s.drop_last())
    } else {
        s
    }
}

/// `s` without white space at either end.
pub open spec fn trimmed(s: Seq<char>) -> Seq<char> {
    trimmed_end(trimmed_start(s))
}

/// The ASCII lower case form of `c`; other characters are their own.
pub open spec fn lower(c: char) -> char {
    if 'A' <= c <= 'Z' {
        ((c as u8 + 32) as u8) as char
    } else {
        c
    }
}

/// `s` with every ASCII capital in lower case.
pub open spec fn lowered(s: Seq<char>) -> Seq<char> {
    s.map_values(|c: char| lower(c))
}

/// Whether `part` occurs in `s` at position `at`.
pub open spec fn occurs_at(s: Seq<char>, part: Seq<char>, at: int) -> bool {
    &&& 0 <= at
    &&& at + part.len() <= s.len()
    &&& s.subrange(at, at + part.len()) == part
}

/// Whether `part` occurs anywhere in `s`.
pub open spec fn contains_text(s: Seq<char>, part: Seq<char>) -> bool {
    exists|at: int| occurs_at(s, part, at)
}

/// Whether `s` begins with `part`.
pub open spec fn begins_with(s: Seq<char>, part: Seq<char>) -> bool {
    occurs_at(s, part, 0)
}

/// The part of `s` before the first `stop`, or all of it.
pub open spec fn before(s: Seq<char>, stop: char) -> Seq<char>
    decreases s.len(),
{
    if s.len() == 0 || s[0] == stop {
        Seq::empty()
    } else {
        seq![s[0]] + before(s.drop_first(), stop)
    }
}

/// The parts of `s` between the separators: each separator starts a new part, every other
/// character goes to the last one.
pub open spec fn parts(s: Seq<char>, sep: char) -> Seq<Seq<char>>
    decreases s.len(),
{
    if s.len() == 0 {
        seq![Seq::empty()]
    } else {
        let before = parts(s.drop_last(), sep);
        if s.last() == sep {
            before.push(Seq::empty())
        } else {
            before.drop_last().push(before.last().push(s.last()))
        }
    }
}

/// The first of the texts that begins with `start`, if one does.
pub open spec fn first_with(all: Seq<Seq<char>>, start: Seq<char>) -> Option<Seq<char>>
    decreases all.len(),
{
    if all.len() == 0 {
        None
    } else if begins_with(all[0], start) {
        Some(all[0])
    } else {
        first_with(all.drop_first(), start)
    }
}

/// The number that the decimal digits of `s` write, if `s` is made of digits.
pub open spec fn digits_value(s: Seq<char>) -> Option<nat>
    decreases s.len(),
{
    if s.len() == 0 {
        Some(0)
    } else {
        match digits_value(s.drop_last()) {
            Some(v) if '0' <= s.last() <= '9' => Some(
                (10 * v + (s.last() as nat - '0' as nat)) as nat,
            ),
            _ => None,
        }
    }
}

/// The number that `s` writes: an optional plus sign and at least one digit, and no
/// more than a `usize` holds.
pub open spec fn number_value(s: Seq<char>) -> Option<nat> {
    let digits = if s.len() > 0 && s[0] == '+' {
        s.drop_first()
    } else {
        s
    };
    if digits.len() == 0 {
        None
    } else {
        match digits_value(digits) {
            Some(v) if v <= usize::MAX => Some(v),
            _ => None,
        }
    }
}

// ---------------------------------------------------------------------------
// Characters and strings.

/// The characters of `s`, in order.
pub fn chars_of(s: &str) -> (out: Vec<char>)
    ensures
        out@ == s@,
{
    let mut out: Vec<char> = Vec::new();
    for c in it: s.chars()
        invariant
            out@ == it.seq().take(it.index() as int),
    {
        out.push(c);
    }
    out
}

/// The string made of the characters `cs[from..to]`.
pub fn string_of(cs: &Vec<char>, from: usize, to: usize) -> (out: String)
    requires
        from <= to <= cs.len(),
    ensures
        out@ == cs@.subrange(from as int, to as int),
{
    let mut out = String::new();
    let mut i: usize = from;
    while i < to
        invariant
            from <= i <= to <= cs.len(),
            out@ == cs@.subrange(from as int, i as int),
        decreases to - i,
    {
        out.push(cs[i]);
        i += 1;
    }
    out
}

/// Whether two texts are the same.
pub fn same_text(a: &str, b: &str) -> (same: bool)
    ensures
        same == (a@ == b@),
{
    let x = chars_of(a);
    let y = chars_of(b);
    if x.len() != y.len() {
        return false;
    }
    let mut i: usize = 0;
    while i < x.len()
        invariant
            i <= x.len() == y.len(),
            x@ == a@,
            y@ == b@,
            forall|k: int| 0 <= k < i ==> x@[k] == y@[k],
        decreases x.len() - i,
    {
        if x[i] != y[i] {
            assert(a@[i as int] != b@[i as int]);
            return false;
        }
        i += 1;
    }
    assert(a@ =~= b@);
    true
}

// ---------------------------------------------------------------------------
// Writing numbers.

/// Appends the digit for `n`.
fn push_digit(s: &mut String, n: u64)
    requires
        n < 16,
    ensures
        final(s)@ == old(s)@.push(digit(n as nat)),
{
    if n < 10 {
        s.push((48 + n as u8) as char);
    } else {
        s.push((87 + n as u8) as char);
    }
}

/// Appends `n` in decimal.
pub fn push_dec(s: &mut String, n: u128)
    ensures
        final(s)@ == old(s)@ + dec(n as nat),
    decreases n,
{
    if n >= 10 {
        push_dec(s, n / 10);
    }
    push_digit(s, (n % 10) as u64);
    assert(s@ =~= old(s)@ + dec(n as nat));
}

/// Appends `i` in decimal, with its sign.
pub fn push_signed(s: &mut String, i: i64)
    ensures
        final(s)@ == old(s)@ + signed_dec(i as int),
{
    if i < 0 {
        s.push('-');
        let n: u128 = (-(i as i128)) as u128;
        push_dec(s, n);
    } else {
        push_dec(s, i as u128);
    }
    assert(s@ =~= old(s)@ + signed_dec(i as int));
}

/// Appends the last `width` hexadecimal digits of `n`.
pub fn push_hex(s: &mut String, n: u64, width: usize)
    ensures
        final(s)@ == old(s)@ + hex_digits(n as nat, width as nat),
    decreases width,
{
    if width > 0 {
        push_hex(s, n / 16, width - 1);
        push_digit(s, n % 16);
    }
    assert(s@ =~= old(s)@ + hex_digits(n as nat, width as nat));
}

/// Appends two hexadecimal digits for each byte.
pub fn push_hex_bytes(s: &mut String, bytes: &[u8])
    ensures
        final(s)@ == old(s)@ + hex_text(bytes@),
{
    let mut i: usize = 0;
    while i < bytes.len()
        invariant
            i <= bytes.len(),
            s@ == old(s)@ + hex_text(bytes@.take(i as int)),
        decreases bytes.len() - i,
    {
        push_hex(s, bytes[i] as u64, 2);
        proof {
            assert(bytes@.take(i + 1).drop_last() =~= bytes@.take(i as int));
            assert(s@ =~= old(s)@ + hex_text(bytes@.take(i + 1)));
        }
        i += 1;
    }
    assert(bytes@.take(i as int) =~= bytes@);
}

/// Appends `n` spaces.
fn push_spaces(s: &mut String, n: usize)
    ensures
        final(s)@ == old(s)@ + repeated(' ', n as nat),
{
    let mut i: usize = 0;
    while i < n
        invariant
            i <= n,
            s@ == old(s)@ + repeated(' ', i as nat),
        decreases n - i,
    {
        s.push(' ');
        i += 1;
        assert(s@ =~= old(s)@ + repeated(' ', i as nat));
    }
    assert(s@ =~= old(s)@ + repeated(' ', n as nat));
}

/// Appends `t`, filled up on the right to `width` characters.
pub fn push_left_aligned(s: &mut String, t: &str, width: usize)
    ensures
        final(s)@ == old(s)@ + left_aligned(t@, width as nat),
{
    s.append(t);
    let n = t.unicode_len();
    if n < width {
        push_spaces(s, width - n);
    }
    assert(s@ =~= old(s)@ + left_aligned(t@, width as nat));
}

/// Appends `t`, filled up on the left to `width` characters.
pub fn push_right_aligned(s: &mut String, t: &str, width: usize)
    ensures
        final(s)@ == old(s)@ + right_aligned(t@, width as nat),
{
    let n = t.unicode_len();
    if n < width {
        push_spaces(s, width - n);
    }
    s.append(t);
    assert(s@ =~= old(s)@ + right_aligned(t@, width as nat));
}

/// Appends the parts with `sep` between neighbours.
pub fn push_joined(s: &mut String, parts: &Vec<String>, sep: &str)
    ensures
        final(s)@ == old(s)@ + joined(texts(parts@), sep@),
{
    let ghost all = texts(parts@);
    let mut i: usize = 0;
    while i < parts.len()
        invariant
            i <= parts.len(),
            all == texts(parts@),
            s@ == old(s)@ + joined(all.take(i as int), sep@),
        decreases parts.len() - i,
    {
        if i > 0 {
            s.append(sep);
        }
        s.append(parts[i].as_str());
        proof {
            assert(all[i as int] == parts@[i as int]@);
            assert(all.take(i + 1).drop_last() =~= all.take(i as int));
            assert(s@ =~= old(s)@ + joined(all.take(i + 1), sep@));
        }
        i += 1;
    }
    assert(all.take(i as int) =~= all);
}

// ---------------------------------------------------------------------------
// Reading text.

/// Whether `c` is white space.
pub fn is_space_char(c: char) -> (r: bool)
    ensures
        r == is_space(c),
{
    ('\u{9}' <= c && c <= '\u{d}') || c == '\u{20}' || c == '\u{85}' || c == '\u{a0}' || c
        == '\u{1680}' || ('\u{2000}' <= c && c <= '\u{200a}') || c == '\u{2028}' || c == '\u{2029}'
        || c == '\u{202f}' || c == '\u{205f}' || c == '\u{3000}'
}

/// The characters `cs` without white space at either end.
pub fn trimmed_chars(cs: &Vec<char>) -> (out: String)
    ensures
        out@ == trimmed(cs@),
{
    let n = cs.len();
    let mut from: usize = 0;
    assert(cs@.subrange(0, n as int) =~= cs@);
    while from < n && is_space_char(cs[from])
        invariant
            from <= n == cs.len(),
            trimmed_start(cs@.subrange(from as int, n as int)) == trimmed_start(cs@),
        decreases n - from,
    {
        proof {
            assert(cs@.subrange(from as int, n as int).drop_first() =~= cs@.subrange(
                from + 1,
                n as int,
            ));
        }
        from += 1;
    }
    assert(trimmed_start(cs@) == cs@.subrange(from as int, n as int));
    let mut to: usize = n;
    while to > from && is_space_char(cs[to - 1])
        invariant
            from <= to <= n == cs.len(),
            trimmed_end(cs@.subrange(from as int, to as int)) == trimmed(cs@),
        decreases to - from,
    {
        proof {
            assert(cs@.subrange(from as int, to as int).drop_last() =~= cs@.subrange(
                from as int,
                to - 1,
            ));
        }
        to -= 1;
    }
    string_of(cs, from, to)
}

/// `s` without white space at either end.
pub fn trimmed_text(s: &str) -> (out: String)
    ensures
        out@ == trimmed(s@),
{
    trimmed_chars(&chars_of(s))
}

/// `s` with every ASCII capital in lower case.
pub fn lowered_text(s: &str) -> (out: String)
    ensures
        out@ == lowered(s@),
{
    let cs = chars_of(s);
    let mut out = String::new();
    let mut i: usize = 0;
    while i < cs.len()
        invariant
            i <= cs.len(),
            cs@ == s@,
            out@ == lowered(s@.take(i as int)),
        decreases cs.len() - i,
    {
        let c = cs[i];
        if 'A' <= c && c <= 'Z' {
            out.push((c as u8 + 32) as char);
        } else {
            out.push(c);
        }
        proof {
            assert(out@ =~= lowered(s@.take(i + 1)));
        }
        i += 1;
    }
    assert(s@.take(i as int) =~= s@);
    out
}

/// Whether `part` occurs in `cs` at position `at`.
fn occurs_chars(cs: &Vec<char>, part: &Vec<char>, at: usize) -> (r: bool)
    ensures
        r == occurs_at(cs@, part@, at as int),
{
    if part.len() > cs.len() || at > cs.len() - part.len() {
        return false;
    }
    let mut i: usize = 0;
    while i < part.len()
        invariant
            i <= part.len(),
            at + part.len() <= cs.len(),
            forall|k: int| 0 <= k < i ==> cs@[at + k] == part@[k],
        decreases part.len() - i,
    {
        if cs[at + i] != part[i] {
            assert(cs@.subrange(at as int, at + part@.len())[i as int] != part@[i as int]);
            return false;
        }
        i += 1;
    }
    assert(cs@.subrange(at as int, at + part@.len()) =~= part@);
    true
}

/// Whether `part` occurs anywhere in `s`.
pub fn has_text(s: &str, part: &str) -> (r: bool)
    ensures
        r == contains_text(s@, part@),
{
    let cs = chars_of(s);
    let ps = chars_of(part);
    if ps.len() > cs.len() {
        return false;
    }
    let last: usize = cs.len() - ps.len();
    let mut at: usize = 0;
    while at < last
        invariant
            cs@ == s@,
            ps@ == part@,
            at <= last == cs.len() - ps.len(),
            forall|k: int| 0 <= k < at ==> !occurs_at(s@, part@, k),
        decreases last - at,
    {
        if occurs_chars(&cs, &ps, at) {
            return true;
        }
        at += 1;
    }
    occurs_chars(&cs, &ps, last)
}

/// Whether `s` begins with `part`.
pub fn starts_with_text(s: &str, part: &str) -> (r: bool)
    ensures
        r == begins_with(s@, part@),
{
    occurs_chars(&chars_of(s), &chars_of(part), 0)
}

/// The part of `s` before the first `stop`, or all of it.
pub fn text_before(s: &str, stop: char) -> (out: String)
    ensures
        out@ == before(s@, stop),
{
    let cs = chars_of(s);
    let n = cs.len();
    let mut i: usize = 0;
    let mut out = String::new();
    assert(s@.skip(0) =~= s@);
    assert(out@ + before(s@, stop) =~= before(s@, stop));
    while i < n && cs[i] != stop
        invariant
            i <= n == cs.len(),
            cs@ == s@,
            out@ + before(s@.skip(i as int), stop) == before(s@, stop),
        decreases n - i,
    {
        proof {
            assert(s@.skip(i as int).drop_first() =~= s@.skip(i + 1));
            assert(out@ + (seq![cs@[i as int]] + before(s@.skip(i + 1), stop)) =~= out@.push(
                cs@[i as int],
            ) + before(s@.skip(i + 1), stop));
        }
        out.push(cs[i]);
        i += 1;
    }
    assert(before(s@.skip(i as int), stop) =~= Seq::<char>::empty());
    assert(out@ =~= before(s@, stop));
    out
}

/// What `s` writes in decimal only grows when digits follow.
proof fn lemma_digits_value_grows(s: Seq<char>, i: int)
    requires
        0 <= i <= s.len(),
        digits_value(s) is Some,
    ensures
        digits_value(s.take(i)) is Some,
        digits_value(s.take(i))->0 <= digits_value(s)->0,
    decreases s.len(),
{
    if i == s.len() {
        assert(s.take(i) =~= s);
    } else {
        assert(s.drop_last().take(i) =~= s.take(i));
        lemma_digits_value_grows(s.drop_last(), i);
    }
}

/// The number that `s` writes, if it writes one that fits.
pub fn number_of(s: &str) -> (r: Option<usize>)
    ensures
        match r {
            Some(v) => number_value(s@) == Some(v as nat),
            None => number_value(s@) is None,
        },
{
    let cs = chars_of(s);
    let n = cs.len();
    let from: usize = if n > 0 && cs[0] == '+' {
        1
    } else {
        0
    };
    if from == n {
        return None;
    }
    let ghost digits = s@.skip(from as int);
    assert(from == 0 ==> digits =~= s@);
    assert(from == 1 ==> digits =~= s@.drop_first());
    let mut v: usize = 0;
    let mut i: usize = from;
    while i < n
        invariant
            from <= i <= n == cs.len(),
            cs@ == s@,
            digits == s@.skip(from as int),
            digits_value(digits.take(i - from)) == Some(v as nat),
            digits.len() > 0,
            number_value(s@) == (match digits_value(digits) {
                Some(w) if w <= usize::MAX => Some(w),
                _ => None,
            }),
        decreases n - i,
    {
        let c = cs[i];
        let ghost longer = digits.take(i + 1 - from);
        proof {
            assert(longer.drop_last() =~= digits.take(i - from));
            assert(longer.last() == c);
            if digits_value(digits) is Some {
                lemma_digits_value_grows(digits, i + 1 - from);
            }
        }
        if c < '0' || '9' < c {
            return None;
        }
        let d: usize = (c as u8 - 48) as usize;
        if v > (usize::MAX - d) / 10 {
            assert(10 * v + d > usize::MAX);
            return None;
        }
        v = 10 * v + d;
        i += 1;
    }
    assert(digits.take(n - from) =~= digits);
    Some(v)
}

/// The parts of `s` between the separators.
pub fn split_text(s: &str, sep: char) -> (out: Vec<String>)
    ensures
        texts(out@) == parts(s@, sep),
{
    let cs = chars_of(s);
    let mut out: Vec<String> = Vec::new();
    let mut last = String::new();
    let mut i: usize = 0;
    assert(texts(out@).push(last@) =~= seq![Seq::empty()]);
    while i < cs.len()
        invariant
            i <= cs.len(),
            cs@ == s@,
            texts(out@).push(last@) == parts(s@.take(i as int), sep),
        decreases cs.len() - i,
    {
        let ghost before = texts(out@).push(last@);
        assert(s@.take(i + 1).drop_last() =~= s@.take(i as int));
        if cs[i] == sep {
            out.push(last);
            last = String::new();
            assert(texts(out@) =~= before);
        } else {
            last.push(cs[i]);
            assert(before.drop_last() =~= texts(out@));
        }
        i += 1;
    }
    assert(s@.take(i as int) =~= s@);
    let ghost before = texts(out@);
    let ghost end = last@;
    out.push(last);
    assert(texts(out@) =~= before.push(end));
    out
}

/// The first of the texts that begins with `start`, if one does.
pub fn find_with(all: &Vec<String>, start: &str) -> (r: Option<String>)
    ensures
        match r {
            Some(s) => first_with(texts(all@), start@) == Some(s@),
            None => first_with(texts(all@), start@) is None,
        },
{
    let ghost ts = texts(all@);
    let mut i: usize = 0;
    assert(ts.skip(0) =~= ts);
    while i < all.len()
        invariant
            i <= all.len(),
            ts == texts(all@),
            first_with(ts, start@) == first_with(ts.skip(i as int), start@),
        decreases all.len() - i,
    {
        assert(ts.skip(i as int)[0] == all@[i as int]@);
        assert(ts.skip(i as int).drop_first() =~= ts.skip(i + 1));
        if starts_with_text(all[i].as_str(), start) {
            return Some(all[i].clone());
        }
        i += 1;
    }
    None
}

/// A copy of a text that may be missing.
pub fn copied_text(s: &Option<String>) -> (r: Option<String>)
    ensures
        maybe(r) == maybe(*s),
{
    match s {
        Some(s) => Some(s.clone()),
        None => None,
    }
}

} // verus!
