//! Text: decimal numbers, words, joins and searches.

use vstd::prelude::*;
use vstd::string::*;

verus! {

/// The text that an optional one holds.
pub open spec fn optional_text(s: Option<String>) -> Option<Seq<char>> {
    match s {
        Some(s) => Some(s@),
        None => None,
    }
}

/// `String::push` appends one character.
pub assume_specification[ String::push ](s: &mut String, c: char)
    ensures
        final(s)@ == old(s)@.push(c),
;

/// Character of a decimal digit.
pub open spec fn digit_char(d: nat) -> char {
    if d == 0 {
        '0'
    } else if d == 1 {
        '1'
    } else if d == 2 {
        '2'
    } else if d == 3 {
        '3'
    } else if d == 4 {
        '4'
    } else if d == 5 {
        '5'
    } else if d == 6 {
        '6'
    } else if d == 7 {
        '7'
    } else if d == 8 {
        '8'
    } else {
        '9'
    }
}

/// `n` in decimal notation, without leading zeros.
pub open spec fn decimal(n: nat) -> Seq<char>
    decreases n,
{
    if n < 10 {
        seq![digit_char(n)]
    } else {
        decimal(n / 10).push(digit_char(n % 10))
    }
}

/// `n` in decimal notation, with a minus sign where it is negative.
pub open spec fn signed_decimal(n: int) -> Seq<char> {
    if n < 0 {
        seq!['-'] + decimal((-n) as nat)
    } else {
        decimal(n as nat)
    }
}

/// `count` zeros.
pub open spec fn zeros(count: nat) -> Seq<char> {
    Seq::new(count, |i: int| '0')
}

/// `n` in decimal notation, filled up to `width` characters with zeros that
/// stand behind the sign.
pub open spec fn padded_decimal(n: int, width: nat) -> Seq<char> {
    let sign = if n < 0 {
        seq!['-']
    } else {
        Seq::<char>::empty()
    };
    let digits = decimal(crate::money::magnitude(n));
    if sign.len() + digits.len() >= width {
        sign + digits
    } else {
        sign + zeros((width - sign.len() - digits.len()) as nat) + digits
    }
}

fn digit(d: u64) -> (c: char)
    requires
        d < 10,
    ensures
        c == digit_char(d as nat),
{
    if d == 0 {
        '0'
    } else if d == 1 {
        '1'
    } else if d == 2 {
        '2'
    } else if d == 3 {
        '3'
    } else if d == 4 {
        '4'
    } else if d == 5 {
        '5'
    } else if d == 6 {
        '6'
    } else if d == 7 {
        '7'
    } else if d == 8 {
        '8'
    } else {
        '9'
    }
}

/// Different numbers are written differently.
pub proof fn law_decimal_is_unambiguous(a: nat, b: nat)
    requires
        decimal(a) == decimal(b),
    ensures
        a == b,
    decreases a,
{
    lemma_decimal_last(a);
    lemma_decimal_last(b);
    if a >= 10 && b >= 10 {
        assert(decimal(a).drop_last() == decimal(b).drop_last());
        law_decimal_is_unambiguous(a / 10, b / 10);
    }
}

/// A number in decimal starts with a digit.
pub proof fn lemma_decimal_first(n: nat)
    ensures
        decimal(n).len() > 0,
        '0' <= decimal(n)[0] <= '9',
    decreases n,
{
    if n >= 10 {
        lemma_decimal_first(n / 10);
    }
}

proof fn lemma_decimal_last(n: nat)
    ensures
        decimal(n).len() > 0,
        n < 10 <==> decimal(n).len() == 1,
        decimal(n).last() == digit_char(n % 10),
        n >= 10 ==> decimal(n).drop_last() == decimal(n / 10),
    decreases n,
{
    if n >= 10 {
        lemma_decimal_last(n / 10);
        assert(decimal(n).drop_last() =~= decimal(n / 10));
    }
}

/// `n` in decimal notation.
pub fn to_wide_decimal(n: u128) -> (s: String)
    ensures
        s@ == decimal(n as nat),
    decreases n,
{
    if n < 10 {
        let mut s = String::new();
        s.push(digit(n as u64));
        assert(s@ =~= decimal(n as nat));
        s
    } else {
        let mut s = to_wide_decimal(n / 10);
        s.push(digit((n % 10) as u64));
        s
    }
}

/// `n` in decimal notation.
pub fn to_decimal(n: u64) -> (s: String)
    ensures
        s@ == decimal(n as nat),
{
    to_wide_decimal(n as u128)
}

/// `n` in decimal notation, with its sign where it is negative.
pub fn to_signed_decimal(n: i128) -> (s: String)
    ensures
        s@ == signed_decimal(n as int),
{
    if n < 0 {
        let mut s = String::new();
        s.push('-');
        let m: u128 = ((-(n + 1)) as u128) + 1;
        s.append(to_wide_decimal(m).as_str());
        assert(s@ =~= signed_decimal(n as int));
        s
    } else {
        to_wide_decimal(n as u128)
    }
}

/// `n` in decimal notation, filled up to `width` characters with zeros.
pub fn to_padded_decimal(n: i64, width: usize) -> (s: String)
    ensures
        s@ == padded_decimal(n as int, width as nat),
{
    let m: u64 = if n < 0 {
        (-(n as i128)) as u64
    } else {
        n as u64
    };
    let digits = to_decimal(m);
    let mut s = String::new();
    if n < 0 {
        s.push('-');
    }
    let ghost sign = s@;
    let used: usize = digits.as_str().unicode_len();
    assert(sign =~= if n < 0 {
        seq!['-']
    } else {
        Seq::<char>::empty()
    });
    if used >= width || (n < 0 && used + 1 >= width) {
        s.append(digits.as_str());
        return s;
    }
    let fill: usize = if n < 0 {
        width - used - 1
    } else {
        width - used
    };
    let mut i: usize = 0;
    while i < fill
        invariant
            i <= fill,
            s@ == sign + zeros(i as nat),
        decreases fill - i,
    {
        s.push('0');
        i += 1;
        assert(s@ =~= sign + zeros(i as nat));
    }
    s.append(digits.as_str());
    s
}

/// Characters of a text.
pub fn chars_of(s: &str) -> (v: Vec<char>)
    ensures
        v@ == s@,
{
    let mut v: Vec<char> = Vec::new();
    for c in it: s.chars()
        invariant
            it.seq() == s@,
            v@ == s@.take(it.index()),
    {
        v.push(c);
        assert(v@ =~= s@.take(it.index() + 1));
    }
    assert(v@ =~= s@);
    v
}

/// The text made of `count` characters of `v` from `start` on.
pub fn text_of(v: &Vec<char>, start: usize, count: usize) -> (s: String)
    requires
        start + count <= v.len(),
    ensures
        s@ == v@.subrange(start as int, start + count),
{
    let mut s = String::new();
    let mut i: usize = 0;
    while i < count
        invariant
            i <= count,
            start + count <= v.len(),
            s@ == v@.subrange(start as int, start + i),
        decreases count - i,
    {
        s.push(v[start + i]);
        i += 1;
        assert(s@ =~= v@.subrange(start as int, start + i));
    }
    s
}

/// Characters with the Unicode property `White_Space`.
pub open spec fn is_white(c: char) -> bool {
    ||| 0x9 <= c as u32 <= 0xd
    ||| c as u32 == 0x20
    ||| c as u32 == 0x85
    ||| c as u32 == 0xa0
    ||| c as u32 == 0x1680
    ||| 0x2000 <= c as u32 <= 0x200a
    ||| c as u32 == 0x2028
    ||| c as u32 == 0x2029
    ||| c as u32 == 0x202f
    ||| c as u32 == 0x205f
    ||| c as u32 == 0x3000
}

fn white(c: char) -> (b: bool)
    ensures
        b == is_white(c),
{
    let n: u32 = c as u32;
    (0x9 <= n && n <= 0xd) || n == 0x20 || n == 0x85 || n == 0xa0 || n == 0x1680 || (0x2000 <= n
        && n <= 0x200a) || n == 0x2028 || n == 0x2029 || n == 0x202f || n == 0x205f || n == 0x3000
}

/// Length of the word that `s` starts with.
pub open spec fn word_len(s: Seq<char>) -> nat
    decreases s.len(),
{
    if s.len() == 0 || is_white(s[0]) {
        0
    } else {
        1 + word_len(s.drop_first())
    }
}

/// The words of `s`: its longest runs without white space.
pub open spec fn words(s: Seq<char>) -> Seq<Seq<char>>
    decreases s.len(),
{
    if s.len() == 0 {
        Seq::empty()
    } else if is_white(s[0]) {
        words(s.drop_first())
    } else {
        let n = word_len(s);
        if 0 < n <= s.len() {
            seq![s.take(n as int)] + words(s.skip(n as int))
        } else {
            Seq::empty()
        }
    }
}

proof fn lemma_word_len(s: Seq<char>)
    ensures
        word_len(s) <= s.len(),
        s.len() > 0 && !is_white(s[0]) ==> word_len(s) > 0,
    decreases s.len(),
{
    if s.len() > 0 && !is_white(s[0]) {
        lemma_word_len(s.drop_first());
    }
}

/// The parts with `sep` between each two.
pub open spec fn join(parts: Seq<Seq<char>>, sep: Seq<char>) -> Seq<char>
    decreases parts.len(),
{
    if parts.len() == 0 {
        Seq::empty()
    } else if parts.len() == 1 {
        parts[0]
    } else {
        join(parts.drop_last(), sep) + sep + parts.last()
    }
}

/// What the strings hold.
pub open spec fn texts(v: Seq<String>) -> Seq<Seq<char>> {
    Seq::new(v.len(), |i: int| v[i]@)
}

/// Joins the parts with `sep` between each two.
pub fn join_texts(parts: &Vec<String>, sep: &str) -> (s: String)
    ensures
        s@ == join(texts(parts@), sep@),
{
    let mut s = String::new();
    let mut i: usize = 0;
    while i < parts.len()
        invariant
            i <= parts.len(),
            s@ == join(texts(parts@).take(i as int), sep@),
        decreases parts.len() - i,
    {
        let ghost all = texts(parts@);
        if i > 0 {
            s.append(sep);
        }
        s.append(parts[i].as_str());
        proof {
            assert(all.take(i + 1).drop_last() =~= all.take(i as int));
            if i == 0 {
                assert(s@ =~= all[0]);
            } else {
                assert(s@ =~= join(all.take(i as int), sep@) + sep@ + all[i as int]);
            }
        }
        i += 1;
    }
    assert(texts(parts@).take(i as int) =~= texts(parts@));
    s
}

/// The words of `s`.
pub fn split_words(s: &str) -> (v: Vec<String>)
    ensures
        texts(v@) == words(s@),
{
    let chars = chars_of(s);
    let mut v: Vec<String> = Vec::new();
    let mut i: usize = 0;
    assert(s@.skip(0) =~= s@);
    assert(texts(v@) + words(s@) =~= words(s@));
    while i < chars.len()
        invariant
            chars@ == s@,
            i <= chars.len(),
            texts(v@) + words(s@.skip(i as int)) == words(s@),
        decreases chars.len() - i,
    {
        let ghost rest = s@.skip(i as int);
        assert(rest[0] == chars@[i as int]);
        if white(chars[i]) {
            assert(rest.drop_first() =~= s@.skip(i + 1));
            i += 1;
        } else {
            let start: usize = i;
            i += 1;
            assert(rest.drop_first() =~= s@.skip(i as int));
            while i < chars.len() && !white(chars[i])
                invariant
                    chars@ == s@,
                    start < i <= chars.len(),
                    rest == s@.skip(start as int),
                    word_len(rest) == (i - start) + word_len(s@.skip(i as int)),
                decreases chars.len() - i,
            {
                assert(s@.skip(i as int).drop_first() =~= s@.skip(i + 1));
                i += 1;
            }
            let ghost before = v@;
            let w = text_of(&chars, start, i - start);
            proof {
                let n = word_len(rest);
                lemma_word_len(rest);
                assert(n == i - start);
                assert(rest.take(n as int) =~= w@);
                assert(rest.skip(n as int) =~= s@.skip(i as int));
            }
            v.push(w);
            proof {
                assert(texts(v@) =~= texts(before) + seq![w@]);
                assert(texts(v@) + words(s@.skip(i as int)) =~= texts(before) + (seq![w@] + words(
                    s@.skip(i as int),
                )));
            }
        }
    }
    assert(s@.skip(i as int).len() == 0);
    assert(texts(v@) =~= texts(v@) + words(s@.skip(i as int)));
    v
}

/// The words of `s` on one line.
pub open spec fn flattened(s: Seq<char>) -> Seq<char> {
    join(words(s), seq![' '])
}

/// The first `max` characters of `s` on one line, with dots where more follow.
pub open spec fn truncated(s: Seq<char>, max: nat) -> Seq<char> {
    let flat = flattened(s);
    if flat.len() > max {
        flat.take(max as int) + seq!['.', '.', '.']
    } else {
        flat
    }
}

/// First `max` characters, flattened to one line for status-line display.
pub fn truncate(s: &str, max: usize) -> (res: String)
    ensures
        res@ == truncated(s@, max as nat),
{
    let parts = split_words(s);
    proof {
        reveal_strlit(" ");
        assert(" "@ =~= seq![' ']);
    }
    let flat = join_texts(&parts, " ");
    let chars = chars_of(flat.as_str());
    if chars.len() > max {
        let mut res = text_of(&chars, 0, max);
        proof {
            reveal_strlit("...");
            assert("..."@ =~= seq!['.', '.', '.']);
            assert(res@ =~= flat@.take(max as int));
        }
        res.append("...");
        res
    } else {
        flat
    }
}

/// `pat` stands in `s` from position `i` on.
pub open spec fn occurs_at(s: Seq<char>, pat: Seq<char>, i: int) -> bool {
    &&& 0 <= i
    &&& i + pat.len() <= s.len()
    &&& s.subrange(i, i + pat.len()) == pat
}

/// `pat` stands somewhere in `s`.
pub open spec fn contains_text(s: Seq<char>, pat: Seq<char>) -> bool {
    exists|i: int| #[trigger] occurs_at(s, pat, i)
}

/// `i` is the first position at which `pat` stands in `s`.
pub open spec fn first_occurrence(s: Seq<char>, pat: Seq<char>, i: int) -> bool {
    &&& occurs_at(s, pat, i)
    &&& forall|j: int| 0 <= j < i ==> !#[trigger] occurs_at(s, pat, j)
}

fn matches_at(s: &Vec<char>, pat: &Vec<char>, i: usize) -> (b: bool)
    requires
        i <= s.len(),
    ensures
        b == occurs_at(s@, pat@, i as int),
{
    if pat.len() > s.len() - i {
        return false;
    }
    let mut j: usize = 0;
    while j < pat.len()
        invariant
            j <= pat.len(),
            i + pat.len() <= s.len(),
            forall|k: int| 0 <= k < j ==> s@[i + k] == pat@[k],
        decreases pat.len() - j,
    {
        if s[i + j] != pat[j] {
            assert(s@.subrange(i as int, i + pat.len())[j as int] != pat@[j as int]);
            return false;
        }
        j += 1;
    }
    assert(s@.subrange(i as int, i + pat.len()) =~= pat@);
    true
}

/// First position, in characters, at which `pat` stands in `s`.
pub fn find_text(s: &str, pat: &str) -> (res: Option<usize>)
    ensures
        match res {
            Some(i) => first_occurrence(s@, pat@, i as int),
            None => !contains_text(s@, pat@),
        },
{
    let sv = chars_of(s);
    let pv = chars_of(pat);
    let mut i: usize = 0;
    while i <= sv.len()
        invariant
            sv@ == s@,
            pv@ == pat@,
            i <= sv.len() + 1,
            forall|j: int| 0 <= j < i ==> !#[trigger] occurs_at(s@, pat@, j),
        decreases sv.len() + 1 - i,
    {
        if matches_at(&sv, &pv, i) {
            return Some(i);
        }
        if i == sv.len() {
            return None;
        }
        i += 1;
    }
    None
}

/// Whether `pat` stands somewhere in `s`.
pub fn has_text(s: &str, pat: &str) -> (b: bool)
    ensures
        b == contains_text(s@, pat@),
{
    find_text(s, pat).is_some()
}

/// Nothing but white space.
pub open spec fn is_blank(s: Seq<char>) -> bool {
    forall|i: int| 0 <= i < s.len() ==> is_white(#[trigger] s[i])
}

/// The first character that is no white space is `c`.
pub open spec fn starts_with_after_white(s: Seq<char>, c: char) -> bool {
    exists|i: int|
        0 <= i < s.len() && #[trigger] s[i] == c && !is_white(c) && is_blank(s.take(i))
}

/// There is only one first character that is no white space, and none in a text
/// that is blank.
pub proof fn lemma_first_char_is_unique(s: Seq<char>, c: char, d: char)
    requires
        starts_with_after_white(s, c),
    ensures
        starts_with_after_white(s, d) ==> c == d,
        !is_blank(s),
{
    let i: int = choose|i: int|
        0 <= i < s.len() && #[trigger] s[i] == c && !is_white(c) && is_blank(s.take(i));
    if starts_with_after_white(s, d) {
        let j: int = choose|j: int|
            0 <= j < s.len() && #[trigger] s[j] == d && !is_white(d) && is_blank(s.take(j));
        if i < j {
            assert(s.take(j)[i] == c);
        }
        if j < i {
            assert(s.take(i)[j] == d);
        }
    }
    if is_blank(s) {
        assert(is_white(s[i]));
    }
}

/// First character that is no white space.
pub fn first_non_white(s: &str) -> (res: Option<char>)
    ensures
        match res {
            Some(c) => starts_with_after_white(s@, c),
            None => is_blank(s@),
        },
{
    let v = chars_of(s);
    let mut i: usize = 0;
    while i < v.len()
        invariant
            v@ == s@,
            i <= v.len(),
            forall|j: int| 0 <= j < i ==> is_white(#[trigger] s@[j]),
        decreases v.len() - i,
    {
        if !white(v[i]) {
            assert(is_blank(s@.take(i as int)));
            return Some(v[i]);
        }
        i += 1;
    }
    None
}

/// Value of a decimal digit.
pub open spec fn digit_value(c: char) -> nat {
    (c as u32 - '0' as u32) as nat
}

/// An ASCII decimal digit.
pub open spec fn is_digit(c: char) -> bool {
    '0' as u32 <= c as u32 <= '9' as u32
}

/// Nothing but decimal digits.
pub open spec fn all_digits(s: Seq<char>) -> bool {
    forall|i: int| 0 <= i < s.len() ==> is_digit(#[trigger] s[i])
}

/// The number that the digits of `s` write.
pub open spec fn number_of(s: Seq<char>) -> nat
    decreases s.len(),
{
    if s.len() == 0 {
        0
    } else {
        number_of(s.drop_last()) * 10 + digit_value(s.last())
    }
}

/// The digits of an unsigned number: all of `s`, or what follows a plus sign.
pub open spec fn unsigned_digits(s: Seq<char>) -> Seq<char> {
    if s.len() > 0 && s[0] == '+' {
        s.drop_first()
    } else {
        s
    }
}

/// The number that `s` writes, where it is one that does not exceed `max`.
pub open spec fn unsigned_number(s: Seq<char>, max: nat) -> Option<nat> {
    let digits = unsigned_digits(s);
    if digits.len() > 0 && all_digits(digits) && number_of(digits) <= max {
        Some(number_of(digits))
    } else {
        None
    }
}

proof fn lemma_number_grows(s: Seq<char>, i: int)
    requires
        0 <= i <= s.len(),
        all_digits(s),
    ensures
        number_of(s.take(i)) <= number_of(s),
    decreases s.len() - i,
{
    if i < s.len() {
        lemma_number_grows(s, i + 1);
        assert(s.take(i + 1).drop_last() =~= s.take(i));
        assert(number_of(s.take(i)) <= number_of(s.take(i + 1)));
    } else {
        assert(s.take(i) =~= s);
    }
}

/// Parses an unsigned number that does not exceed `max`.
pub fn parse_number(s: &str, max: u64) -> (res: Option<u64>)
    ensures
        match res {
            Some(n) => unsigned_number(s@, max as nat) == Some(n as nat),
            None => unsigned_number(s@, max as nat) is None,
        },
{
    let v = chars_of(s);
    let start: usize = if v.len() > 0 && v[0] == '+' {
        1
    } else {
        0
    };
    let ghost digits = unsigned_digits(s@);
    assert(digits =~= s@.skip(start as int));
    if start == v.len() {
        return None;
    }
    let mut n: u64 = 0;
    let mut i: usize = start;
    while i < v.len()
        invariant
            v@ == s@,
            start <= i <= v.len(),
            start <= 1,
            digits == unsigned_digits(s@),
            digits == s@.skip(start as int),
            digits.len() > 0,
            n <= max,
            forall|j: int| 0 <= j < i - start ==> is_digit(#[trigger] digits[j]),
            n == number_of(digits.take(i - start)),
        decreases v.len() - i,
    {
        let c: char = v[i];
        assert(c == digits[i - start]);
        let code: u32 = c as u32;
        if code < 0x30 || code > 0x39 {
            assert(!is_digit(digits[i - start]));
            return None;
        }
        let next: u128 = (n as u128) * 10 + ((code - 0x30) as u128);
        proof {
            assert(digits.take(i - start + 1).drop_last() =~= digits.take(i - start));
            assert(number_of(digits.take(i - start + 1)) == next);
        }
        if next > max as u128 {
            proof {
                if all_digits(digits) {
                    lemma_number_grows(digits, i - start + 1);
                }
            }
            return None;
        }
        n = next as u64;
        i += 1;
    }
    assert(digits.take(i - start) =~= digits);
    Some(n)
}

/// `s` with each character `from` written as `to`.
pub open spec fn replaced(s: Seq<char>, from: char, to: Seq<char>) -> Seq<char>
    decreases s.len(),
{
    if s.len() == 0 {
        Seq::empty()
    } else {
        replaced(s.drop_last(), from, to) + if s.last() == from {
            to
        } else {
            seq![s.last()]
        }
    }
}

/// Writes each character `from` of `s` as `to`.
pub fn replace_char(s: &str, from: char, to: &str) -> (res: String)
    ensures
        res@ == replaced(s@, from, to@),
{
    let v = chars_of(s);
    let mut res = String::new();
    let mut i: usize = 0;
    while i < v.len()
        invariant
            v@ == s@,
            i <= v.len(),
            res@ == replaced(s@.take(i as int), from, to@),
        decreases v.len() - i,
    {
        assert(s@.take(i + 1).drop_last() =~= s@.take(i as int));
        if v[i] == from {
            res.append(to);
        } else {
            res.push(v[i]);
            assert(res@ =~= replaced(s@.take(i as int), from, to@) + seq![v@[i as int]]);
        }
        i += 1;
    }
    assert(s@.take(i as int) =~= s@);
    res
}

/// `a` comes before `b` in the order of their characters.
pub open spec fn text_before(a: Seq<char>, b: Seq<char>) -> bool
    decreases a.len(),
{
    if b.len() == 0 {
        false
    } else if a.len() == 0 {
        true
    } else if a[0] != b[0] {
        (a[0] as u32) < (b[0] as u32)
    } else {
        text_before(a.drop_first(), b.drop_first())
    }
}

/// Whether `a` comes before `b` in the order of their characters.
pub fn is_text_before(a: &str, b: &str) -> (res: bool)
    ensures
        res == text_before(a@, b@),
{
    let x = chars_of(a);
    let y = chars_of(b);
    let mut i: usize = 0;
    assert(a@.skip(0) =~= a@);
    assert(b@.skip(0) =~= b@);
    while i < x.len() && i < y.len()
        invariant
            x@ == a@,
            y@ == b@,
            i <= x.len(),
            i <= y.len(),
            text_before(a@, b@) == text_before(a@.skip(i as int), b@.skip(i as int)),
        decreases x.len() - i,
    {
        let ghost p = a@.skip(i as int);
        let ghost q = b@.skip(i as int);
        assert(p[0] == x@[i as int]);
        assert(q[0] == y@[i as int]);
        if x[i] != y[i] {
            return (x[i] as u32) < (y[i] as u32);
        }
        assert(p.drop_first() =~= a@.skip(i + 1));
        assert(q.drop_first() =~= b@.skip(i + 1));
        i += 1;
    }
    i < y.len()
}

proof fn lemma_not_before_itself(a: Seq<char>)
    ensures
        !text_before(a, a),
    decreases a.len(),
{
    if a.len() > 0 {
        lemma_not_before_itself(a.drop_first());
    }
}

proof fn lemma_chars_differ(x: char, y: char)
    requires
        x != y,
    ensures
        (x as u32) != (y as u32),
{
}

proof fn lemma_before_or_equal(a: Seq<char>, b: Seq<char>)
    ensures
        text_before(a, b) || text_before(b, a) || a == b,
    decreases a.len(),
{
    if a.len() > 0 && b.len() > 0 {
        if a[0] == b[0] {
            lemma_before_or_equal(a.drop_first(), b.drop_first());
            if a.drop_first() == b.drop_first() {
                assert(a =~= seq![a[0]] + a.drop_first());
                assert(b =~= seq![b[0]] + b.drop_first());
            }
        } else {
            lemma_chars_differ(a[0], b[0]);
        }
    } else if a.len() == 0 && b.len() == 0 {
        assert(a =~= b);
    }
}

proof fn lemma_before_is_transitive(a: Seq<char>, b: Seq<char>, c: Seq<char>)
    requires
        text_before(a, b),
        text_before(b, c),
    ensures
        text_before(a, c),
    decreases a.len(),
{
    if a.len() > 0 && a[0] == b[0] && b[0] == c[0] {
        lemma_before_is_transitive(a.drop_first(), b.drop_first(), c.drop_first());
    }
}

/// The order of texts is strict and total.
pub proof fn lemma_text_order(a: Seq<char>, b: Seq<char>, c: Seq<char>)
    ensures
        !text_before(a, a),
        text_before(a, b) && text_before(b, c) ==> text_before(a, c),
        text_before(a, c) ==> text_before(a, b) || text_before(b, c),
        text_before(a, b) || text_before(b, a) || a == b,
{
    lemma_not_before_itself(a);
    lemma_before_or_equal(a, b);
    if text_before(a, b) && text_before(b, c) {
        lemma_before_is_transitive(a, b, c);
    }
    if text_before(b, a) && text_before(a, c) {
        lemma_before_is_transitive(b, a, c);
    }
}

/// `count` spaces.
pub open spec fn spaces(count: nat) -> Seq<char> {
    Seq::new(count, |i: int| ' ')
}

/// `s` filled up on the right to `width` characters.
pub open spec fn left_aligned(s: Seq<char>, width: nat) -> Seq<char> {
    if s.len() >= width {
        s
    } else {
        s + spaces((width - s.len()) as nat)
    }
}

/// `s` filled up on the left to `width` characters.
pub open spec fn right_aligned(s: Seq<char>, width: nat) -> Seq<char> {
    if s.len() >= width {
        s
    } else {
        spaces((width - s.len()) as nat) + s
    }
}

fn to_spaces(count: usize) -> (s: String)
    ensures
        s@ == spaces(count as nat),
{
    let mut s = String::new();
    let mut i: usize = 0;
    assert(s@ =~= spaces(0));
    while i < count
        invariant
            i <= count,
            s@ == spaces(i as nat),
        decreases count - i,
    {
        s.push(' ');
        i += 1;
        assert(s@ =~= spaces(i as nat));
    }
    s
}

/// Fills up on the right.
pub fn align_left(s: &str, width: usize) -> (res: String)
    ensures
        res@ == left_aligned(s@, width as nat),
{
    let len: usize = chars_of(s).len();
    if len >= width {
        String::from_str(s)
    } else {
        String::from_str(s).concat(to_spaces(width - len).as_str())
    }
}

/// Fills up on the left.
pub fn align_right(s: &str, width: usize) -> (res: String)
    ensures
        res@ == right_aligned(s@, width as nat),
{
    let len: usize = chars_of(s).len();
    if len >= width {
        String::from_str(s)
    } else {
        to_spaces(width - len).concat(s)
    }
}

/// `s` without the white space at its ends.
pub open spec fn trimmed(s: Seq<char>) -> Seq<char>
    decreases s.len(),
{
    if s.len() == 0 {
        s
    } else if is_white(s[0]) {
        trimmed(s.drop_first())
    } else if is_white(s.last()) {
        trimmed(s.drop_last())
    } else {
        s
    }
}

/// Takes off the white space at both ends.
pub fn trim(s: &str) -> (res: String)
    ensures
        res@ == trimmed(s@),
{
    let v = chars_of(s);
    let mut start: usize = 0;
    let mut end: usize = v.len();
    assert(s@.subrange(0, s@.len() as int) =~= s@);
    while start < end && white(v[start])
        invariant
            v@ == s@,
            0 <= start <= end <= v.len(),
            end == v.len(),
            trimmed(s@) == trimmed(s@.subrange(start as int, end as int)),
        decreases end - start,
    {
        assert(s@.subrange(start as int, end as int).drop_first() =~= s@.subrange(
            start + 1,
            end as int,
        ));
        start += 1;
    }
    while start < end && white(v[end - 1])
        invariant
            v@ == s@,
            0 <= start <= end <= v.len(),
            start < end ==> !is_white(s@[start as int]),
            trimmed(s@) == trimmed(s@.subrange(start as int, end as int)),
        decreases end - start,
    {
        let ghost part = s@.subrange(start as int, end as int);
        assert(part[0] == s@[start as int]);
        assert(part.last() == s@[end - 1]);
        assert(part.drop_last() =~= s@.subrange(start as int, end - 1));
        end -= 1;
    }
    proof {
        let part = s@.subrange(start as int, end as int);
        if start < end {
            assert(part[0] == s@[start as int]);
            assert(part.last() == s@[end - 1]);
        }
        assert(trimmed(part) == part);
    }
    text_of(&v, start, end - start)
}

/// Whether two texts are the same.
pub fn same_text(a: &str, b: &str) -> (res: bool)
    ensures
        res == (a@ == b@),
{
    let x = chars_of(a);
    let y = chars_of(b);
    if x.len() != y.len() {
        return false;
    }
    let mut i: usize = 0;
    while i < x.len()
        invariant
            x@ == a@,
            y@ == b@,
            x.len() == y.len(),
            i <= x.len(),
            forall|j: int| 0 <= j < i ==> a@[j] == b@[j],
        decreases x.len() - i,
    {
        if x[i] != y[i] {
            assert(a@[i as int] != b@[i as int]);
            return false;
        }
        i += 1;
    }
    assert(a@ =~= b@);
    true
}

/// The text is in the list.
pub open spec fn lists_text(list: Seq<String>, s: Seq<char>) -> bool {
    exists|i: int| 0 <= i < list.len() && (#[trigger] list[i])@ == s
}

/// Whether the text is in the list.
pub fn contains_same_text(list: &Vec<String>, s: &str) -> (res: bool)
    ensures
        res == lists_text(list@, s@),
{
    let mut i: usize = 0;
    while i < list.len()
        invariant
            i <= list.len(),
            forall|j: int| 0 <= j < i ==> (#[trigger] list@[j])@ != s@,
        decreases list.len() - i,
    {
        if same_text(list[i].as_str(), s) {
            assert(list@[i as int]@ == s@);
            return true;
        }
        i += 1;
    }
    false
}

/// A text in lower case.
pub uninterp spec fn lowercased(s: Seq<char>) -> Seq<char>;

/// A text in lower case, by [`str::to_lowercase`]: each character that has a
/// lower case is replaced by it, whatever the language of the machine.
#[verifier::external_body]
fn std_lowercase(s: &str) -> (res: String)
    ensures
        res@ == lowercased(s@),
{
    s.to_lowercase()
}

/// A text in lower case.
pub fn to_lower(s: &str) -> (res: String)
    ensures
        res@ == lowercased(s@),
{
    std_lowercase(s)
}

/// A text that fits the width is brought to it with spaces, behind it or before it. One
/// that does not fit stays whole.
pub proof fn law_aligned_text_fills_the_width(s: Seq<char>, width: nat)
    ensures
        s.len() <= width ==> left_aligned(s, width).len() == width,
        s.len() <= width ==> right_aligned(s, width).len() == width,
        s.len() >= width ==> left_aligned(s, width) == s && right_aligned(s, width) == s,
        s.is_prefix_of(left_aligned(s, width)),
        s.is_suffix_of(right_aligned(s, width)),
        forall|i: int| s.len() <= i < width ==> #[trigger] left_aligned(s, width)[i] == ' ',
        forall|i: int| 0 <= i < width - s.len() ==> #[trigger] right_aligned(s, width)[i] == ' ',
{
    let l = left_aligned(s, width);
    let r = right_aligned(s, width);
    assert(s.len() >= width ==> l =~= s && r =~= s);
    assert(l.subrange(0, s.len() as int) =~= s);
    assert(r.subrange(r.len() - s.len(), r.len() as int) =~= s);
}

/// A number in decimal notation is read back as itself. It has no leading zero but for
/// the number zero.
pub proof fn law_decimal_reads_back(n: nat)
    ensures
        all_digits(decimal(n)),
        number_of(decimal(n)) == n,
        n > 0 ==> decimal(n)[0] != '0',
        forall|max: nat| n <= max ==> #[trigger] unsigned_number(decimal(n), max) == Some(n),
        forall|max: nat| n > max ==> #[trigger] unsigned_number(decimal(n), max) is None,
    decreases n,
{
    let s = decimal(n);
    if n >= 10 {
        law_decimal_reads_back(n / 10);
        assert(s.drop_last() =~= decimal(n / 10));
        assert(digit_value(s.last()) == n % 10);
        assert forall|i: int| 0 <= i < s.len() implies is_digit(#[trigger] s[i]) by {
            if i < s.len() - 1 {
                assert(decimal(n / 10)[i] == s[i]);
            }
        }
    } else {
        assert(s.drop_last().len() == 0);
        assert(digit_value(s[0]) == n);
        assert(number_of(s.drop_last()) == 0);
    }
    lemma_decimal_first(n);
    assert(unsigned_digits(s) == s);
}

/// A number below zero has a minus sign in front of its digits, and no other has one.
pub proof fn law_sign_stands_in_front(n: int)
    ensures
        n < 0 ==> signed_decimal(n).first() == '-' && number_of(signed_decimal(n).drop_first())
            == -n,
        n >= 0 ==> number_of(signed_decimal(n)) == n && signed_decimal(n).first() != '-',
{
    if n < 0 {
        law_decimal_reads_back((-n) as nat);
        assert(signed_decimal(n).drop_first() =~= decimal((-n) as nat));
    } else {
        law_decimal_reads_back(n as nat);
        lemma_decimal_first(n as nat);
    }
}

/// Zeros fill a number up to the width, and do not change it.
pub proof fn law_zeros_fill_the_width(n: nat, width: nat)
    ensures
        padded_decimal(n as int, width).len() >= width,
        decimal(n).len() <= width ==> padded_decimal(n as int, width).len() == width,
        all_digits(padded_decimal(n as int, width)),
        number_of(padded_decimal(n as int, width)) == n,
{
    let digits = decimal(n);
    let all = padded_decimal(n as int, width);
    law_decimal_reads_back(n);
    assert(crate::money::magnitude(n as int) == n);
    let count: nat = if digits.len() >= width {
        0
    } else {
        (width - digits.len()) as nat
    };
    assert(all =~= zeros(count) + digits);
    lemma_leading_zeros(count, digits);
}

proof fn lemma_leading_zeros(count: nat, digits: Seq<char>)
    requires
        all_digits(digits),
    ensures
        all_digits(zeros(count) + digits),
        number_of(zeros(count) + digits) == number_of(digits),
    decreases digits.len(), count,
{
    let all = zeros(count) + digits;
    assert forall|i: int| 0 <= i < all.len() implies is_digit(#[trigger] all[i]) by {
        if i >= count {
            assert(all[i] == digits[i - count]);
        }
    }
    if digits.len() > 0 {
        let rest = digits.drop_last();
        assert forall|i: int| 0 <= i < rest.len() implies is_digit(#[trigger] rest[i]) by {
            assert(rest[i] == digits[i]);
        }
        lemma_leading_zeros(count, rest);
        assert(all.drop_last() =~= zeros(count) + rest);
    } else if count > 0 {
        lemma_leading_zeros((count - 1) as nat, digits);
        assert(all.drop_last() =~= zeros((count - 1) as nat) + digits);
    }
}

/// White space among the ASCII characters is the space and the five controls from the
/// tabulator to the carriage return.
pub proof fn law_white_ascii_is_known(c: char)
    requires
        (c as u32) < 128,
    ensures
        is_white(c) <==> c == ' ' || c == '\t' || c == '\n' || c == '\u{b}' || c == '\u{c}' || c
            == '\r',
{
}

/// A word is not empty, and holds no white space.
pub proof fn law_words_hold_no_white_space(s: Seq<char>, i: int, j: int)
    requires
        0 <= i < words(s).len(),
    ensures
        words(s)[i].len() > 0,
        0 <= j < words(s)[i].len() ==> !is_white(words(s)[i][j]),
    decreases s.len(),
{
    if s.len() > 0 {
        if is_white(s[0]) {
            law_words_hold_no_white_space(s.drop_first(), i, j);
        } else {
            let n = word_len(s);
            lemma_word_len(s);
            if i == 0 {
                lemma_word_is_dark(s, j);
            } else {
                law_words_hold_no_white_space(s.skip(n as int), i - 1, j);
            }
        }
    }
}

proof fn lemma_word_is_dark(s: Seq<char>, j: int)
    ensures
        0 <= j < word_len(s) ==> !is_white(s[j]),
    decreases s.len(),
{
    if s.len() > 0 && !is_white(s[0]) && j > 0 {
        lemma_word_is_dark(s.drop_first(), j - 1);
        lemma_word_len(s.drop_first());
    }
}

/// A word that white space follows is split off, and one that nothing follows is the
/// only one. White space in front adds nothing.
pub proof fn law_words_are_split_at_white_space(word: Seq<char>, gap: char, rest: Seq<char>)
    requires
        word.len() > 0,
        forall|i: int| 0 <= i < word.len() ==> !is_white(#[trigger] word[i]),
        is_white(gap),
    ensures
        words(word) == seq![word],
        words(word + seq![gap] + rest) == seq![word] + words(rest),
        words(seq![gap] + rest) == words(rest),
{
    let all = word + seq![gap] + rest;
    let none = Seq::<char>::empty();
    reveal_with_fuel(words, 3);
    lemma_word_ends(word, none);
    assert(word + none =~= word);
    assert(word.take(word.len() as int) =~= word);
    assert(word.skip(word.len() as int) =~= none);
    assert(words(word) =~= seq![word]);
    lemma_word_ends(word, seq![gap] + rest);
    assert(all =~= word + (seq![gap] + rest));
    assert(all.take(word.len() as int) =~= word);
    assert(all.skip(word.len() as int) =~= seq![gap] + rest);
    assert((seq![gap] + rest).drop_first() =~= rest);
    assert(all[0] == word[0]);
}

proof fn lemma_word_ends(word: Seq<char>, rest: Seq<char>)
    requires
        forall|i: int| 0 <= i < word.len() ==> !is_white(#[trigger] word[i]),
        rest.len() == 0 || is_white(rest[0]),
    ensures
        word_len(word + rest) == word.len(),
    decreases word.len(),
{
    let all = word + rest;
    if word.len() > 0 {
        let tail = word.drop_first();
        assert forall|i: int| 0 <= i < tail.len() implies !is_white(#[trigger] tail[i]) by {
            assert(tail[i] == word[i + 1]);
        }
        lemma_word_ends(tail, rest);
        assert(all.drop_first() =~= tail + rest);
        assert(all[0] == word[0]);
    } else {
        assert(all =~= rest);
    }
}

/// A text that is cut keeps its beginning, with three dots behind it. One that is short
/// enough is not cut.
pub proof fn law_cut_text_keeps_its_beginning(s: Seq<char>, max: nat)
    ensures
        flattened(s).len() <= max ==> truncated(s, max) == flattened(s),
        flattened(s).len() > max ==> {
            &&& truncated(s, max).len() == max + 3
            &&& truncated(s, max).take(max as int) == flattened(s).take(max as int)
            &&& forall|i: int| max <= i < max + 3 ==> #[trigger] truncated(s, max)[i] == '.'
        },
{
    if flattened(s).len() > max {
        assert(truncated(s, max).take(max as int) =~= flattened(s).take(max as int));
    }
}

/// A part is joined on with the separator before it, but for the first.
pub proof fn law_parts_are_joined_in_order(
    parts: Seq<Seq<char>>,
    part: Seq<char>,
    sep: Seq<char>,
)
    ensures
        join(Seq::empty(), sep).len() == 0,
        join(seq![part], sep) == part,
        parts.len() > 0 ==> join(parts.push(part), sep) == join(parts, sep) + sep + part,
{
    assert(parts.push(part).drop_last() =~= parts);
}

/// Each character is replaced for itself: one that is meant by what is to stand for it,
/// and any other by itself.
pub proof fn law_characters_are_replaced_one_by_one(
    s: Seq<char>,
    c: char,
    from: char,
    to: Seq<char>,
)
    ensures
        replaced(Seq::empty(), from, to).len() == 0,
        c == from ==> replaced(s.push(c), from, to) == replaced(s, from, to) + to,
        c != from ==> replaced(s.push(c), from, to) == replaced(s, from, to).push(c),
{
    assert(s.push(c).drop_last() =~= s);
    assert(replaced(s, from, to) + seq![c] =~= replaced(s, from, to).push(c));
}

/// Texts go by the first character in which they differ. A text that another one starts
/// with comes before it.
pub proof fn law_texts_go_by_the_first_difference(
    common: Seq<char>,
    a: char,
    b: char,
    x: Seq<char>,
    y: Seq<char>,
)
    ensures
        a != b ==> (text_before(common + seq![a] + x, common + seq![b] + y) <==> (a as u32) < (
        b as u32)),
        text_before(common, common + seq![b] + y),
        !text_before(common + seq![b] + y, common),
        !text_before(common, common),
    decreases common.len(),
{
    let p = common + seq![a] + x;
    let q = common + seq![b] + y;
    if common.len() > 0 {
        let rest = common.drop_first();
        law_texts_go_by_the_first_difference(rest, a, b, x, y);
        assert(p.drop_first() =~= rest + seq![a] + x);
        assert(q.drop_first() =~= rest + seq![b] + y);
        assert(p[0] == common[0] && q[0] == common[0]);
    } else {
        assert(p[0] == a && q[0] == b);
    }
}

/// Trimming takes off white space at both ends, and nothing else.
pub proof fn law_trimming_takes_white_space_off(s: Seq<char>, gap: char)
    requires
        is_white(gap),
    ensures
        trimmed(s).len() > 0 ==> !is_white(trimmed(s).first()) && !is_white(trimmed(s).last()),
        s.len() > 0 && !is_white(s.first()) && !is_white(s.last()) ==> trimmed(s) == s,
        trimmed(seq![gap] + s) == trimmed(s),
        s.len() > 0 && !is_white(s.first()) ==> trimmed(s.push(gap)) == trimmed(s),
        trimmed(s).len() == 0 <==> is_blank(s),
    decreases s.len(),
{
    assert((seq![gap] + s).drop_first() =~= s);
    assert(s.push(gap).drop_last() =~= s);
    if s.len() > 0 {
        if is_white(s[0]) {
            let rest = s.drop_first();
            law_trimming_takes_white_space_off(rest, gap);
            if is_blank(rest) {
                assert forall|i: int| 0 <= i < s.len() implies is_white(#[trigger] s[i]) by {
                    if i > 0 {
                        assert(rest[i - 1] == s[i]);
                    }
                }
            }
            if is_blank(s) {
                assert forall|i: int| 0 <= i < rest.len() implies is_white(
                    #[trigger] rest[i],
                ) by {
                    assert(rest[i] == s[i + 1]);
                }
            }
        } else if is_white(s.last()) {
            let rest = s.drop_last();
            law_trimming_takes_white_space_off(rest, gap);
            assert(rest[0] == s[0]);
        }
    }
}

} // verus!
