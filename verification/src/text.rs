//! Texts: comparing, trimming and reading them.
use vstd::prelude::*;

verus! {

/// The characters of a text.
pub fn chars_of(s: &str) -> (r: Vec<char>)
    ensures
        r@ == s@,
{
    let mut r: Vec<char> = Vec::new();
    for c in it: s.chars()
        invariant
            it.seq() == s@,
            r@ == s@.take(it.index() as int),
    {
        r.push(c);
        assert(s@.take(it.index() + 1) =~= s@.take(it.index() as int).push(c));
    }
    assert(s@.take(s@.len() as int) =~= s@);
    r
}

/// Whether two texts hold the same characters.
pub fn same_text(a: &str, b: &str) -> (r: bool)
    ensures
        r == (a@ == b@),
{
    a.to_owned() == b.to_owned()
}

/// Whether a text comes before another in the order of their characters.
pub open spec fn text_less(a: Seq<char>, b: Seq<char>) -> bool
    decreases a.len(),
{
    if b.len() == 0 {
        false
    } else if a.len() == 0 {
        true
    } else if a[0] != b[0] {
        a[0] < b[0]
    } else {
        text_less(a.drop_first(), b.drop_first())
    }
}

/// Of two texts one comes first, unless they are the same.
pub proof fn lemma_text_less_total(a: Seq<char>, b: Seq<char>)
    ensures
        text_less(a, b) || text_less(b, a) || a == b,
        !(text_less(a, b) && text_less(b, a)),
        a == b ==> !text_less(a, b),
    decreases a.len(),
{
    if a.len() > 0 && b.len() > 0 && a[0] == b[0] {
        lemma_text_less_total(a.drop_first(), b.drop_first());
        if a.drop_first() == b.drop_first() {
            assert(a =~= seq![a[0]] + a.drop_first());
            assert(b =~= seq![b[0]] + b.drop_first());
        }
    } else if a.len() == 0 && b.len() == 0 {
        assert(a =~= b);
    }
}

/// The order of texts is transitive.
pub proof fn lemma_text_less_transitive(a: Seq<char>, b: Seq<char>, c: Seq<char>)
    requires
        text_less(a, b),
        text_less(b, c),
    ensures
        text_less(a, c),
    decreases a.len(),
{
    if a.len() > 0 && a[0] == b[0] && b[0] == c[0] {
        lemma_text_less_transitive(a.drop_first(), b.drop_first(), c.drop_first());
    }
}

/// Texts are ordered by their first difference: where two agree on their first `i` characters, the
/// one that ends there, or has the lesser character there, comes first.
pub proof fn law_first_difference_orders(a: Seq<char>, b: Seq<char>, i: int)
    requires
        0 <= i <= a.len(),
        i < b.len(),
        forall|j: int| 0 <= j < i ==> a[j] == b[j],
        i == a.len() || a[i] < b[i],
    ensures
        text_less(a, b),
        !text_less(b, a),
        a != b,
    decreases i,
{
    lemma_text_less_total(a, b);
    if i > 0 {
        assert(a[0] == b[0]);
        assert forall|j: int| 0 <= j < i - 1 implies a.drop_first()[j] == b.drop_first()[j] by {
            assert(a[j + 1] == b[j + 1]);
        }
        law_first_difference_orders(a.drop_first(), b.drop_first(), i - 1);
    }
}

/// Whether `a` comes before `b`.
pub fn text_before(a: &str, b: &str) -> (r: bool)
    ensures
        r == text_less(a@, b@),
{
    let x = chars_of(a);
    let y = chars_of(b);
    let mut i: usize = 0;
    assert(x@.skip(0) =~= x@ && y@.skip(0) =~= y@);
    while i < x.len() && i < y.len() && x[i] == y[i]
        invariant
            x@ == a@,
            y@ == b@,
            i <= x@.len(),
            i <= y@.len(),
            text_less(a@, b@) == text_less(x@.skip(i as int), y@.skip(i as int)),
        decreases x@.len() - i,
    {
        assert(x@.skip(i as int).drop_first() =~= x@.skip(i + 1));
        assert(y@.skip(i as int).drop_first() =~= y@.skip(i + 1));
        i = i + 1;
    }
    if i == y.len() {
        false
    } else if i == x.len() {
        true
    } else {
        x[i] < y[i]
    }
}

/// The characters with the Unicode property White_Space.
pub open spec fn is_white_space(c: char) -> bool {
    let u = c as u32;
    ||| 0x9 <= u <= 0xd
    ||| u == 0x20
    ||| u == 0x85
    ||| u == 0xa0
    ||| u == 0x1680
    ||| 0x2000 <= u <= 0x200a
    ||| u == 0x2028
    ||| u == 0x2029
    ||| u == 0x202f
    ||| u == 0x205f
    ||| u == 0x3000
}

/// Whether a character is white space.
pub fn is_space(c: char) -> (r: bool)
    ensures
        r == is_white_space(c),
{
    let u = c as u32;
    0x9 <= u && u <= 0xd || u == 0x20 || u == 0x85 || u == 0xa0 || u == 0x1680 || 0x2000 <= u && u
        <= 0x200a || u == 0x2028 || u == 0x2029 || u == 0x202f || u == 0x205f || u == 0x3000
}

/// Which characters are trimmed from the ends of a text.
#[derive(Clone, Copy)]
pub enum Trim {
    WhiteSpace,
    Quotes,
}

impl Trim {
    pub open spec fn takes(self, c: char) -> bool {
        match self {
            Trim::WhiteSpace => is_white_space(c),
            Trim::Quotes => c == '"',
        }
    }

    fn test(self, c: char) -> (r: bool)
        ensures
            r == self.takes(c),
    {
        match self {
            Trim::WhiteSpace => is_space(c),
            Trim::Quotes => c == '"',
        }
    }
}

/// A text without the characters that `t` takes at its end.
pub open spec fn trim_end(s: Seq<char>, t: Trim) -> Seq<char>
    decreases s.len(),
{
    if s.len() > 0 && t.takes(s.last()) {
        trim_end(s.drop_last(), t)
    } else {
        s
    }
}

/// A text without the characters that `t` takes at its start.
pub open spec fn trim_start(s: Seq<char>, t: Trim) -> Seq<char>
    decreases s.len(),
{
    if s.len() > 0 && t.takes(s[0]) {
        trim_start(s.drop_first(), t)
    } else {
        s
    }
}

/// A text without the characters that `t` takes at its ends.
pub open spec fn trim(s: Seq<char>, t: Trim) -> Seq<char> {
    trim_start(trim_end(s, t), t)
}

/// Narrows the part of `s` from `lo` to `hi` to what is left of it after trimming.
pub fn trim_range(s: &Vec<char>, lo: usize, hi: usize, t: Trim) -> (r: (usize, usize))
    requires
        lo <= hi <= s@.len(),
    ensures
        lo <= r.0 <= r.1 <= hi,
        s@.subrange(r.0 as int, r.1 as int) == trim(s@.subrange(lo as int, hi as int), t),
{
    let ghost whole = s@.subrange(lo as int, hi as int);
    let mut end: usize = hi;
    while end > lo && t.test(s[end - 1])
        invariant
            lo <= end <= hi <= s@.len(),
            trim_end(whole, t) == trim_end(s@.subrange(lo as int, end as int), t),
        decreases end,
    {
        assert(s@.subrange(lo as int, end as int).drop_last() =~= s@.subrange(lo as int, end - 1));
        end = end - 1;
    }
    let mut start: usize = lo;
    while start < end && t.test(s[start])
        invariant
            lo <= start <= end <= hi <= s@.len(),
            trim(whole, t) == trim_start(s@.subrange(start as int, end as int), t),
        decreases end - start,
    {
        assert(s@.subrange(start as int, end as int).drop_first() =~= s@.subrange(
            start + 1,
            end as int,
        ));
        start = start + 1;
    }
    (start, end)
}

/// Whether a text holds nothing but white space.
pub fn is_blank(s: &str) -> (r: bool)
    ensures
        r == (trim(s@, Trim::WhiteSpace).len() == 0),
{
    let c = chars_of(s);
    let (lo, hi) = trim_range(&c, 0, c.len(), Trim::WhiteSpace);
    assert(c@.subrange(0, c@.len() as int) =~= s@);
    lo == hi
}

pub open spec fn is_digit(c: char) -> bool {
    '0' <= c && c <= '9'
}

/// The number that decimal digits stand for.
pub open spec fn digits_value(s: Seq<char>) -> nat
    decreases s.len(),
{
    if s.len() == 0 {
        0
    } else {
        10 * digits_value(s.drop_last()) + (s.last() as u32 - '0' as u32) as nat
    }
}

/// The `u32` that decimal digits stand for.
pub open spec fn digits_of(d: Seq<char>) -> Option<u32> {
    if d.len() > 0 && (forall|i: int| 0 <= i < d.len() ==> is_digit(#[trigger] d[i]))
        && digits_value(d) <= u32::MAX {
        Some(digits_value(d) as u32)
    } else {
        None
    }
}

/// The `u32` that a text stands for: decimal digits, after a `+` or alone.
pub open spec fn u32_of(s: Seq<char>) -> Option<u32> {
    if s.len() > 0 && s[0] == '+' {
        digits_of(s.drop_first())
    } else {
        digits_of(s)
    }
}

/// More digits stand for a number that is no smaller.
proof fn lemma_digits_grow(s: Seq<char>, i: int)
    requires
        0 <= i <= s.len(),
        forall|j: int| 0 <= j < s.len() ==> is_digit(#[trigger] s[j]),
    ensures
        digits_value(s.take(i)) <= digits_value(s),
    decreases s.len() - i,
{
    if i < s.len() {
        lemma_digits_grow(s, i + 1);
        assert(s.take(i + 1).drop_last() =~= s.take(i));
    } else {
        assert(s.take(i) =~= s);
    }
}

/// Reads the part of `s` from `lo` to `hi` as a `u32`.
pub fn parse_u32(s: &Vec<char>, lo: usize, hi: usize) -> (r: Option<u32>)
    requires
        lo <= hi <= s@.len(),
    ensures
        r == u32_of(s@.subrange(lo as int, hi as int)),
{
    let ghost whole = s@.subrange(lo as int, hi as int);
    let start: usize = if lo < hi && s[lo] == '+' {
        lo + 1
    } else {
        lo
    };
    let ghost d = s@.subrange(start as int, hi as int);
    assert(u32_of(whole) == digits_of(d)) by {
        if whole.len() > 0 && whole[0] == '+' {
            assert(whole.drop_first() =~= d);
        }
    }
    if start == hi {
        return None;
    }
    let mut value: u64 = 0;
    let mut i: usize = start;
    assert(d.take(0) =~= Seq::<char>::empty());
    while i < hi
        invariant
            lo <= start < hi <= s@.len(),
            start <= i <= hi,
            d == s@.subrange(start as int, hi as int),
            whole == s@.subrange(lo as int, hi as int),
            u32_of(whole) == digits_of(d),
            forall|j: int| 0 <= j < i - start ==> is_digit(#[trigger] d[j]),
            value == digits_value(d.take(i - start)),
            value <= u32::MAX,
        decreases hi - i,
    {
        let c = s[i];
        assert(d[i - start] == c);
        if !('0' <= c && c <= '9') {
            return None;
        }
        assert(d.take(i - start + 1).drop_last() =~= d.take(i - start));
        value = 10 * value + (c as u32 - '0' as u32) as u64;
        i = i + 1;
        if value > u32::MAX as u64 {
            proof {
                if forall|j: int| 0 <= j < d.len() ==> is_digit(#[trigger] d[j]) {
                    lemma_digits_grow(d, i - start);
                }
            }
            return None;
        }
    }
    assert(d.take(d.len() as int) =~= d);
    Some(value as u32)
}

/// The decimal digits of a number.
pub open spec fn decimal(n: nat) -> Seq<char>
    decreases n,
{
    if n < 10 {
        digit(n)
    } else {
        decimal(n / 10) + digit(n % 10)
    }
}

/// One decimal digit.
pub open spec fn digit(n: nat) -> Seq<char> {
    seq![(('0' as u32 + n) as u32) as char]
}

fn digit_text(n: u64) -> (r: &'static str)
    requires
        n < 10,
    ensures
        r@ == digit(n as nat),
{
    proof {
        reveal_strlit("0");
        reveal_strlit("1");
        reveal_strlit("2");
        reveal_strlit("3");
        reveal_strlit("4");
        reveal_strlit("5");
        reveal_strlit("6");
        reveal_strlit("7");
        reveal_strlit("8");
        reveal_strlit("9");
    }
    let r = match n {
        0 => "0",
        1 => "1",
        2 => "2",
        3 => "3",
        4 => "4",
        5 => "5",
        6 => "6",
        7 => "7",
        8 => "8",
        _ => "9",
    };
    assert(r@ =~= digit(n as nat));
    r
}

/// A number in decimal digits.
pub fn decimal_text(n: u64) -> (r: String)
    ensures
        r@ == decimal(n as nat),
    decreases n,
{
    if n < 10 {
        digit_text(n).to_owned()
    } else {
        let mut r = decimal_text(n / 10);
        r.append(digit_text(n % 10));
        r
    }
}

/// The decimal digits of a number, after a `-` if it is negative.
pub open spec fn signed_decimal(n: int) -> Seq<char> {
    if n < 0 {
        "-"@ + decimal((-n) as nat)
    } else {
        decimal(n as nat)
    }
}

/// A number in decimal digits, after a `-` if it is negative.
pub fn signed_decimal_text(n: i32) -> (r: String)
    ensures
        r@ == signed_decimal(n as int),
{
    if n < 0 {
        let mut r = "-".to_owned();
        r.append(decimal_text((-(n as i64)) as u64).as_str());
        r
    } else {
        decimal_text(n as u64)
    }
}

/// The part of a text from character `lo` to character `hi`.
pub fn part_of(s: &str, lo: usize, hi: usize) -> (r: String)
    requires
        lo <= hi <= s@.len(),
    ensures
        r@ == s@.subrange(lo as int, hi as int),
{
    s.substring_char(lo, hi).to_owned()
}

/// Whether a text starts with another.
pub open spec fn starts_with(s: Seq<char>, prefix: Seq<char>) -> bool {
    prefix.is_prefix_of(s)
}

/// Where `word` first stands in a text, or else the end of the text.
pub open spec fn position_of(s: Seq<char>, word: Seq<char>) -> int
    decreases s.len(),
{
    if s.len() == 0 || starts_with(s, word) {
        0
    } else {
        1 + position_of(s.drop_first(), word)
    }
}

/// Whether a text ends with another.
pub open spec fn ends_with(s: Seq<char>, suffix: Seq<char>) -> bool {
    suffix.is_suffix_of(s)
}

/// Whether `word` stands in `s` at `at`.
pub fn stands_at(s: &Vec<char>, at: usize, hi: usize, word: &Vec<char>) -> (r: bool)
    requires
        at <= hi <= s@.len(),
    ensures
        r == starts_with(s@.subrange(at as int, hi as int), word@),
{
    let ghost part = s@.subrange(at as int, hi as int);
    if word.len() > hi - at {
        return false;
    }
    let mut i: usize = 0;
    while i < word.len()
        invariant
            at <= hi <= s@.len(),
            word@.len() <= hi - at,
            part == s@.subrange(at as int, hi as int),
            i <= word@.len(),
            forall|j: int| 0 <= j < i ==> word@[j] == part[j],
        decreases word@.len() - i,
    {
        if s[at + i] != word[i] {
            assert(part[i as int] != word@[i as int]);
            assert(part.take(word@.len() as int)[i as int] == part[i as int]);
            return false;
        }
        i = i + 1;
    }
    assert(word@ =~= part.subrange(0, word@.len() as int));
    true
}

/// Where `word` first stands in the part of `s` from `lo` to `hi`; `hi` if it does not.
pub fn find_word(s: &Vec<char>, lo: usize, hi: usize, word: &Vec<char>) -> (r: usize)
    requires
        lo <= hi <= s@.len(),
    ensures
        lo <= r <= hi,
        r - lo == position_of(s@.subrange(lo as int, hi as int), word@),
{
    let ghost part = s@.subrange(lo as int, hi as int);
    let mut i: usize = lo;
    assert(part.skip(0) =~= part);
    while i < hi && !stands_at(s, i, hi, word)
        invariant
            lo <= i <= hi <= s@.len(),
            part == s@.subrange(lo as int, hi as int),
            position_of(part, word@) == i - lo + position_of(part.skip(i - lo), word@),
        decreases hi - i,
    {
        assert(part.skip(i - lo) =~= s@.subrange(i as int, hi as int));
        assert(part.skip(i - lo).drop_first() =~= part.skip(i - lo + 1));
        i = i + 1;
    }
    assert(part.skip(i - lo) =~= s@.subrange(i as int, hi as int));
    i
}

/// The decimal digits of a number are digits, stand for the number, and begin with a zero only if
/// they are one.
pub proof fn law_decimal_stands_for_the_number(n: nat)
    ensures
        decimal(n).len() > 0,
        forall|i: int| 0 <= i < decimal(n).len() ==> '0' <= #[trigger] decimal(n)[i] <= '9',
        digits_value(decimal(n)) == n,
        decimal(n).len() > 1 ==> decimal(n)[0] != '0',
    decreases n,
{
    if n < 10 {
        assert(decimal(n) =~= digit(n));
        assert(decimal(n).drop_last() =~= Seq::empty());
        assert(digits_value(Seq::<char>::empty()) == 0);
    } else {
        law_decimal_stands_for_the_number(n / 10);
        let front = decimal(n / 10);
        assert(decimal(n).drop_last() =~= front);
        if front.len() == 1 {
            assert(front.drop_last().len() == 0);
            assert(digits_value(front.drop_last()) == 0);
            assert(front.last() == front[0]);
            assert(digits_value(front) == (front[0] as u32 - '0' as u32) as nat);
        }
    }
}

/// A number is read in its decimal digits, after a `+` too, and in nothing that holds another
/// character.
pub proof fn law_numbers_are_read_back(n: u32, s: Seq<char>)
    ensures
        u32_of(decimal(n as nat)) == Some(n),
        u32_of(seq!['+'] + decimal(n as nat)) == Some(n),
        u32_of(s) is Some ==> s.len() > 0 && forall|i: int|
            0 <= i < s.len() ==> '0' <= #[trigger] s[i] <= '9' || (i == 0 && s[i] == '+'),
        u32_of(s) matches Some(v) ==> v == digits_value(
            if s[0] == '+' {
                s.drop_first()
            } else {
                s
            },
        ),
{
    law_decimal_stands_for_the_number(n as nat);
    let d = decimal(n as nat);
    assert forall|i: int| 0 <= i < d.len() implies is_digit(#[trigger] d[i]) by {}
    assert(d[0] != '+');
    let signed = seq!['+'] + d;
    assert(signed.drop_first() =~= d);
    if u32_of(s) is Some {
        assert forall|i: int| 0 <= i < s.len() implies '0' <= #[trigger] s[i] <= '9' || (i == 0
            && s[i] == '+') by {
            if s[0] == '+' {
                if i > 0 {
                    assert(is_digit(s.drop_first()[i - 1]));
                }
            } else {
                assert(is_digit(s[i]));
            }
        }
    }
}

/// Trimming takes characters away at the ends only, all that are to be taken there and no others.
pub proof fn law_trimming_takes_the_ends(s: Seq<char>, t: Trim) -> (r: (int, int))
    ensures
        0 <= r.0 <= r.1 <= s.len(),
        trim(s, t) == s.subrange(r.0, r.1),
        forall|i: int| 0 <= i < r.0 || r.1 <= i < s.len() ==> t.takes(#[trigger] s[i]),
        r.0 < r.1 ==> !t.takes(s[r.0]) && !t.takes(s[r.1 - 1]),
{
    let hi = lemma_trim_end(s, t);
    let rest = s.subrange(0, hi);
    let lo = lemma_trim_start(rest, t);
    assert(rest.subrange(lo, hi) =~= s.subrange(lo, hi));
    assert forall|i: int| 0 <= i < lo || hi <= i < s.len() implies t.takes(#[trigger] s[i]) by {
        if i < lo {
            assert(rest[i] == s[i]);
        }
    }
    if lo < hi {
        assert(rest[lo] == s[lo]);
    }
    (lo, hi)
}

proof fn lemma_trim_end(s: Seq<char>, t: Trim) -> (hi: int)
    ensures
        0 <= hi <= s.len(),
        trim_end(s, t) == s.subrange(0, hi),
        forall|i: int| hi <= i < s.len() ==> t.takes(#[trigger] s[i]),
        hi > 0 ==> !t.takes(s[hi - 1]),
    decreases s.len(),
{
    if s.len() > 0 && t.takes(s.last()) {
        let front = s.drop_last();
        let hi = lemma_trim_end(front, t);
        assert(front.subrange(0, hi) =~= s.subrange(0, hi));
        assert forall|i: int| hi <= i < s.len() implies t.takes(#[trigger] s[i]) by {
            if i < front.len() {
                assert(front[i] == s[i]);
            }
        }
        hi
    } else {
        assert(s.subrange(0, s.len() as int) =~= s);
        s.len() as int
    }
}

proof fn lemma_trim_start(s: Seq<char>, t: Trim) -> (lo: int)
    ensures
        0 <= lo <= s.len(),
        trim_start(s, t) == s.subrange(lo, s.len() as int),
        forall|i: int| 0 <= i < lo ==> t.takes(#[trigger] s[i]),
        lo < s.len() ==> !t.takes(s[lo]),
    decreases s.len(),
{
    if s.len() > 0 && t.takes(s[0]) {
        let rest = s.drop_first();
        let lo = lemma_trim_start(rest, t);
        assert(rest.subrange(lo, rest.len() as int) =~= s.subrange(lo + 1, s.len() as int));
        assert forall|i: int| 0 <= i < lo + 1 implies t.takes(#[trigger] s[i]) by {
            if i > 0 {
                assert(rest[i - 1] == s[i]);
            }
        }
        lo + 1
    } else {
        assert(s.subrange(0, s.len() as int) =~= s);
        0
    }
}

/// A word is found where it stands first, and not found where it does not stand at all.
pub proof fn law_first_place_of_a_word(s: Seq<char>, word: Seq<char>, i: int)
    requires
        word.len() > 0,
    ensures
        0 <= position_of(s, word) <= s.len(),
        position_of(s, word) < s.len() ==> word.is_prefix_of(s.skip(position_of(s, word))),
        0 <= i < position_of(s, word) ==> !word.is_prefix_of(s.skip(i)),
    decreases s.len(),
{
    if s.len() > 0 && !starts_with(s, word) {
        let rest = s.drop_first();
        law_first_place_of_a_word(rest, word, i - 1);
        let p = position_of(rest, word);
        assert(rest.skip(p) =~= s.skip(p + 1));
        if 0 < i <= s.len() {
            assert(rest.skip(i - 1) =~= s.skip(i));
        } else {
            assert(s.skip(0) =~= s);
        }
    } else {
        assert(s.skip(0) =~= s);
    }
}

/// The characters of white space: those that part words and lines, the spaces that do not break or
/// are of a width of their own, and no others; no visible ASCII character is one.
pub proof fn law_white_space(c: char)
    ensures
        is_white_space(c) <==> c == ' ' || c == '\t' || c == '\n' || c == '\r' || c == '\u{b}' || c
            == '\u{c}' || c == '\u{85}' || c == '\u{a0}' || c == '\u{1680}' || ('\u{2000}' <= c
            <= '\u{200a}') || c == '\u{2028}' || c == '\u{2029}' || c == '\u{202f}' || c
            == '\u{205f}' || c == '\u{3000}',
        '!' <= c <= '~' ==> !is_white_space(c),
{
}

} // verus!
