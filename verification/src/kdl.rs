//! Reading a text in KDL, word by word: the language of the compositor's configuration.
//!
//! A text is a list of statements. A statement is a few words; it ends at a line break or a `;`, and
//! `{` and `}` open and close a block of statements that belongs to it. Words may stand in quotes,
//! with escapes in them, and two words with a `=` between them are a property.
//! Comments are `// ..`, `/* .. */`, and `/-` before what is not to count.
use crate::text::{find_word, is_space, is_white_space, part_of, position_of};
use vstd::prelude::*;

verus! {

/// A word, and whether it stood in quotes.
#[derive(Debug)]
pub struct Word {
    pub text: String,
    pub quoted: bool,
}

/// The mathematical value of a [`Word`].
pub struct WordView {
    pub text: Seq<char>,
    pub quoted: bool,
}

impl View for Word {
    type V = WordView;

    open spec fn view(&self) -> WordView {
        WordView { text: self.text@, quoted: self.quoted }
    }
}

/// What stands at a place of a text.
#[derive(Debug)]
pub enum Token {
    /// White space.
    Space,
    /// A comment, or a line break that a backslash takes away.
    Comment,
    Word(Word),
    /// A `=`: the word before it names a property, and the word after it is the property's value.
    Equals,
    /// A `/-`: what follows does not count.
    Skip,
    /// The end of a statement.
    End,
    Open,
    Close,
}

/// The mathematical value of a [`Token`].
pub enum TokenView {
    Space,
    Comment,
    Word(WordView),
    Equals,
    Skip,
    End,
    Open,
    Close,
}

impl View for Token {
    type V = TokenView;

    open spec fn view(&self) -> TokenView {
        match *self {
            Token::Space => TokenView::Space,
            Token::Comment => TokenView::Comment,
            Token::Word(w) => TokenView::Word(w@),
            Token::Equals => TokenView::Equals,
            Token::Skip => TokenView::Skip,
            Token::End => TokenView::End,
            Token::Open => TokenView::Open,
            Token::Close => TokenView::Close,
        }
    }
}

/// Whether a text starts with two characters.
pub open spec fn pair(s: Seq<char>, a: char, b: char) -> bool {
    s.len() >= 2 && s[0] == a && s[1] == b
}

/// How many characters there are before the line break, or the end of the text.
pub open spec fn line_len(s: Seq<char>) -> int
    decreases s.len(),
{
    if s.len() == 0 || s[0] == '\n' {
        0
    } else {
        1 + line_len(s.skip(1))
    }
}

/// How many characters there are before the end of `depth` comments that lie in one another and
/// have begun, these ends included.
pub open spec fn comment_len(s: Seq<char>, depth: nat) -> int
    decreases s.len(),
{
    if s.len() == 0 || depth == 0 {
        0
    } else if pair(s, '*', '/') {
        2 + comment_len(s.skip(2), (depth - 1) as nat)
    } else if pair(s, '/', '*') {
        2 + comment_len(s.skip(2), depth + 1)
    } else {
        1 + comment_len(s.skip(1), depth)
    }
}

/// How many characters there are before the quote that ends a word, or the end of the text. After a
/// backslash a quote is part of the word.
pub open spec fn quoted_len(s: Seq<char>) -> int
    decreases s.len(),
{
    if s.len() == 0 || s[0] == '"' {
        0
    } else if s[0] == '\\' && s.len() >= 2 {
        2 + quoted_len(s.skip(2))
    } else {
        1 + quoted_len(s.skip(1))
    }
}

/// The value of a hexadecimal digit.
pub open spec fn hex_digit(c: char) -> Option<int> {
    if '0' <= c && c <= '9' {
        Some(c as u32 - '0' as u32)
    } else if 'a' <= c && c <= 'f' {
        Some(c as u32 - 'a' as u32 + 10)
    } else if 'A' <= c && c <= 'F' {
        Some(c as u32 - 'A' as u32 + 10)
    } else {
        None
    }
}

/// How many hexadecimal digits a text starts with.
pub open spec fn hex_len(s: Seq<char>) -> int
    decreases s.len(),
{
    if s.len() == 0 || hex_digit(s[0]) is None {
        0
    } else {
        1 + hex_len(s.skip(1))
    }
}

/// The number that hexadecimal digits stand for.
pub open spec fn hex_value(s: Seq<char>) -> int
    decreases s.len(),
{
    if s.len() == 0 {
        0
    } else {
        16 * hex_value(s.drop_last()) + hex_digit(s.last())->0
    }
}

/// Whether a number is that of a character.
pub open spec fn is_char(n: int) -> bool {
    0 <= n <= 0xd7ff || 0xe000 <= n <= 0x10ffff
}

/// The character that an escape at the start of a text stands for, and how many characters the
/// escape takes; `None` if what stands there is none.
pub open spec fn escape_at(s: Seq<char>) -> Option<(char, int)> {
    if s.len() < 2 || s[0] != '\\' {
        None
    } else if s[1] == 'n' {
        Some(('\n', 2))
    } else if s[1] == 'r' {
        Some(('\r', 2))
    } else if s[1] == 't' {
        Some(('\t', 2))
    } else if s[1] == 'b' {
        Some(('\u{8}', 2))
    } else if s[1] == 'f' {
        Some(('\u{c}', 2))
    } else if s[1] == '/' || s[1] == '\\' || s[1] == '"' {
        Some((s[1], 2))
    } else if s[1] == 'u' {
        let k = hex_len(s.skip(3));
        let value = hex_value(s.subrange(3, 3 + k));
        if s.len() > 3 && s[2] == '{' && 1 <= k <= 6 && 3 + k < s.len() && s[3 + k] == '}' && is_char(
            value,
        ) {
            Some((value as char, k + 4))
        } else {
            None
        }
    } else {
        None
    }
}

/// What stands in quotes: an escape stands for its character, and a backslash that begins none for
/// itself.
pub open spec fn unescaped(s: Seq<char>) -> Seq<char>
    decreases s.len(),
{
    if s.len() == 0 {
        Seq::empty()
    } else {
        match escape_at(s) {
            Some((c, n)) => if 0 < n <= s.len() {
                seq![c] + unescaped(s.skip(n))
            } else {
                Seq::empty()
            },
            None => seq![s[0]] + unescaped(s.skip(1)),
        }
    }
}

/// How many `#` a text starts with.
pub open spec fn hashes(s: Seq<char>) -> int
    decreases s.len(),
{
    if s.len() == 0 || s[0] != '#' {
        0
    } else {
        1 + hashes(s.skip(1))
    }
}

/// Whether a text starts with a word in raw quotes, such as `r#".."#`.
pub open spec fn is_raw(s: Seq<char>) -> bool {
    let k = hashes(s.skip(1));
    s.len() >= 1 && s[0] == 'r' && k + 1 < s.len() && s[k + 1] == '"'
}

/// What ends a word in raw quotes with `k` `#`.
pub open spec fn raw_end(k: int) -> Seq<char> {
    seq!['"'] + Seq::new(k as nat, |i: int| '#')
}

/// White space, as KDL has it: a byte order mark is white space too.
pub open spec fn is_blank_char(c: char) -> bool {
    is_white_space(c) || c == '\u{feff}'
}

/// Whether a word without quotes ends where `s` begins.
pub open spec fn ends_word(s: Seq<char>) -> bool {
    let c = s[0];
    ||| s.len() == 0
    ||| is_blank_char(c)
    ||| c == ';'
    ||| c == '{'
    ||| c == '}'
    ||| c == '"'
    ||| c == '='
    ||| c == '\\'
    ||| pair(s, '/', '/')
    ||| pair(s, '/', '*')
}

/// How many characters a word without quotes has.
pub open spec fn word_len(s: Seq<char>) -> int
    decreases s.len(),
{
    if s.len() == 0 || ends_word(s) {
        0
    } else {
        1 + word_len(s.skip(1))
    }
}

/// A length, but no more than there is.
pub open spec fn at_most(n: int, len: int) -> int {
    if n < len {
        n
    } else {
        len
    }
}

/// What a text that is not empty starts with, and how many characters that takes. A backslash at
/// the end of a line takes the line break with it.
pub open spec fn token_at(s: Seq<char>) -> (TokenView, int) {
    let len = s.len() as int;
    let c = s[0];
    if c == '\n' || c == ';' {
        (TokenView::End, 1)
    } else if c == '{' {
        (TokenView::Open, 1)
    } else if c == '}' {
        (TokenView::Close, 1)
    } else if is_blank_char(c) {
        (TokenView::Space, 1)
    } else if c == '=' {
        (TokenView::Equals, 1)
    } else if c == '\\' {
        (TokenView::Comment, at_most(line_len(s) + 1, len))
    } else if pair(s, '/', '/') {
        (TokenView::Comment, line_len(s))
    } else if pair(s, '/', '*') {
        (TokenView::Comment, 2 + comment_len(s.skip(2), 1))
    } else if pair(s, '/', '-') {
        (TokenView::Skip, 2)
    } else if c == '"' {
        let k = quoted_len(s.skip(1));
        (
            TokenView::Word(WordView { text: unescaped(s.subrange(1, k + 1)), quoted: true }),
            at_most(k + 2, len),
        )
    } else if is_raw(s) {
        let k = hashes(s.skip(1));
        let p = position_of(s.skip(k + 2), raw_end(k));
        (
            TokenView::Word(WordView { text: s.subrange(k + 2, k + 2 + p), quoted: true }),
            at_most(2 * k + 3 + p, len),
        )
    } else {
        let k = word_len(s);
        (TokenView::Word(WordView { text: s.take(k), quoted: false }), k)
    }
}

/// Lengths are not negative.
proof fn lemma_lens(s: Seq<char>)
    ensures
        0 <= line_len(s),
        0 <= word_len(s),
    decreases s.len(),
{
    if s.len() > 0 {
        lemma_lens(s.skip(1));
    }
}

fn pair_at(s: &Vec<char>, i: usize, a: char, b: char) -> (r: bool)
    requires
        i <= s@.len(),
    ensures
        r == pair(s@.skip(i as int), a, b),
{
    s.len() - i >= 2 && s[i] == a && s[i + 1] == b
}

fn is_blank(c: char) -> (r: bool)
    ensures
        r == is_blank_char(c),
{
    is_space(c) || c == '\u{feff}'
}

fn line_end(s: &Vec<char>, lo: usize) -> (r: usize)
    requires
        lo <= s@.len(),
    ensures
        lo <= r <= s@.len(),
        r - lo == line_len(s@.skip(lo as int)),
{
    let mut i: usize = lo;
    while i < s.len() && s[i] != '\n'
        invariant
            lo <= i <= s@.len(),
            line_len(s@.skip(lo as int)) == i - lo + line_len(s@.skip(i as int)),
        decreases s@.len() - i,
    {
        assert(s@.skip(i as int).skip(1) =~= s@.skip(i + 1));
        i = i + 1;
    }
    i
}

fn comment_end(s: &Vec<char>, lo: usize) -> (r: usize)
    requires
        lo <= s@.len(),
    ensures
        lo <= r <= s@.len(),
        r - lo == comment_len(s@.skip(lo as int), 1),
{
    let mut i: usize = lo;
    let mut depth: usize = 1;
    let len: usize = s.len();
    while i < len && depth > 0
        invariant
            lo <= i <= s@.len(),
            len == s@.len(),
            depth <= i - lo + 1,
            comment_len(s@.skip(lo as int), 1) == i - lo + comment_len(
                s@.skip(i as int),
                depth as nat,
            ),
        decreases len - i,
    {
        let ghost rest = s@.skip(i as int);
        if pair_at(s, i, '*', '/') {
            assert(rest.skip(2) =~= s@.skip(i + 2));
            i = i + 2;
            depth = depth - 1;
        } else if pair_at(s, i, '/', '*') {
            assert(rest.skip(2) =~= s@.skip(i + 2));
            i = i + 2;
            depth = depth + 1;
        } else {
            assert(rest.skip(1) =~= s@.skip(i + 1));
            i = i + 1;
        }
    }
    i
}

fn quoted_end(s: &Vec<char>, lo: usize) -> (r: usize)
    requires
        lo <= s@.len(),
    ensures
        lo <= r <= s@.len(),
        r - lo == quoted_len(s@.skip(lo as int)),
{
    let mut i: usize = lo;
    while i < s.len() && s[i] != '"'
        invariant
            lo <= i <= s@.len(),
            quoted_len(s@.skip(lo as int)) == i - lo + quoted_len(s@.skip(i as int)),
        decreases s@.len() - i,
    {
        let ghost rest = s@.skip(i as int);
        if s[i] == '\\' && s.len() - i >= 2 {
            assert(rest.skip(2) =~= s@.skip(i + 2));
            i = i + 2;
        } else {
            assert(rest.skip(1) =~= s@.skip(i + 1));
            i = i + 1;
        }
    }
    i
}

/// `char::from_u32`: the character with a number, and `None` if there is none.
pub assume_specification[ char::from_u32 ](i: u32) -> (r: Option<char>)
    ensures
        match r {
            Some(c) => is_char(i as int) && c == i as char,
            None => !is_char(i as int),
        },
;

/// Calls `String::from` on a character: the text that holds this character alone.
#[verifier::external_body]
fn char_text(c: char) -> (r: String)
    ensures
        r@ == seq![c],
{
    String::from(c)
}

fn hex_digit_of(c: char) -> (r: Option<u32>)
    ensures
        match r {
            Some(d) => hex_digit(c) == Some(d as int) && d < 16,
            None => hex_digit(c) is None,
        },
{
    if '0' <= c && c <= '9' {
        Some(c as u32 - '0' as u32)
    } else if 'a' <= c && c <= 'f' {
        Some(c as u32 - 'a' as u32 + 10)
    } else if 'A' <= c && c <= 'F' {
        Some(c as u32 - 'A' as u32 + 10)
    } else {
        None
    }
}

fn hex_end(s: &Vec<char>, lo: usize, hi: usize) -> (r: usize)
    requires
        lo <= hi <= s@.len(),
    ensures
        lo <= r <= hi,
        r - lo == hex_len(s@.subrange(lo as int, hi as int)),
        forall|i: int| lo <= i < r ==> hex_digit(#[trigger] s@[i]) is Some,
{
    let ghost part = s@.subrange(lo as int, hi as int);
    let mut i: usize = lo;
    assert(part.skip(0) =~= part);
    while i < hi && hex_digit_of(s[i]).is_some()
        invariant
            lo <= i <= hi <= s@.len(),
            part == s@.subrange(lo as int, hi as int),
            hex_len(part) == i - lo + hex_len(part.skip(i - lo)),
            forall|j: int| lo <= j < i ==> hex_digit(#[trigger] s@[j]) is Some,
        decreases hi - i,
    {
        assert(part.skip(i - lo).skip(1) =~= part.skip(i - lo + 1));
        i = i + 1;
    }
    i
}

/// The most that `k` hexadecimal digits stand for, and one.
spec fn hex_bound(k: int) -> int
    decreases k,
{
    if k <= 0 {
        1
    } else {
        16 * hex_bound(k - 1)
    }
}

/// The number that up to six hexadecimal digits stand for.
fn hex_number(s: &Vec<char>, lo: usize, hi: usize) -> (r: u32)
    requires
        lo <= hi <= s@.len(),
        hi - lo <= 6,
        forall|i: int| lo <= i < hi ==> hex_digit(#[trigger] s@[i]) is Some,
    ensures
        r == hex_value(s@.subrange(lo as int, hi as int)),
{
    let mut value: u32 = 0;
    let mut i: usize = lo;
    assert(s@.subrange(lo as int, lo as int) =~= Seq::empty());
    while i < hi
        invariant
            lo <= i <= hi <= s@.len(),
            hi - lo <= 6,
            forall|j: int| lo <= j < hi ==> hex_digit(#[trigger] s@[j]) is Some,
            value == hex_value(s@.subrange(lo as int, i as int)),
            value < hex_bound(i - lo),
        decreases hi - i,
    {
        let ghost seen = s@.subrange(lo as int, i + 1);
        assert(seen.drop_last() =~= s@.subrange(lo as int, i as int));
        assert(hex_digit(s@[i as int]) is Some);
        assert(hex_bound(i - lo) <= 0x10_0000) by {
            reveal_with_fuel(hex_bound, 7);
            let k = i - lo;
            assert(k == 0 || k == 1 || k == 2 || k == 3 || k == 4 || k == 5);
        }
        if let Some(d) = hex_digit_of(s[i]) {
            value = 16 * value + d;
        }
        i = i + 1;
    }
    value
}

fn escape_in(s: &Vec<char>, at: usize, hi: usize) -> (r: Option<(char, usize)>)
    requires
        at < hi <= s@.len(),
    ensures
        match r {
            Some((c, n)) => escape_at(s@.subrange(at as int, hi as int)) == Some((c, n as int)) && 0
                < n <= hi - at,
            None => escape_at(s@.subrange(at as int, hi as int)) is None,
        },
{
    let ghost part = s@.subrange(at as int, hi as int);
    if hi - at < 2 || s[at] != '\\' {
        return None;
    }
    match s[at + 1] {
        'n' => Some(('\n', 2)),
        'r' => Some(('\r', 2)),
        't' => Some(('\t', 2)),
        'b' => Some(('\u{8}', 2)),
        'f' => Some(('\u{c}', 2)),
        '/' => Some(('/', 2)),
        '\\' => Some(('\\', 2)),
        '"' => Some(('"', 2)),
        'u' => {
            if hi - at <= 3 || s[at + 2] != '{' {
                return None;
            }
            let end = hex_end(s, at + 3, hi);
            assert(part.skip(3) =~= s@.subrange(at + 3, hi as int));
            let k: usize = end - (at + 3);
            if k < 1 || k > 6 || end >= hi || s[end] != '}' {
                return None;
            }
            assert(part.subrange(3, 3 + k) =~= s@.subrange(at + 3, end as int));
            match char::from_u32(hex_number(s, at + 3, end)) {
                Some(c) => Some((c, k + 4)),
                None => None,
            }
        },
        _ => None,
    }
}

fn unescape(s: &Vec<char>, lo: usize, hi: usize) -> (r: String)
    requires
        lo <= hi <= s@.len(),
    ensures
        r@ == unescaped(s@.subrange(lo as int, hi as int)),
{
    let ghost whole = unescaped(s@.subrange(lo as int, hi as int));
    let mut r = String::new();
    let mut i: usize = lo;
    assert(whole =~= r@ + unescaped(s@.subrange(i as int, hi as int)));
    while i < hi
        invariant
            lo <= i <= hi <= s@.len(),
            whole == r@ + unescaped(s@.subrange(i as int, hi as int)),
        decreases hi - i,
    {
        let ghost rest = s@.subrange(i as int, hi as int);
        let ghost before = r@;
        let (c, n) = match escape_in(s, i, hi) {
            Some(escape) => escape,
            None => (s[i], 1),
        };
        r.append(char_text(c).as_str());
        assert(rest.skip(n as int) =~= s@.subrange(i + n, hi as int));
        assert(whole =~= r@ + unescaped(s@.subrange(i + n, hi as int)));
        i = i + n;
    }
    assert(r@ + Seq::<char>::empty() =~= r@);
    r
}

fn count_hashes(s: &Vec<char>, lo: usize) -> (r: usize)
    requires
        lo <= s@.len(),
    ensures
        lo + r <= s@.len(),
        r == hashes(s@.skip(lo as int)),
{
    let mut i: usize = lo;
    while i < s.len() && s[i] == '#'
        invariant
            lo <= i <= s@.len(),
            hashes(s@.skip(lo as int)) == i - lo + hashes(s@.skip(i as int)),
        decreases s@.len() - i,
    {
        assert(s@.skip(i as int).skip(1) =~= s@.skip(i + 1));
        i = i + 1;
    }
    i - lo
}

fn raw_quote(k: usize) -> (r: Vec<char>)
    ensures
        r@ == raw_end(k as int),
{
    let mut r: Vec<char> = Vec::new();
    r.push('"');
    let mut i: usize = 0;
    assert(r@ =~= raw_end(0));
    while i < k
        invariant
            i <= k,
            r@ == raw_end(i as int),
        decreases k - i,
    {
        r.push('#');
        i = i + 1;
        assert(r@ =~= raw_end(i as int));
    }
    r
}

fn word_ends(s: &Vec<char>, i: usize) -> (r: bool)
    requires
        i < s@.len(),
    ensures
        r == ends_word(s@.skip(i as int)),
{
    let c = s[i];
    is_blank(c) || c == ';' || c == '{' || c == '}' || c == '"' || c == '=' || c == '\\' || pair_at(
        s,
        i,
        '/',
        '/',
    ) || pair_at(s, i, '/', '*')
}

fn word_end(s: &Vec<char>, lo: usize) -> (r: usize)
    requires
        lo <= s@.len(),
    ensures
        lo <= r <= s@.len(),
        r - lo == word_len(s@.skip(lo as int)),
{
    let mut i: usize = lo;
    while i < s.len() && !word_ends(s, i)
        invariant
            lo <= i <= s@.len(),
            word_len(s@.skip(lo as int)) == i - lo + word_len(s@.skip(i as int)),
        decreases s@.len() - i,
    {
        assert(s@.skip(i as int).skip(1) =~= s@.skip(i + 1));
        i = i + 1;
    }
    i
}

/// Whether a word in raw quotes starts at `at`, after an `r`: how many `#` there are.
fn raw_at(s: &Vec<char>, at: usize) -> (r: Option<usize>)
    requires
        at < s@.len(),
    ensures
        match r {
            Some(k) => is_raw(s@.skip(at as int)) && k == hashes(s@.skip(at as int).skip(1)),
            None => !is_raw(s@.skip(at as int)),
        },
        r matches Some(k) ==> at + k + 1 < s@.len(),
{
    let len: usize = s.len();
    if s[at] != 'r' {
        return None;
    }
    let k = count_hashes(s, at + 1);
    assert(s@.skip(at as int).skip(1) =~= s@.skip(at + 1));
    if len - at > k + 1 && s[at + k + 1] == '"' {
        Some(k)
    } else {
        None
    }
}

/// What stands at `at`, and where it ends; `s` holds the characters of `text`.
pub fn next_token(text: &str, s: &Vec<char>, at: usize) -> (r: (Token, usize))
    requires
        s@ == text@,
        at < s@.len(),
    ensures
        at < r.1 <= s@.len(),
        (r.0@, r.1 - at) == token_at(text@.skip(at as int)),
{
    let ghost rest = text@.skip(at as int);
    let len: usize = s.len();
    let c = s[at];
    proof {
        lemma_lens(rest.skip(1));
    }
    if c == '\n' || c == ';' {
        (Token::End, at + 1)
    } else if c == '{' {
        (Token::Open, at + 1)
    } else if c == '}' {
        (Token::Close, at + 1)
    } else if is_blank(c) {
        (Token::Space, at + 1)
    } else if c == '=' {
        (Token::Equals, at + 1)
    } else if c == '\\' {
        let end = line_end(s, at);
        (
            Token::Comment,
            if end < len {
                end + 1
            } else {
                len
            },
        )
    } else if pair_at(s, at, '/', '/') {
        (Token::Comment, line_end(s, at))
    } else if pair_at(s, at, '/', '*') {
        assert(rest.skip(2) =~= s@.skip(at + 2));
        (Token::Comment, comment_end(s, at + 2))
    } else if pair_at(s, at, '/', '-') {
        (Token::Skip, at + 2)
    } else if c == '"' {
        assert(rest.skip(1) =~= s@.skip(at + 1));
        let end = quoted_end(s, at + 1);
        let word = Word { text: unescape(s, at + 1, end), quoted: true };
        assert(rest.subrange(1, end - at) =~= text@.subrange(at + 1, end as int));
        (
            Token::Word(word),
            if end < len {
                end + 1
            } else {
                len
            },
        )
    } else if let Some(k) = raw_at(s, at) {
        let start: usize = at + k + 2;
        let closing = raw_quote(k);
        let end = find_word(s, start, len, &closing);
        let word = Word { text: part_of(text, start, end), quoted: true };
        assert(rest.skip(k + 2) =~= s@.subrange(start as int, len as int));
        assert(rest.subrange(k + 2, end - at) =~= text@.subrange(start as int, end as int));
        (
            Token::Word(word),
            if len - end > k {
                end + k + 1
            } else {
                len
            },
        )
    } else {
        let end = word_end(s, at);
        let word = Word { text: part_of(text, at, end), quoted: false };
        assert(rest.take(end - at) =~= text@.subrange(at as int, end as int));
        (Token::Word(word), end)
    }
}

/// Whether a character is part of a word wherever it stands.
pub open spec fn is_plain(c: char) -> bool {
    &&& !is_white_space(c)
    &&& c != '\u{feff}'
    &&& c != ';'
    &&& c != '{'
    &&& c != '}'
    &&& c != '"'
    &&& c != '='
    &&& c != '\\'
    &&& c != '/'
}

proof fn lemma_word_len(word: Seq<char>, rest: Seq<char>)
    requires
        forall|i: int| 0 <= i < word.len() ==> is_plain(#[trigger] word[i]),
        rest.len() == 0 || ends_word(rest),
    ensures
        word_len(word + rest) == word.len(),
    decreases word.len(),
{
    let s = word + rest;
    if word.len() > 0 {
        let after = word.drop_first();
        assert forall|i: int| 0 <= i < after.len() implies is_plain(#[trigger] after[i]) by {
            assert(after[i] == word[i + 1]);
        }
        lemma_word_len(after, rest);
        assert(s.skip(1) =~= after + rest);
        assert(s[0] == word[0]);
        assert(is_plain(word[0]));
    } else {
        assert(s =~= rest);
    }
}

/// A word without quotes is read as it stands, up to white space, the end of the statement, a block,
/// a quote, a property or a comment. It begins with no `r`, which may be that of raw quotes.
pub proof fn law_plain_word_is_read(word: Seq<char>, rest: Seq<char>)
    requires
        word.len() > 0,
        word[0] != 'r',
        forall|i: int| 0 <= i < word.len() ==> is_plain(#[trigger] word[i]),
        rest.len() > 0 ==> {
            let c = rest[0];
            ||| is_white_space(c) || c == '\u{feff}'
            ||| c == ';' || c == '{' || c == '}' || c == '"' || c == '='
            ||| rest.len() > 1 && c == '/' && (rest[1] == '/' || rest[1] == '*')
        },
    ensures
        token_at(word + rest) == (
            TokenView::Word(WordView { text: word, quoted: false }),
            word.len() as int,
        ),
{
    let s = word + rest;
    assert(rest.len() == 0 || ends_word(rest));
    lemma_word_len(word, rest);
    assert(s[0] == word[0]);
    assert(is_plain(word[0]));
    assert(is_white_space('\n'));
    assert(s.take(word.len() as int) =~= word);
}

proof fn lemma_quoted_len(text: Seq<char>, rest: Seq<char>)
    requires
        forall|i: int| 0 <= i < text.len() ==> text[i] != '"' && text[i] != '\\',
    ensures
        quoted_len(text + (seq!['"'] + rest)) == text.len(),
        unescaped(text) == text,
    decreases text.len(),
{
    let s = text + (seq!['"'] + rest);
    if text.len() > 0 {
        let after = text.drop_first();
        assert forall|i: int| 0 <= i < after.len() implies after[i] != '"' && after[i] != '\\' by {
            assert(after[i] == text[i + 1]);
        }
        lemma_quoted_len(after, rest);
        assert(s.skip(1) =~= after + (seq!['"'] + rest));
        assert(s[0] == text[0]);
        assert(text.skip(1) =~= after);
        assert(seq![text[0]] + after =~= text);
    } else {
        assert(s[0] == '"');
        assert(unescaped(text) =~= text);
    }
}

/// A word in quotes is what stands between them.
pub proof fn law_quoted_word_is_read(text: Seq<char>, rest: Seq<char>)
    requires
        forall|i: int| 0 <= i < text.len() ==> text[i] != '"' && text[i] != '\\',
    ensures
        token_at(seq!['"'] + (text + (seq!['"'] + rest))) == (
            TokenView::Word(WordView { text, quoted: true }),
            text.len() as int + 2,
        ),
{
    let s = seq!['"'] + (text + (seq!['"'] + rest));
    lemma_quoted_len(text, rest);
    assert(s[0] == '"');
    assert(s.skip(1) =~= text + (seq!['"'] + rest));
    assert(s.subrange(1, text.len() as int + 1) =~= text);
}

/// The single characters that end statements, open and close blocks, part words and name
/// properties.
pub proof fn law_signs_are_read(rest: Seq<char>, c: char)
    ensures
        token_at(seq!['\n'] + rest) == (TokenView::End, 1int),
        token_at(seq![';'] + rest) == (TokenView::End, 1int),
        token_at(seq!['{'] + rest) == (TokenView::Open, 1int),
        token_at(seq!['}'] + rest) == (TokenView::Close, 1int),
        token_at(seq!['='] + rest) == (TokenView::Equals, 1int),
        token_at(seq!['/', '-'] + rest) == (TokenView::Skip, 2int),
        (is_white_space(c) || c == '\u{feff}') && c != '\n' ==> token_at(seq![c] + rest) == (
            TokenView::Space,
            1int,
        ),
{
    assert((seq!['\n'] + rest)[0] == '\n');
    assert((seq![';'] + rest)[0] == ';');
    assert((seq!['{'] + rest)[0] == '{');
    assert((seq!['}'] + rest)[0] == '}');
    assert((seq!['='] + rest)[0] == '=');
    assert((seq!['/', '-'] + rest)[0] == '/' && (seq!['/', '-'] + rest)[1] == '-');
    assert((seq![c] + rest)[0] == c);
}

proof fn lemma_line_len(line: Seq<char>, rest: Seq<char>)
    requires
        forall|i: int| 0 <= i < line.len() ==> line[i] != '\n',
        rest.len() == 0 || rest[0] == '\n',
    ensures
        line_len(line + rest) == line.len(),
    decreases line.len(),
{
    let s = line + rest;
    if line.len() > 0 {
        let after = line.drop_first();
        assert forall|i: int| 0 <= i < after.len() implies after[i] != '\n' by {
            assert(after[i] == line[i + 1]);
        }
        lemma_line_len(after, rest);
        assert(s.skip(1) =~= after + rest);
    } else {
        assert(s =~= rest);
    }
}

/// A comment on a line takes all of the line that follows it, and not the line break; a backslash
/// takes the line break too.
pub proof fn law_line_comments_end_with_the_line(line: Seq<char>, rest: Seq<char>)
    requires
        forall|i: int| 0 <= i < line.len() ==> line[i] != '\n',
    ensures
        token_at(seq!['/', '/'] + (line + (seq!['\n'] + rest))) == (
            TokenView::Comment,
            line.len() as int + 2,
        ),
        token_at(seq!['\\'] + (line + (seq!['\n'] + rest))) == (
            TokenView::Comment,
            line.len() as int + 2,
        ),
{
    let after = seq!['\n'] + rest;
    let comment = seq!['/', '/'] + line;
    assert forall|i: int| 0 <= i < comment.len() implies comment[i] != '\n' by {
        if i >= 2 {
            assert(comment[i] == line[i - 2]);
        }
    }
    lemma_line_len(comment, after);
    let s = seq!['/', '/'] + (line + after);
    assert(s =~= comment + after);
    assert(s[0] == '/' && s[1] == '/');
    let joined = seq!['\\'] + line;
    assert forall|i: int| 0 <= i < joined.len() implies joined[i] != '\n' by {
        if i >= 1 {
            assert(joined[i] == line[i - 1]);
        }
    }
    lemma_line_len(joined, after);
    let t = seq!['\\'] + (line + after);
    assert(t =~= joined + after);
    assert(t[0] == '\\');
}

proof fn lemma_comment_len(text: Seq<char>, rest: Seq<char>)
    requires
        forall|i: int| 0 <= i < text.len() ==> text[i] != '*' && text[i] != '/',
    ensures
        comment_len(text + (seq!['*', '/'] + rest), 1) == text.len() + 2,
    decreases text.len(),
{
    let s = text + (seq!['*', '/'] + rest);
    if text.len() > 0 {
        let after = text.drop_first();
        assert forall|i: int| 0 <= i < after.len() implies after[i] != '*' && after[i] != '/' by {
            assert(after[i] == text[i + 1]);
        }
        lemma_comment_len(after, rest);
        assert(s[0] == text[0]);
        assert(s.skip(1) =~= after + (seq!['*', '/'] + rest));
    } else {
        assert(s[0] == '*' && s[1] == '/');
        assert(comment_len(s.skip(2), 0) == 0);
    }
}

/// A comment between `/*` and `*/` takes both of them and what stands between.
pub proof fn law_comments_end_where_they_are_closed(text: Seq<char>, rest: Seq<char>)
    requires
        forall|i: int| 0 <= i < text.len() ==> text[i] != '*' && text[i] != '/',
    ensures
        token_at(seq!['/', '*'] + (text + (seq!['*', '/'] + rest))) == (
            TokenView::Comment,
            text.len() as int + 4,
        ),
{
    let s = seq!['/', '*'] + (text + (seq!['*', '/'] + rest));
    lemma_comment_len(text, rest);
    assert(s[0] == '/' && s[1] == '*');
    assert(s.skip(2) =~= text + (seq!['*', '/'] + rest));
}

/// Each escape stands for its character, whatever follows; a backslash before another character
/// stays, and so does that character.
#[verifier::rlimit(40)]
#[verifier::spinoff_prover]
pub proof fn law_escapes_stand_for_their_characters(c: char, rest: Seq<char>)
    ensures
        unescaped(seq!['\\', 'n'] + rest) == seq!['\n'] + unescaped(rest),
        unescaped(seq!['\\', 'r'] + rest) == seq!['\r'] + unescaped(rest),
        unescaped(seq!['\\', 't'] + rest) == seq!['\t'] + unescaped(rest),
        unescaped(seq!['\\', 'b'] + rest) == seq!['\u{8}'] + unescaped(rest),
        unescaped(seq!['\\', 'f'] + rest) == seq!['\u{c}'] + unescaped(rest),
        unescaped(seq!['\\', '/'] + rest) == seq!['/'] + unescaped(rest),
        unescaped(seq!['\\', '\\'] + rest) == seq!['\\'] + unescaped(rest),
        unescaped(seq!['\\', '"'] + rest) == seq!['"'] + unescaped(rest),
        c != '\\' ==> unescaped(seq![c] + rest) == seq![c] + unescaped(rest),
        c != 'n' && c != 'r' && c != 't' && c != 'b' && c != 'f' && c != '/' && c != '\\' && c
            != '"' && c != 'u' ==> unescaped(seq!['\\', c] + rest) == seq!['\\', c] + unescaped(
            rest,
        ),
{
    lemma_escape('n', '\n', rest);
    lemma_escape('r', '\r', rest);
    lemma_escape('t', '\t', rest);
    lemma_escape('b', '\u{8}', rest);
    lemma_escape('f', '\u{c}', rest);
    lemma_escape('/', '/', rest);
    lemma_escape('\\', '\\', rest);
    lemma_escape('"', '"', rest);
    if c != '\\' {
        let s = seq![c] + rest;
        assert(s[0] == c);
        assert(s.skip(1) =~= rest);
        let t = seq!['\\', c] + rest;
        assert(t[0] == '\\' && t[1] == c);
        assert(t.skip(1) =~= s);
        assert(unescaped(s) == seq![c] + unescaped(rest));
        if escape_at(t) is None {
            assert(unescaped(t) == seq![t[0]] + unescaped(t.skip(1)));
            assert(seq!['\\'] + (seq![c] + unescaped(rest)) =~= seq!['\\', c] + unescaped(rest));
        }
    }
}

proof fn lemma_escape(c: char, stands_for: char, rest: Seq<char>)
    requires
        escape_at(seq!['\\', c] + rest) == Some((stands_for, 2int)),
    ensures
        unescaped(seq!['\\', c] + rest) == seq![stands_for] + unescaped(rest),
{
    let s = seq!['\\', c] + rest;
    assert(s.skip(2) =~= rest);
}

proof fn lemma_hex_len(digits: Seq<char>, rest: Seq<char>)
    requires
        forall|i: int| 0 <= i < digits.len() ==> hex_digit(#[trigger] digits[i]) is Some,
        rest.len() > 0,
        hex_digit(rest[0]) is None,
    ensures
        hex_len(digits + rest) == digits.len(),
    decreases digits.len(),
{
    let s = digits + rest;
    if digits.len() > 0 {
        let after = digits.drop_first();
        assert forall|i: int| 0 <= i < after.len() implies hex_digit(#[trigger] after[i])
            is Some by {
            assert(after[i] == digits[i + 1]);
        }
        lemma_hex_len(after, rest);
        assert(s[0] == digits[0]);
        assert(s.skip(1) =~= after + rest);
    } else {
        assert(s =~= rest);
    }
}

/// Up to six hexadecimal digits in braces, after a backslash and a `u`, stand for the character with
/// their number.
#[verifier::rlimit(40)]
#[verifier::spinoff_prover]
pub proof fn law_numbered_escapes(digits: Seq<char>, c: char, rest: Seq<char>)
    requires
        1 <= digits.len() <= 6,
        forall|i: int|
            0 <= i < digits.len() ==> {
                let d = #[trigger] digits[i];
                '0' <= d <= '9' || 'a' <= d <= 'f' || 'A' <= d <= 'F'
            },
        hex_value(digits) == c as int,
        is_char(c as int),
    ensures
        unescaped(seq!['\\', 'u', '{'] + (digits + (seq!['}'] + rest))) == seq![c] + unescaped(
            rest,
        ),
{
    let tail = seq!['}'] + rest;
    let s = seq!['\\', 'u', '{'] + (digits + tail);
    assert(tail[0] == '}');
    lemma_hex_len(digits, tail);
    assert(s[0] == '\\' && s[1] == 'u' && s[2] == '{');
    assert(s.skip(3) =~= digits + tail);
    assert(s.subrange(3, 3 + digits.len() as int) =~= digits);
    assert(s[3 + digits.len() as int] == '}');
    assert(s.skip(digits.len() as int + 4) =~= rest);
}

/// The number of hexadecimal digits grows by sixteen with each digit.
pub proof fn law_hexadecimal_digits(digits: Seq<char>, d: char)
    ensures
        hex_value(Seq::empty()) == 0,
        '0' <= d <= '9' ==> hex_value(digits.push(d)) == 16 * hex_value(digits) + (d as int
            - '0' as int),
        'a' <= d <= 'f' ==> hex_value(digits.push(d)) == 16 * hex_value(digits) + (d as int
            - 'a' as int) + 10,
        'A' <= d <= 'F' ==> hex_value(digits.push(d)) == 16 * hex_value(digits) + (d as int
            - 'A' as int) + 10,
{
    assert(digits.push(d).drop_last() =~= digits);
    assert(digits.push(d).last() == d);
}

proof fn lemma_hashes(k: int, rest: Seq<char>)
    requires
        0 <= k,
        rest.len() > 0,
        rest[0] != '#',
    ensures
        hashes(Seq::new(k as nat, |i: int| '#') + rest) == k,
    decreases k,
{
    let marks = Seq::new(k as nat, |i: int| '#');
    let s = marks + rest;
    if k > 0 {
        let fewer = Seq::new((k - 1) as nat, |i: int| '#');
        lemma_hashes(k - 1, rest);
        assert(s[0] == '#');
        assert(s.skip(1) =~= fewer + rest);
    } else {
        assert(s =~= rest);
    }
}

proof fn lemma_raw_end_place(text: Seq<char>, end: Seq<char>, rest: Seq<char>)
    requires
        end.len() > 0,
        end[0] == '"',
        forall|i: int| 0 <= i < text.len() ==> text[i] != '"',
    ensures
        position_of(text + (end + rest), end) == text.len(),
    decreases text.len(),
{
    let s = text + (end + rest);
    if text.len() > 0 {
        let after = text.drop_first();
        assert forall|i: int| 0 <= i < after.len() implies after[i] != '"' by {
            assert(after[i] == text[i + 1]);
        }
        lemma_raw_end_place(after, end, rest);
        assert(s.drop_first() =~= after + (end + rest));
        assert(s[0] == text[0]);
        if end.is_prefix_of(s) {
            assert(s.subrange(0, end.len() as int)[0] == end[0]);
        }
    } else {
        assert(s.subrange(0, end.len() as int) =~= end);
    }
}

/// A word in raw quotes is what stands between them, backslashes included; after the quotes stand as
/// many `#` as before.
#[verifier::rlimit(40)]
#[verifier::spinoff_prover]
pub proof fn law_raw_word_is_read(text: Seq<char>, k: int, rest: Seq<char>)
    requires
        0 <= k,
        forall|i: int| 0 <= i < text.len() ==> text[i] != '"',
    ensures
        ({
            let marks = Seq::new(k as nat, |i: int| '#');
            token_at(
                seq!['r'] + (marks + (seq!['"'] + (text + ((seq!['"'] + marks) + rest)))),
            )
        }) == (
            TokenView::Word(WordView { text, quoted: true }),
            text.len() + 2 * k + 3,
        ),
{
    let marks = Seq::new(k as nat, |i: int| '#');
    let end = seq!['"'] + marks;
    let body = text + (end + rest);
    let inner = seq!['"'] + body;
    let s = seq!['r'] + (marks + inner);
    lemma_hashes(k, inner);
    lemma_raw_end_place(text, end, rest);
    assert(s[0] == 'r');
    assert(s.skip(1) =~= marks + inner);
    assert(s[k + 1] == '"');
    assert(raw_end(k) =~= end);
    assert(s.skip(k + 2) =~= body);
    assert(s.subrange(k + 2, k + 2 + text.len()) =~= text);
}

} // verus!
