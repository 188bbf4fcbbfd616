//! The arrow cursor of a session on a virtual display.
//!
//! While a takeover is engaged the physical outputs are off, and nothing shows their cursor. The
//! arrow is then served from the Xcursor theme that the compositor is configured with, at the
//! theme's nominal size. The pointer is always the arrow: the compositor does not tell its shape.
use crate::kdl::{
    is_plain, law_plain_word_is_read, law_quoted_word_is_read, law_signs_are_read, next_token,
    token_at, Token, TokenView, Word, WordView,
};
use crate::order::views;
use crate::paths::{join_path, joined};
use crate::text::{
    chars_of, decimal, law_decimal_stands_for_the_number, law_numbers_are_read_back, parse_u32,
    part_of, same_text, trim, trim_range, u32_of, Trim,
};
use vstd::prelude::*;
use vstd::utf8::encode_utf8;

verus! {

/// The id of the cursor: "niricurs" in ASCII.
pub const ID: u64 = 0x6e69_7269_6375_7273;

/// A cursor as a client is told of it. The colors are premultiplied RGBA.
#[derive(Debug)]
pub struct CursorData {
    pub id: u64,
    pub hotx: i32,
    pub hoty: i32,
    pub width: i32,
    pub height: i32,
    pub colors: Vec<u8>,
}

/// The mathematical value of a [`CursorData`].
pub struct CursorDataView {
    pub id: u64,
    pub hotx: i32,
    pub hoty: i32,
    pub width: i32,
    pub height: i32,
    pub colors: Seq<u8>,
}

impl View for CursorData {
    type V = CursorDataView;

    open spec fn view(&self) -> CursorDataView {
        CursorDataView {
            id: self.id,
            hotx: self.hotx,
            hoty: self.hoty,
            width: self.width,
            height: self.height,
            colors: self.colors@,
        }
    }
}

/// The value of a cursor that may be missing.
pub open spec fn cursor_view(cursor: Option<CursorData>) -> Option<CursorDataView> {
    match cursor {
        Some(c) => Some(c@),
        None => None,
    }
}

/// The id that is told: the arrow's, if there is one and a takeover is engaged.
pub open spec fn served_id(takeover_active: bool, cursor: Option<CursorDataView>) -> Option<u64> {
    if takeover_active && cursor is Some {
        Some(ID)
    } else {
        None
    }
}

/// What is told of an id: the arrow, if it is the arrow's.
pub open spec fn served_data(hcursor: u64, cursor: Option<CursorDataView>) -> Option<
    CursorDataView,
> {
    if hcursor == ID {
        cursor
    } else {
        None
    }
}

/// The id of the cursor to be shown; `None` leaves it to others to find one.
pub fn cursor_id(takeover_active: bool, cursor: &Option<CursorData>) -> (r: Option<u64>)
    ensures
        r == served_id(takeover_active, cursor_view(*cursor)),
{
    if !takeover_active {
        return None;
    }
    match cursor {
        Some(_) => Some(ID),
        None => None,
    }
}

/// The cursor with an id.
pub fn cursor_data(hcursor: u64, cursor: &Option<CursorData>) -> (r: Option<CursorData>)
    ensures
        cursor_view(r) == served_data(hcursor, cursor_view(*cursor)),
{
    if hcursor != ID {
        return None;
    }
    match cursor {
        Some(c) => {
            let colors = c.colors.clone();
            assert(colors@ =~= c.colors@);
            Some(
                CursorData {
                    id: c.id,
                    hotx: c.hotx,
                    hoty: c.hoty,
                    width: c.width,
                    height: c.height,
                    colors,
                },
            )
        },
        None => None,
    }
}

/// An id that is told leads to the cursor.
pub proof fn law_told_id_is_served(takeover_active: bool, cursor: Option<CursorDataView>)
    ensures
        served_id(takeover_active, cursor) matches Some(id) ==> served_data(id, cursor) is Some
            && served_data(id, cursor) == cursor,
{
}

/// Where the compositor's configuration is: below the directory that the environment gives for
/// configurations, or else below that of the user's home.
pub fn config_path(xdg_config_home: Option<&str>, home: Option<&str>) -> (r: Option<Vec<u8>>)
    ensures
        match (xdg_config_home, home) {
            (Some(dir), _) => r is Some && r->0@ == joined(
                encode_utf8(dir@),
                encode_utf8("niri/config.kdl"@),
            ),
            (None, Some(dir)) => r is Some && r->0@ == joined(
                joined(encode_utf8(dir@), encode_utf8(".config"@)),
                encode_utf8("niri/config.kdl"@),
            ),
            (None, None) => r is None,
        },
{
    match (xdg_config_home, home) {
        (Some(dir), _) => Some(join_path(&dir.as_bytes_vec(), "niri/config.kdl")),
        (None, Some(dir)) => Some(
            join_path(&join_path(&dir.as_bytes_vec(), ".config"), "niri/config.kdl"),
        ),
        (None, None) => None,
    }
}

/// The theme and the size of the cursor; empty and 0 where they are not known.
pub struct CursorConfig {
    pub theme: Seq<char>,
    pub size: u32,
}

/// How far a configuration has been read: what is known of the cursor; how many blocks are open,
/// and whether the outermost of them is the `cursor` block; the words of the statement, what stands
/// there after the first of them, and whether a property is among them; whether the statement does
/// not count, and whether what comes next does not.
pub struct Reading {
    pub known: CursorConfig,
    pub depth: nat,
    pub in_cursor: bool,
    pub words: Seq<WordView>,
    pub rest: Seq<char>,
    pub property: bool,
    pub dead: bool,
    pub skip: bool,
}

/// The theme that a statement names: its one value, or else all that stands after its name, but for
/// white space and quotes at the ends.
pub open spec fn named_theme(words: Seq<WordView>, rest: Seq<char>) -> Seq<char> {
    if words.len() == 2 {
        words[1].text
    } else {
        trim(trim(rest, Trim::WhiteSpace), Trim::Quotes)
    }
}

/// What a statement of the `cursor` block says: a setting is its name and its value, and a property
/// is no value. A theme has to have a name, and a size is one number, which does not stand in
/// quotes.
pub open spec fn after_statement(
    known: CursorConfig,
    words: Seq<WordView>,
    rest: Seq<char>,
    property: bool,
) -> CursorConfig {
    if words.len() < 2 || property {
        known
    } else if words[0].text == "xcursor-theme"@ {
        let theme = named_theme(words, rest);
        if theme.len() > 0 {
            CursorConfig { theme, ..known }
        } else {
            known
        }
    } else if words[0].text == "xcursor-size"@ && words.len() == 2 && !words[1].quoted {
        match u32_of(words[1].text) {
            Some(v) => CursorConfig { size: v, ..known },
            None => known,
        }
    } else {
        known
    }
}

/// The statement has come to its end. It counts only directly in the `cursor` block.
pub open spec fn ended(r: Reading) -> Reading {
    Reading {
        known: if r.depth == 1 && r.in_cursor && !r.dead {
            after_statement(r.known, r.words, r.rest, r.property)
        } else {
            r.known
        },
        words: Seq::empty(),
        rest: Seq::empty(),
        property: false,
        dead: false,
        skip: false,
        ..r
    }
}

/// Whether a block that is opened now is the `cursor` block.
pub open spec fn opens_cursor(r: Reading) -> bool {
    r.words.len() > 0 && r.words[0].text == "cursor"@ && !r.dead && !r.skip
}

/// What stands after the first word of the statement, with some more.
pub open spec fn more_rest(r: Reading, taken: Seq<char>) -> Seq<char> {
    if r.words.len() > 0 {
        r.rest + taken
    } else {
        r.rest
    }
}

/// What a token of the configuration, with its characters, changes.
pub open spec fn after_token(r: Reading, token: TokenView, taken: Seq<char>) -> Reading {
    match token {
        TokenView::Space => Reading { rest: more_rest(r, taken), ..r },
        TokenView::Comment => r,
        TokenView::Equals => Reading { property: true, ..r },
        TokenView::Skip => Reading { skip: true, ..r },
        TokenView::Word(word) => if r.skip && r.words.len() > 0 {
            Reading { skip: false, ..r }
        } else {
            Reading {
                words: r.words.push(word),
                rest: more_rest(r, taken),
                dead: r.dead || r.skip,
                skip: false,
                ..r
            }
        },
        TokenView::End => ended(r),
        TokenView::Open => Reading {
            in_cursor: if r.depth == 0 {
                opens_cursor(r)
            } else {
                r.in_cursor
            },
            depth: r.depth + 1,
            ..ended(r)
        },
        TokenView::Close => Reading {
            depth: if r.depth == 0 {
                0
            } else {
                (r.depth - 1) as nat
            },
            ..ended(r)
        },
    }
}

/// What a text changes, token by token.
pub open spec fn after_text(r: Reading, text: Seq<char>) -> Reading
    decreases text.len(),
{
    let (token, n) = token_at(text);
    if 0 < n <= text.len() {
        after_text(after_token(r, token, text.take(n)), text.skip(n))
    } else {
        r
    }
}

/// Where reading a configuration begins.
pub open spec fn at_start(known: CursorConfig) -> Reading {
    Reading {
        known,
        depth: 0,
        in_cursor: false,
        words: Seq::empty(),
        rest: Seq::empty(),
        property: false,
        dead: false,
        skip: false,
    }
}

/// What is known of the cursor after a configuration has been read: what the statements of its
/// `cursor` block say, where they say something, and of several the last.
pub open spec fn after_config(known: CursorConfig, text: Seq<char>) -> CursorConfig {
    ended(after_text(at_start(known), text)).known
}

/// What the environment says of the cursor.
pub open spec fn environment_config(
    theme: Option<Seq<char>>,
    size: Option<Seq<char>>,
) -> CursorConfig {
    CursorConfig {
        theme: match theme {
            Some(theme) => theme,
            None => Seq::empty(),
        },
        size: match size {
            Some(text) => match u32_of(text) {
                Some(size) => size,
                None => 0,
            },
            None => 0,
        },
    }
}

/// The compositor's own defaults stand in for what is not known.
pub open spec fn with_defaults(known: CursorConfig) -> CursorConfig {
    CursorConfig {
        theme: if known.theme.len() == 0 {
            "default"@
        } else {
            known.theme
        },
        size: if known.size == 0 {
            24
        } else {
            known.size
        },
    }
}

/// The theme and the size of the cursor, given what the environment says of them and the
/// configuration of the compositor.
pub open spec fn cursor_config(
    env_theme: Option<Seq<char>>,
    env_size: Option<Seq<char>>,
    config: Option<Seq<char>>,
) -> CursorConfig {
    let known = environment_config(env_theme, env_size);
    with_defaults(
        match config {
            Some(text) => after_config(known, text),
            None => known,
        },
    )
}

/// The text of a text that may be missing.
pub open spec fn text_view(s: Option<&str>) -> Option<Seq<char>> {
    match s {
        Some(s) => Some(s@),
        None => None,
    }
}

/// The executable form of a [`Reading`].
struct Reader {
    theme: String,
    size: u32,
    depth: usize,
    in_cursor: bool,
    words: Vec<Word>,
    rest: String,
    property: bool,
    dead: bool,
    skip: bool,
}

impl View for Reader {
    type V = Reading;

    closed spec fn view(&self) -> Reading {
        Reading {
            known: CursorConfig { theme: self.theme@, size: self.size },
            depth: self.depth as nat,
            in_cursor: self.in_cursor,
            words: views(self.words@),
            rest: self.rest@,
            property: self.property,
            dead: self.dead,
            skip: self.skip,
        }
    }
}

/// The theme that a statement of more than two words names.
fn theme_of_rest(rest: &str) -> (r: String)
    ensures
        r@ == trim(trim(rest@, Trim::WhiteSpace), Trim::Quotes),
{
    let chars = chars_of(rest);
    assert(chars@.subrange(0, chars@.len() as int) =~= rest@);
    let (lo, hi) = trim_range(&chars, 0, chars.len(), Trim::WhiteSpace);
    let (lo, hi) = trim_range(&chars, lo, hi, Trim::Quotes);
    part_of(rest, lo, hi)
}

fn end_statement(r: Reader) -> (e: Reader)
    ensures
        e@ == ended(r@),
        e.depth == r.depth,
{
    let mut theme = r.theme;
    let mut size = r.size;
    if r.depth == 1 && r.in_cursor && !r.dead && r.words.len() >= 2 && !r.property {
        let (name, value) = (&r.words[0], &r.words[1]);
        assert(r@.words[0] == name@ && r@.words[1] == value@);
        if same_text(name.text.as_str(), "xcursor-theme") {
            let named = if r.words.len() == 2 {
                value.text.clone()
            } else {
                theme_of_rest(r.rest.as_str())
            };
            if named.as_str().unicode_len() > 0 {
                theme = named;
            }
        } else if same_text(name.text.as_str(), "xcursor-size") && r.words.len() == 2
            && !value.quoted {
            let chars = chars_of(value.text.as_str());
            assert(chars@.subrange(0, chars@.len() as int) =~= value.text@);
            if let Some(v) = parse_u32(&chars, 0, chars.len()) {
                size = v;
            }
        }
    }
    let words: Vec<Word> = Vec::new();
    let rest = String::new();
    assert(views(words@) =~= Seq::empty());
    assert(rest@ =~= Seq::empty());
    Reader {
        theme,
        size,
        depth: r.depth,
        in_cursor: r.in_cursor,
        words,
        rest,
        property: false,
        dead: false,
        skip: false,
    }
}

fn take_token(r: Reader, token: Token, taken: &str) -> (e: Reader)
    requires
        r.depth < usize::MAX,
    ensures
        e@ == after_token(r@, token@, taken@),
        e.depth <= r.depth + 1,
{
    let mut r = r;
    match token {
        Token::Comment => r,
        Token::Space => {
            if r.words.len() > 0 {
                r.rest.append(taken);
            }
            r
        },
        Token::Equals => {
            r.property = true;
            r
        },
        Token::Skip => {
            r.skip = true;
            r
        },
        Token::Word(word) => {
            if r.skip && r.words.len() > 0 {
                r.skip = false;
                return r;
            }
            if r.words.len() > 0 {
                r.rest.append(taken);
            }
            let ghost before = r.words@;
            r.words.push(word);
            assert(views(r.words@) =~= views(before).push(word@));
            r.dead = r.dead || r.skip;
            r.skip = false;
            r
        },
        Token::End => end_statement(r),
        Token::Open => {
            let in_cursor = if r.depth == 0 {
                assert(r.words@.len() > 0 ==> r@.words[0] == r.words@[0]@);
                r.words.len() > 0 && same_text(r.words[0].text.as_str(), "cursor") && !r.dead
                    && !r.skip
            } else {
                r.in_cursor
            };
            let mut e = end_statement(r);
            e.in_cursor = in_cursor;
            e.depth = e.depth + 1;
            e
        },
        Token::Close => {
            let mut e = end_statement(r);
            if e.depth > 0 {
                e.depth = e.depth - 1;
            }
            e
        },
    }
}

/// Reads a configuration.
fn read_config(text: &str, theme: String, size: u32) -> (r: (String, u32))
    ensures
        (CursorConfig { theme: r.0@, size: r.1 }) == after_config(
            CursorConfig { theme: theme@, size },
            text@,
        ),
{
    let ghost whole = after_text(at_start(CursorConfig { theme: theme@, size }), text@);
    let chars = chars_of(text);
    let words: Vec<Word> = Vec::new();
    let rest = String::new();
    assert(views(words@) =~= Seq::empty());
    assert(rest@ =~= Seq::empty());
    let mut reader = Reader {
        theme,
        size,
        depth: 0,
        in_cursor: false,
        words,
        rest,
        property: false,
        dead: false,
        skip: false,
    };
    let mut at: usize = 0;
    assert(text@.skip(0) =~= text@);
    while at < chars.len()
        invariant
            chars@ == text@,
            at <= chars@.len(),
            reader.depth <= at,
            whole == after_text(reader@, text@.skip(at as int)),
        decreases chars@.len() - at,
    {
        let (token, end) = next_token(text, &chars, at);
        let taken = part_of(text, at, end);
        reader = take_token(reader, token, taken.as_str());
        assert(text@.skip(at as int).take(end - at) =~= text@.subrange(at as int, end as int));
        assert(text@.skip(at as int).skip(end - at) =~= text@.skip(end as int));
        at = end;
    }
    proof {
        lemma_nothing_left(reader@, text@.skip(at as int));
    }
    let last = end_statement(reader);
    (last.theme, last.size)
}

/// An empty text changes nothing.
proof fn lemma_nothing_left(r: Reading, text: Seq<char>)
    requires
        text.len() == 0,
    ensures
        after_text(r, text) == r,
{
}

/// The theme and the size of the cursor that the compositor draws. Its configuration is the source
/// of truth; the environment and the compositor's defaults stand in where it says nothing.
pub fn niri_cursor_config(env_theme: Option<&str>, env_size: Option<&str>, config: Option<&str>) -> (r:
    (String, u32))
    ensures
        (CursorConfig { theme: r.0@, size: r.1 }) == cursor_config(
            text_view(env_theme),
            text_view(env_size),
            text_view(config),
        ),
        r.0@.len() > 0,
        r.1 > 0,
{
    let mut theme = match env_theme {
        Some(theme) => theme.to_owned(),
        None => String::new(),
    };
    let mut size: u32 = match env_size {
        Some(s) => {
            let c = chars_of(s);
            assert(c@.subrange(0, c@.len() as int) =~= s@);
            match parse_u32(&c, 0, c.len()) {
                Some(size) => size,
                None => 0,
            }
        },
        None => 0,
    };
    let ghost known = CursorConfig { theme: theme@, size };
    assert(known == environment_config(text_view(env_theme), text_view(env_size)));
    if let Some(text) = config {
        let (t, n) = read_config(text, theme, size);
        theme = t;
        size = n;
    }
    proof {
        reveal_strlit("default");
    }
    if theme.as_str().unicode_len() == 0 {
        theme = "default".to_owned();
    }
    if size == 0 {
        size = 24;
    }
    (theme, size)
}

/// Whether two ways of reading are at the same place, and know of the cursor what a configuration
/// has settled, or else what `one` and `two` knew before.
spec fn side_by_side(a: Reading, b: Reading, one: CursorConfig, two: CursorConfig) -> bool {
    &&& b == Reading { known: b.known, ..a }
    &&& a.known.theme == b.known.theme || (a.known.theme == one.theme && b.known.theme == two.theme)
    &&& a.known.size == b.known.size || (a.known.size == one.size && b.known.size == two.size)
}

proof fn lemma_read_side_by_side(
    a: Reading,
    b: Reading,
    one: CursorConfig,
    two: CursorConfig,
    text: Seq<char>,
)
    requires
        side_by_side(a, b, one, two),
    ensures
        side_by_side(after_text(a, text), after_text(b, text), one, two),
    decreases text.len(),
{
    let (token, n) = token_at(text);
    if 0 < n <= text.len() {
        lemma_read_side_by_side(
            after_token(a, token, text.take(n)),
            after_token(b, token, text.take(n)),
            one,
            two,
            text.skip(n),
        );
    }
}

/// The configuration of the compositor comes first: whatever was known before, a configuration
/// either settles the theme by itself or says nothing of it, and so with the size.
pub proof fn law_config_over_environment(one: CursorConfig, two: CursorConfig, text: Seq<char>)
    ensures
        ({
            let a = after_config(one, text);
            let b = after_config(two, text);
            &&& a.theme == b.theme || (a.theme == one.theme && b.theme == two.theme)
            &&& a.size == b.size || (a.size == one.size && b.size == two.size)
        }),
{
    lemma_read_side_by_side(at_start(one), at_start(two), one, two, text);
}

/// Only the `cursor` block counts: what is known of the cursor stays as it is but for the end of a
/// statement that stands directly in that block.
pub proof fn law_only_cursor_block_counts(r: Reading, token: TokenView, taken: Seq<char>)
    ensures
        after_token(r, token, taken).known != r.known ==> r.depth == 1 && r.in_cursor && !r.dead,
        r.depth == 0 && after_token(r, token, taken).in_cursor && token is Open ==> r.words[0].text
            == "cursor"@,
{
}

/// A statement of a setting sets it and leaves the other as it is: a size is set to the number that
/// stands after its name, and a theme to the text. A statement of another name sets nothing, nor
/// does one with a property, and a size in quotes is none.
pub proof fn law_statements_set_their_setting(
    known: CursorConfig,
    n: u32,
    theme: Seq<char>,
    quoted: bool,
    words: Seq<WordView>,
    rest: Seq<char>,
)
    requires
        theme.len() > 0,
    ensures
        ({
            let size = WordView { text: "xcursor-size"@, quoted: false };
            let number = WordView { text: decimal(n as nat), quoted: false };
            after_statement(known, seq![size, number], rest, false) == CursorConfig {
                theme: known.theme,
                size: n,
            }
        }),
        ({
            let name = WordView { text: "xcursor-theme"@, quoted: false };
            let value = WordView { text: theme, quoted };
            after_statement(known, seq![name, value], rest, false) == CursorConfig {
                theme,
                size: known.size,
            }
        }),
        words.len() > 0 && words[0].text != "xcursor-size"@ && words[0].text != "xcursor-theme"@
            ==> after_statement(known, words, rest, false) == known,
        after_statement(known, words, rest, true) == known,
        words.len() < 2 ==> after_statement(known, words, rest, false) == known,
        words.len() == 2 && words[0].text == "xcursor-size"@ && words[1].quoted ==> after_statement(
            known,
            words,
            rest,
            false,
        ) == known,
{
    reveal_strlit("xcursor-size");
    reveal_strlit("xcursor-theme");
    assert("xcursor-size"@.len() != "xcursor-theme"@.len());
    law_numbers_are_read_back(n, Seq::empty());
}

/// A token that stands at the start of a text is taken, and reading goes on behind it.
proof fn lemma_takes_token(r: Reading, taken: Seq<char>, rest: Seq<char>, token: TokenView)
    requires
        taken.len() > 0,
        token_at(taken + rest) == (token, taken.len() as int),
    ensures
        after_text(r, taken + rest) == after_text(after_token(r, token, taken), rest),
{
    let n = taken.len() as int;
    assert((taken + rest).take(n) =~= taken);
    assert((taken + rest).skip(n) =~= rest);
}

/// A configuration that names a theme and a size, in a `cursor` block of its own.
pub open spec fn written_config(theme: Seq<char>, size: u32) -> Seq<char> {
    "cursor"@ + (" "@ + ("{"@ + ("\n"@ + theme_line(theme, size_line(size, "}"@)))))
}

/// The line that names a theme, and what follows.
pub open spec fn theme_line(theme: Seq<char>, rest: Seq<char>) -> Seq<char> {
    "xcursor-theme"@ + (" "@ + (seq!['"'] + (theme + (seq!['"'] + ("\n"@ + rest)))))
}

/// The line that names a size, and what follows.
pub open spec fn size_line(size: u32, rest: Seq<char>) -> Seq<char> {
    "xcursor-size"@ + (" "@ + (decimal(size as nat) + ("\n"@ + rest)))
}

/// Reading in the `cursor` block, before a statement.
pub open spec fn in_block(known: CursorConfig) -> Reading {
    Reading { depth: 1, in_cursor: true, ..at_start(known) }
}

#[verifier::rlimit(40)]
#[verifier::spinoff_prover]
proof fn lemma_reads_theme_line(known: CursorConfig, theme: Seq<char>, rest: Seq<char>)
    requires
        theme.len() > 0,
        forall|i: int| 0 <= i < theme.len() ==> theme[i] != '"' && theme[i] != '\\',
    ensures
        after_text(in_block(known), theme_line(theme, rest)) == after_text(
            in_block(CursorConfig { theme, ..known }),
            rest,
        ),
{
    reveal_strlit("xcursor-theme");
    reveal_strlit(" ");
    reveal_strlit("\n");
    assert(" "@ =~= seq![' '] && "\n"@ =~= seq!['\n']);
    let name = "xcursor-theme"@;
    let after_value = "\n"@ + rest;
    let value = seq!['"'] + (theme + (seq!['"'] + after_value));
    let after_name = " "@ + value;
    let r0 = in_block(known);
    assert forall|i: int| 0 <= i < name.len() implies is_plain(#[trigger] name[i]) by {}
    assert(after_name[0] == ' ');
    law_plain_word_is_read(name, after_name);
    let t0 = TokenView::Word(WordView { text: name, quoted: false });
    lemma_takes_token(r0, name, after_name, t0);
    let r1 = after_token(r0, t0, name);
    law_signs_are_read(value, ' ');
    lemma_takes_token(r1, " "@, value, TokenView::Space);
    let r2 = after_token(r1, TokenView::Space, " "@);
    law_quoted_word_is_read(theme, after_value);
    let quoted = seq!['"'] + (theme + seq!['"']);
    assert(value =~= quoted + after_value);
    let t2 = TokenView::Word(WordView { text: theme, quoted: true });
    lemma_takes_token(r2, quoted, after_value, t2);
    let r3 = after_token(r2, t2, quoted);
    law_signs_are_read(rest, ' ');
    lemma_takes_token(r3, "\n"@, rest, TokenView::End);
    assert(r3.words =~= seq![
        WordView { text: name, quoted: false },
        WordView { text: theme, quoted: true },
    ]);
    law_statements_set_their_setting(known, 1, theme, true, r3.words, r3.rest);
    assert(after_token(r3, TokenView::End, "\n"@) == in_block(CursorConfig { theme, ..known }));
}

#[verifier::rlimit(40)]
#[verifier::spinoff_prover]
proof fn lemma_reads_size_line(known: CursorConfig, size: u32, rest: Seq<char>)
    ensures
        after_text(in_block(known), size_line(size, rest)) == after_text(
            in_block(CursorConfig { size, ..known }),
            rest,
        ),
{
    reveal_strlit("xcursor-size");
    reveal_strlit(" ");
    reveal_strlit("\n");
    assert(" "@ =~= seq![' '] && "\n"@ =~= seq!['\n']);
    let name = "xcursor-size"@;
    let number = decimal(size as nat);
    let after_number = "\n"@ + rest;
    let value = number + after_number;
    let after_name = " "@ + value;
    let r0 = in_block(known);
    assert forall|i: int| 0 <= i < name.len() implies is_plain(#[trigger] name[i]) by {}
    assert(after_name[0] == ' ');
    law_plain_word_is_read(name, after_name);
    let t0 = TokenView::Word(WordView { text: name, quoted: false });
    lemma_takes_token(r0, name, after_name, t0);
    let r1 = after_token(r0, t0, name);
    law_signs_are_read(value, ' ');
    lemma_takes_token(r1, " "@, value, TokenView::Space);
    let r2 = after_token(r1, TokenView::Space, " "@);
    law_decimal_stands_for_the_number(size as nat);
    assert forall|i: int| 0 <= i < number.len() implies is_plain(
        #[trigger] number[i],
    ) by {}
    assert(number[0] != 'r');
    assert(after_number[0] == '\n');
    law_plain_word_is_read(number, after_number);
    let t2 = TokenView::Word(WordView { text: number, quoted: false });
    lemma_takes_token(r2, number, after_number, t2);
    let r3 = after_token(r2, t2, number);
    law_signs_are_read(rest, ' ');
    lemma_takes_token(r3, "\n"@, rest, TokenView::End);
    assert(r3.words =~= seq![
        WordView { text: name, quoted: false },
        WordView { text: number, quoted: false },
    ]);
    law_statements_set_their_setting(known, size, name, true, r3.words, r3.rest);
    assert(after_token(r3, TokenView::End, "\n"@) == in_block(CursorConfig { size, ..known }));
}

/// A configuration that names a theme and a size is read as that theme and that size, whatever the
/// environment says.
#[verifier::rlimit(40)]
#[verifier::spinoff_prover]
pub proof fn law_configuration_is_read_back(
    env_theme: Option<Seq<char>>,
    env_size: Option<Seq<char>>,
    theme: Seq<char>,
    size: u32,
)
    requires
        theme.len() > 0,
        forall|i: int| 0 <= i < theme.len() ==> theme[i] != '"' && theme[i] != '\\',
        size > 0,
    ensures
        cursor_config(env_theme, env_size, Some(written_config(theme, size))) == (CursorConfig {
            theme,
            size,
        }),
{
    reveal_strlit("cursor");
    reveal_strlit(" ");
    reveal_strlit("{");
    reveal_strlit("}");
    reveal_strlit("\n");
    assert(" "@ =~= seq![' '] && "\n"@ =~= seq!['\n'] && "{"@ =~= seq!['{'] && "}"@ =~= seq!['}']);
    let known = environment_config(env_theme, env_size);
    let name = "cursor"@;
    let lines = theme_line(theme, size_line(size, "}"@));
    let after_open = "\n"@ + lines;
    let after_space = "{"@ + after_open;
    let after_name = " "@ + after_space;
    let r0 = at_start(known);
    assert forall|i: int| 0 <= i < name.len() implies is_plain(#[trigger] name[i]) by {}
    assert(after_name[0] == ' ');
    law_plain_word_is_read(name, after_name);
    let t0 = TokenView::Word(WordView { text: name, quoted: false });
    lemma_takes_token(r0, name, after_name, t0);
    let r1 = after_token(r0, t0, name);
    law_signs_are_read(after_space, ' ');
    lemma_takes_token(r1, " "@, after_space, TokenView::Space);
    let r2 = after_token(r1, TokenView::Space, " "@);
    law_signs_are_read(after_open, ' ');
    lemma_takes_token(r2, "{"@, after_open, TokenView::Open);
    let r3 = after_token(r2, TokenView::Open, "{"@);
    law_signs_are_read(lines, ' ');
    lemma_takes_token(r3, "\n"@, lines, TokenView::End);
    assert(r2.words =~= seq![WordView { text: name, quoted: false }]);
    assert(r3 == in_block(known));
    assert(after_token(r3, TokenView::End, "\n"@) == in_block(known));
    lemma_reads_theme_line(known, theme, size_line(size, "}"@));
    let with_theme = CursorConfig { theme, ..known };
    lemma_reads_size_line(with_theme, size, "}"@);
    let settled = CursorConfig { theme, size };
    assert(CursorConfig { size, ..with_theme } == settled);
    let r4 = in_block(settled);
    let nothing = Seq::<char>::empty();
    law_signs_are_read(nothing, ' ');
    assert("}"@ =~= "}"@ + nothing);
    lemma_takes_token(r4, "}"@, nothing, TokenView::Close);
    lemma_nothing_left(after_token(r4, TokenView::Close, "}"@), nothing);
}

/// Without a configuration the environment decides: its theme, unless it is empty, and its size, if
/// it is a number other than 0; and else the compositor's defaults.
pub proof fn law_environment_and_defaults_stand_in(
    env_theme: Option<Seq<char>>,
    env_size: Option<Seq<char>>,
    n: u32,
)
    ensures
        ({
            let c = cursor_config(env_theme, env_size, None);
            &&& (env_theme matches Some(theme) ==> theme.len() > 0 ==> c.theme == theme)
            &&& (!(env_theme matches Some(theme) && theme.len() > 0) ==> c.theme == seq![
                'd',
                'e',
                'f',
                'a',
                'u',
                'l',
                't',
            ])
            &&& (n > 0 && env_size == Some(decimal(n as nat)) ==> c.size == n)
            &&& (env_size is None ==> c.size == 24)
            &&& (env_size matches Some(text) && u32_of(text) is None ==> c.size == 24)
            &&& (env_size == Some(decimal(0)) ==> c.size == 24)
        }),
{
    reveal_strlit("default");
    assert("default"@ =~= seq!['d', 'e', 'f', 'a', 'u', 'l', 't']);
    law_numbers_are_read_back(n, Seq::empty());
    law_numbers_are_read_back(0, Seq::empty());
}

/// The arrow is told of exactly while a takeover is engaged and there is one, and it is served under
/// its id and no other, whether or not a takeover is engaged.
pub proof fn law_arrow_is_served_under_its_id(
    takeover_active: bool,
    cursor: Option<CursorDataView>,
    hcursor: u64,
)
    ensures
        served_id(takeover_active, cursor) is Some <==> takeover_active && cursor is Some,
        served_id(takeover_active, cursor) matches Some(id) ==> id == ID,
        hcursor == ID ==> served_data(hcursor, cursor) == cursor,
        hcursor != ID ==> served_data(hcursor, cursor) is None,
{
}

/// A cursor is its image: as large, with the same hot spot and the same pixels, under the arrow's
/// id.
pub proof fn law_cursor_is_its_image(image: CursorImageView)
    requires
        image.well_formed(),
    ensures
        cursor_of(image).id == ID,
        cursor_of(image).width == image.width,
        cursor_of(image).height == image.height,
        cursor_of(image).hotx == image.xhot,
        cursor_of(image).hoty == image.yhot,
        cursor_of(image).colors == image.pixels_rgba,
{
}

/// The image that is taken is as near to the size that is asked for as any other: no other differs
/// less from it, in either direction, and of those that differ as much it is the first.
pub proof fn law_nearest_image_is_taken(images: Seq<CursorImageView>, size: u32, i: int, j: int)
    requires
        is_nearest(images, size, i),
        0 <= j < images.len(),
    ensures
        ({
            let mine = images[i].size - size;
            let other = images[j].size - size;
            &&& other >= 0 ==> -other <= mine <= other
            &&& other <= 0 ==> other <= mine <= -other
            &&& j < i ==> other != mine && other != -mine
        }),
{
    let d = distance(images[i], size);
    let e = distance(images[j], size);
    if j < i {
        assert(d < e);
    } else {
        assert(d <= e);
    }
}

/// The names under which a theme may hold the arrow, in the order in which they are tried.
pub fn arrow_names() -> (r: Vec<String>)
    ensures
        r@.map_values(|s: String| s@) == seq!["default"@, "left_ptr"@],
{
    let mut r: Vec<String> = Vec::new();
    r.push("default".to_owned());
    r.push("left_ptr".to_owned());
    assert(r@.map_values(|s: String| s@) =~= seq!["default"@, "left_ptr"@]);
    r
}

/// An image of a cursor: its nominal size, its measures, its hot spot and its pixels.
#[derive(Debug)]
pub struct CursorImage {
    pub size: u32,
    pub width: u32,
    pub height: u32,
    pub xhot: u32,
    pub yhot: u32,
    pub pixels_rgba: Vec<u8>,
}

/// The mathematical value of a [`CursorImage`].
pub struct CursorImageView {
    pub size: u32,
    pub width: u32,
    pub height: u32,
    pub xhot: u32,
    pub yhot: u32,
    pub pixels_rgba: Seq<u8>,
}

impl View for CursorImage {
    type V = CursorImageView;

    open spec fn view(&self) -> CursorImageView {
        CursorImageView {
            size: self.size,
            width: self.width,
            height: self.height,
            xhot: self.xhot,
            yhot: self.yhot,
            pixels_rgba: self.pixels_rgba@,
        }
    }
}

impl CursorImageView {
    /// An image has pixels, not too many, four bytes to each, and its hot spot is not beyond it.
    pub open spec fn well_formed(self) -> bool {
        &&& 0 < self.width <= 0x7fff
        &&& 0 < self.height <= 0x7fff
        &&& self.xhot <= self.width
        &&& self.yhot <= self.height
        &&& self.pixels_rgba.len() == 4 * self.width * self.height
    }
}

/// The images that `xcursor` finds in a file; `None` where it refuses the file.
pub uninterp spec fn xcursor_images(data: Seq<u8>) -> Option<Seq<CursorImageView>>;

/// Calls `xcursor::parser::parse_xcursor`. Claimed: whether it accepts the bytes of a file, and the
/// images that it then returns, depend on the bytes alone; and each image has passed its checks:
/// neither side is 0 or over 0x7fff, the hot spot is not beyond the image, and there are four bytes
/// to a pixel. Memory for the pixels is allocated before they are read; what happens where it
/// cannot be had is left unsaid, as it is for every `Vec`.
#[verifier::external_body]
fn parse_xcursor(data: &[u8]) -> (r: Option<Vec<CursorImage>>)
    ensures
        match r {
            Some(images) => xcursor_images(data@) == Some(views(images@)) && forall|i: int|
                0 <= i < images@.len() ==> (#[trigger] images@[i])@.well_formed(),
            None => xcursor_images(data@) is None,
        },
{
    let images = xcursor::parser::parse_xcursor(data)?;
    let to_image = |i: xcursor::parser::Image| CursorImage {
        size: i.size,
        width: i.width,
        height: i.height,
        xhot: i.xhot,
        yhot: i.yhot,
        pixels_rgba: i.pixels_rgba,
    };
    Some(images.into_iter().map(to_image).collect())
}

/// How far the nominal size of an image is from `size`.
pub open spec fn distance(image: CursorImageView, size: u32) -> int {
    if image.size >= size {
        image.size - size
    } else {
        size - image.size
    }
}

/// Whether the image with index `i` is the one to be taken: none is nearer to `size`, and it is the
/// first that is this near.
pub open spec fn is_nearest(images: Seq<CursorImageView>, size: u32, i: int) -> bool {
    &&& 0 <= i < images.len()
    &&& forall|j: int|
        0 <= j < i ==> distance(images[i], size) < #[trigger] distance(images[j], size)
    &&& forall|j: int|
        i <= j < images.len() ==> distance(images[i], size) <= #[trigger] distance(images[j], size)
}

/// The cursor that an image makes.
pub open spec fn cursor_of(image: CursorImageView) -> CursorDataView {
    CursorDataView {
        id: ID,
        hotx: image.xhot as i32,
        hoty: image.yhot as i32,
        width: image.width as i32,
        height: image.height as i32,
        colors: image.pixels_rgba,
    }
}

/// The arrow, and the nominal size of the image that it was made of.
#[derive(Debug)]
pub struct Arrow {
    pub cursor: CursorData,
    pub size: u32,
}

/// Whether an arrow is made of the image that is nearest to `size`; there is none if there is no
/// image.
pub open spec fn is_arrow(
    images: Seq<CursorImageView>,
    size: u32,
    arrow: Option<Arrow>,
) -> bool {
    match arrow {
        Some(a) => exists|i: int| #[trigger]
            is_nearest(images, size, i) && a.cursor@ == cursor_of(images[i]) && a.size
                == images[i].size,
        None => images.len() == 0,
    }
}

/// Makes a cursor of the image whose nominal size is nearest to `size`. The pixels stay
/// premultiplied.
pub fn arrow_of(images: &Vec<CursorImage>, size: u32) -> (r: Option<Arrow>)
    ensures
        is_arrow(views(images@), size, r),
{
    if images.len() == 0 {
        return None;
    }
    let ghost all = views(images@);
    let mut best: usize = 0;
    let mut i: usize = 1;
    while i < images.len()
        invariant
            all == views(images@),
            best < i <= images@.len(),
            forall|j: int|
                0 <= j < best ==> distance(all[best as int], size) < #[trigger] distance(
                    all[j],
                    size,
                ),
            forall|j: int|
                best <= j < i ==> distance(all[best as int], size) <= #[trigger] distance(
                    all[j],
                    size,
                ),
        decreases images@.len() - i,
    {
        if off_by(&images[i], size) < off_by(&images[best], size) {
            best = i;
        }
        i = i + 1;
    }
    assert(is_nearest(all, size, best as int));
    let image = &images[best];
    let colors = image.pixels_rgba.clone();
    assert(colors@ =~= image.pixels_rgba@);
    let cursor = CursorData {
        id: ID,
        hotx: #[verifier::truncate]
        (image.xhot as i32),
        hoty: #[verifier::truncate]
        (image.yhot as i32),
        width: #[verifier::truncate]
        (image.width as i32),
        height: #[verifier::truncate]
        (image.height as i32),
        colors,
    };
    Some(Arrow { cursor, size: image.size })
}

fn off_by(image: &CursorImage, size: u32) -> (r: u32)
    ensures
        r == distance(image@, size),
{
    if image.size >= size {
        image.size - size
    } else {
        size - image.size
    }
}

/// Makes the arrow of the bytes of its file. What is made has pixels, four bytes to each, and a hot
/// spot that is not beyond them.
pub fn load(data: &[u8], size: u32) -> (r: Option<Arrow>)
    ensures
        match xcursor_images(data@) {
            Some(images) => is_arrow(images, size, r),
            None => r is None,
        },
        r matches Some(Arrow { cursor: c, .. }) ==> {
            &&& 0 < c.width <= 0x7fff
            &&& 0 < c.height <= 0x7fff
            &&& 0 <= c.hotx <= c.width
            &&& 0 <= c.hoty <= c.height
            &&& c.colors@.len() == 4 * c.width * c.height
        },
{
    let images = match parse_xcursor(data) {
        Some(images) => images,
        None => {
            return None;
        },
    };
    let r = arrow_of(&images, size);
    proof {
        if r is Some {
            let a = r->0;
            let all = views(images@);
            let i = choose|i: int| #[trigger]
                is_nearest(all, size, i) && a.cursor@ == cursor_of(all[i]) && a.size == all[i].size;
            assert(all[i] == images@[i]@);
            assert(images@[i]@.well_formed());
        }
    }
    r
}

/// Which image is nearest is settled by the images and the size.
pub proof fn law_one_image_is_nearest(images: Seq<CursorImageView>, size: u32, i: int, j: int)
    requires
        is_nearest(images, size, i),
        is_nearest(images, size, j),
    ensures
        i == j,
{
    let a = distance(images[i], size);
    let b = distance(images[j], size);
    if i < j {
        assert(b < a);
    } else if j < i {
        assert(a < b);
    }
}

/// An image of the size that is asked for is taken where there is one.
pub proof fn law_exact_size_is_taken(images: Seq<CursorImageView>, size: u32, i: int, j: int)
    requires
        is_nearest(images, size, i),
        0 <= j < images.len(),
        images[j].size == size,
    ensures
        images[i].size == size,
{
    assert(distance(images[j], size) == 0);
}

/// Blocks are counted as they are opened and closed. A block is the `cursor` block if it is opened
/// outside of all others by a statement that begins with that name and counts, and the blocks in a
/// block are part of it.
pub proof fn law_blocks_are_counted(r: Reading, taken: Seq<char>)
    ensures
        ({
            let opened = after_token(r, TokenView::Open, taken);
            &&& opened.depth == r.depth + 1
            &&& r.depth > 0 ==> opened.in_cursor == r.in_cursor
            &&& r.depth == 0 ==> (opened.in_cursor <==> r.words.len() > 0 && r.words[0].text
                == "cursor"@ && !r.dead && !r.skip)
            &&& opened.words.len() == 0 && !opened.dead && !opened.skip && !opened.property
        }),
        ({
            let closed = after_token(r, TokenView::Close, taken);
            &&& r.depth > 0 ==> closed.depth == r.depth - 1
            &&& r.depth == 0 ==> closed.depth == 0
            &&& closed.in_cursor == r.in_cursor
            &&& closed.words.len() == 0 && !closed.dead && !closed.skip && !closed.property
        }),
        ({
            let ended = after_token(r, TokenView::End, taken);
            &&& ended.depth == r.depth && ended.in_cursor == r.in_cursor
            &&& ended.words.len() == 0 && !ended.dead && !ended.skip && !ended.property
        }),
        forall|token: TokenView|
            token is Space || token is Comment || token is Word || token is Equals || token is Skip
                ==> {
                let after = #[trigger] after_token(r, token, taken);
                &&& after.depth == r.depth
                &&& after.in_cursor == r.in_cursor
                &&& after.known == r.known
            },
{
}

/// A word after `/-` does not count: at the start of a statement the whole statement does not, and
/// within one the word is left out. A statement that does not count says nothing.
pub proof fn law_what_is_commented_out_does_not_count(
    r: Reading,
    word: WordView,
    taken: Seq<char>,
    marked: Seq<char>,
    end: TokenView,
)
    requires
        end is End || end is Open || end is Close,
    ensures
        ({
            let before = after_token(r, TokenView::Skip, marked);
            let after = after_token(before, TokenView::Word(word), taken);
            &&& !after.skip
            &&& r.words.len() == 0 ==> after.dead
            &&& r.words.len() > 0 ==> after.words == r.words && after.rest == r.rest && after.dead
                == r.dead
        }),
        !r.skip ==> {
            let after = after_token(r, TokenView::Word(word), taken);
            after.words == r.words.push(word) && after.dead == r.dead && !after.skip
        },
        r.dead ==> after_token(r, end, taken).known == r.known,
        r.property ==> after_token(r, end, taken).known == r.known,
        after_token(r, TokenView::Equals, taken).property,
{
}

/// What stands after the name of a setting is what was written there, comments left out; a theme of
/// several words is all of it, but for white space and quotes at the ends.
pub proof fn law_theme_of_several_words(
    r: Reading,
    word: WordView,
    taken: Seq<char>,
    known: CursorConfig,
    words: Seq<WordView>,
    rest: Seq<char>,
)
    requires
        words.len() > 2,
        words[0].text == "xcursor-theme"@,
    ensures
        r.words.len() > 0 ==> after_token(r, TokenView::Space, taken).rest == r.rest + taken,
        r.words.len() > 0 && !r.skip ==> after_token(r, TokenView::Word(word), taken).rest == r.rest
            + taken,
        r.words.len() == 0 ==> after_token(r, TokenView::Word(word), taken).rest == r.rest,
        after_token(r, TokenView::Comment, taken).rest == r.rest,
        ({
            let theme = trim(trim(rest, Trim::WhiteSpace), Trim::Quotes);
            after_statement(known, words, rest, false) == (CursorConfig {
                theme: if theme.len() > 0 {
                    theme
                } else {
                    known.theme
                },
                size: known.size,
            })
        }),
{
}

} // verus!
