//! The query lexer: from query text to tokens, one at a time.

use vstd::prelude::*;
use vstd::utf8::*;
use vstd::std_specs::iter::IteratorSpec;
use crate::chars::{alphanumeric, is_quote, whitespace};
use crate::text::{
    byte_len, lemma_encode_concat, lemma_prefix_is_boundary, lemma_prefix_unique,
    lemma_utf8_len_step, utf8_len,
};

verus! {

broadcast use vstd::string::group_string_axioms;

/// A token of the query language. The tokens that carry text borrow it from
/// the query: quotes and escape backslashes are still in a `String`'s text.
#[derive(Debug, Clone, Copy, PartialEq, Eq)]
pub enum TokenType<'a> {
    String(&'a str),
    Alphanumeric(&'a str),
    Slash,
    DoubleSlash,
    Point,
    DoublePoint,
    Star,
    EnterSquareBracket,
    LeaveSquareBracket,
    Equal,
    Pipe,
    Unknown(&'a str),
}

/// What a token is, with its text as a sequence of characters.
pub enum Token {
    String(Seq<char>),
    Alphanumeric(Seq<char>),
    Slash,
    DoubleSlash,
    Point,
    DoublePoint,
    Star,
    EnterSquareBracket,
    LeaveSquareBracket,
    Equal,
    Pipe,
    Unknown(Seq<char>),
}

impl<'a> View for TokenType<'a> {
    type V = Token;

    open spec fn view(&self) -> Token {
        match *self {
            TokenType::String(s) => Token::String(s@),
            TokenType::Alphanumeric(s) => Token::Alphanumeric(s@),
            TokenType::Slash => Token::Slash,
            TokenType::DoubleSlash => Token::DoubleSlash,
            TokenType::Point => Token::Point,
            TokenType::DoublePoint => Token::DoublePoint,
            TokenType::Star => Token::Star,
            TokenType::EnterSquareBracket => Token::EnterSquareBracket,
            TokenType::LeaveSquareBracket => Token::LeaveSquareBracket,
            TokenType::Equal => Token::Equal,
            TokenType::Pipe => Token::Pipe,
            TokenType::Unknown(s) => Token::Unknown(s@),
        }
    }
}

impl Token {
    /// The characters of the query that the token covers.
    pub open spec fn text(self) -> Seq<char> {
        match self {
            Token::String(s) => s,
            Token::Alphanumeric(s) => s,
            Token::Slash => seq!['/'],
            Token::DoubleSlash => seq!['/', '/'],
            Token::Point => seq!['.'],
            Token::DoublePoint => seq!['.', '.'],
            Token::Star => seq!['*'],
            Token::EnterSquareBracket => seq!['['],
            Token::LeaveSquareBracket => seq![']'],
            Token::Equal => seq!['='],
            Token::Pipe => seq!['|'],
            Token::Unknown(s) => s,
        }
    }
}

/// The end of the run of whitespace that starts at `i`.
pub open spec fn whitespace_end(s: Seq<char>, i: int) -> int
    decreases s.len() - i,
{
    if 0 <= i < s.len() && whitespace(s[i]) {
        whitespace_end(s, i + 1)
    } else {
        i
    }
}

/// The end of the run of letters and digits that starts at `i`.
pub open spec fn alphanumeric_end(s: Seq<char>, i: int) -> int
    decreases s.len() - i,
{
    if 0 <= i < s.len() && alphanumeric(s[i]) {
        alphanumeric_end(s, i + 1)
    } else {
        i
    }
}

/// The end of a text token whose body is being read at `i`: just behind the
/// first `quote` that no backslash escapes, or the end of the input.
pub open spec fn text_end(s: Seq<char>, quote: char, i: int, escaped: bool) -> int
    decreases s.len() - i,
{
    if !(0 <= i < s.len()) {
        i
    } else if escaped {
        text_end(s, quote, i + 1, false)
    } else if s[i] == '\\' {
        text_end(s, quote, i + 1, true)
    } else if s[i] == quote {
        i + 1
    } else {
        text_end(s, quote, i + 1, false)
    }
}

/// The end of the symbol token at `i`: `//` and `..` take two characters,
/// every other symbol one.
pub open spec fn symbol_end(s: Seq<char>, i: int) -> int {
    if (s[i] == '/' || s[i] == '.') && i + 1 < s.len() && s[i + 1] == s[i] {
        i + 2
    } else {
        i + 1
    }
}

/// The symbol token at `i`.
pub open spec fn symbol_at(s: Seq<char>, i: int) -> Token {
    let c = s[i];
    let double = symbol_end(s, i) == i + 2;
    if c == '/' {
        if double { Token::DoubleSlash } else { Token::Slash }
    } else if c == '.' {
        if double { Token::DoublePoint } else { Token::Point }
    } else if c == '[' {
        Token::EnterSquareBracket
    } else if c == ']' {
        Token::LeaveSquareBracket
    } else if c == '*' {
        Token::Star
    } else if c == '=' {
        Token::Equal
    } else if c == '|' {
        Token::Pipe
    } else {
        Token::Unknown(s.subrange(i, i + 1))
    }
}

/// The end of the token that starts at `i`, where `s[i]` is not whitespace.
pub open spec fn token_end(s: Seq<char>, i: int) -> int {
    if is_quote(s[i]) {
        text_end(s, s[i], i + 1, false)
    } else if alphanumeric(s[i]) {
        alphanumeric_end(s, i)
    } else {
        symbol_end(s, i)
    }
}

/// The token that starts at `i`, where `s[i]` is not whitespace.
pub open spec fn token_at(s: Seq<char>, i: int) -> Token {
    if is_quote(s[i]) {
        Token::String(s.subrange(i, token_end(s, i)))
    } else if alphanumeric(s[i]) {
        Token::Alphanumeric(s.subrange(i, token_end(s, i)))
    } else {
        symbol_at(s, i)
    }
}

/// The runs and tokens end inside the input and behind where they start.
pub proof fn lemma_ends(s: Seq<char>, i: int, quote: char, escaped: bool)
    requires
        0 <= i <= s.len(),
    ensures
        i <= whitespace_end(s, i) <= s.len(),
        i <= alphanumeric_end(s, i) <= s.len(),
        i <= text_end(s, quote, i, escaped) <= s.len(),
        i < s.len() ==> i < symbol_end(s, i) <= s.len(),
        i < s.len() ==> i < token_end(s, i) <= s.len(),
        forall|j: int| i <= j < whitespace_end(s, i) ==> whitespace(s[j]),
        forall|j: int| i <= j < alphanumeric_end(s, i) ==> alphanumeric(s[j]),
        whitespace_end(s, i) < s.len() ==> !whitespace(s[whitespace_end(s, i)]),
        alphanumeric_end(s, i) < s.len() ==> !alphanumeric(s[alphanumeric_end(s, i)]),
    decreases s.len() - i,
{
    if i < s.len() {
        lemma_ends(s, i + 1, quote, false);
        lemma_ends(s, i + 1, quote, true);
        lemma_ends(s, i + 1, s[i], false);
    }
}

/// Reading `s` from `k` on is reading what is left of `s` behind `k`.
pub proof fn lemma_shift(s: Seq<char>, k: int, i: int, quote: char, escaped: bool)
    requires
        0 <= k <= s.len(),
        0 <= i <= s.len() - k,
    ensures
        whitespace_end(s.skip(k), i) + k == whitespace_end(s, i + k),
        alphanumeric_end(s.skip(k), i) + k == alphanumeric_end(s, i + k),
        text_end(s.skip(k), quote, i, escaped) + k == text_end(s, quote, i + k, escaped),
        i < s.len() - k ==> symbol_end(s.skip(k), i) + k == symbol_end(s, i + k),
        i < s.len() - k ==> symbol_at(s.skip(k), i) == symbol_at(s, i + k),
        i < s.len() - k ==> token_end(s.skip(k), i) + k == token_end(s, i + k),
        i < s.len() - k ==> token_at(s.skip(k), i) == token_at(s, i + k),
    decreases s.len() - k - i,
{
    let t = s.skip(k);
    if i < s.len() - k {
        assert(t[i] == s[i + k]);
        lemma_shift(s, k, i + 1, quote, false);
        lemma_shift(s, k, i + 1, quote, true);
        lemma_shift(s, k, i + 1, t[i], false);
        if i + 1 < t.len() {
            assert(t[i + 1] == s[i + 1 + k]);
        }
        assert(t.subrange(i, i + 1) =~= s.subrange(i + k, i + k + 1));
        lemma_ends(t, i, quote, escaped);
        lemma_ends(t, i + 1, t[i], false);
        assert(t.subrange(i, token_end(t, i)) =~= s.subrange(i + k, token_end(t, i) + k));
    }
}

/// The lexer: the part of the query that has not been read yet.
pub struct Lexer<'a> {
    pub input: &'a str,
}

impl<'a> View for Lexer<'a> {
    type V = Seq<char>;

    /// The characters that have not been read yet.
    open spec fn view(&self) -> Seq<char> {
        self.input@
    }
}

impl<'a> From<&'a str> for Lexer<'a> {
    /// A lexer at the start of `value`.
    fn from(value: &'a str) -> (r: Self) {
        Lexer { input: value }
    }
}

impl<'a> vstd::std_specs::convert::FromSpecImpl<&'a str> for Lexer<'a> {
    open spec fn obeys_from_spec() -> bool {
        true
    }

    open spec fn from_spec(value: &'a str) -> Self {
        Lexer { input: value }
    }
}

impl<'a> Lexer<'a> {
    /// Reads the next token, skipping the whitespace before it. `None` when
    /// only whitespace is left, which is then consumed.
    pub fn next(&mut self) -> (r: Option<TokenType<'a>>)
        ensures
            ({
                let s = old(self)@;
                let start = whitespace_end(s, 0);
                if start == s.len() {
                    r is None && final(self)@ == Seq::<char>::empty()
                } else {
                    &&& r matches Some(t)
                    &&& t@ == token_at(s, start)
                    &&& final(self)@ == s.skip(token_end(s, start))
                }
            }),
    {
        let ghost s = self.input@;
        let total = byte_len(self.input);
        let mut it = self.input.chars();
        let mut byte_offset: usize = 0;
        let mut first: Option<char> = None;
        let ghost mut n: int = 0;
        loop
            invariant_except_break
                0 <= n <= s.len(),
                it.remaining() == s.skip(n),
                byte_offset == utf8_len(s.take(n)),
                total == utf8_len(s),
                whitespace_end(s, n) == whitespace_end(s, 0),
                first is None,
            ensures
                0 <= n <= s.len(),
                n == whitespace_end(s, 0),
                byte_offset == utf8_len(s.take(n)),
                match first {
                    None => n == s.len(),
                    Some(c) => n < s.len() && c == s[n],
                },
            decreases s.len() - n,
        {
            match it.next() {
                None => {
                    break ;
                },
                Some(c) => {
                    assert(c == s[n]);
                    if c.is_whitespace() {
                        proof {
                            lemma_utf8_len_step(s, n);
                            assert(s.skip(n).drop_first() =~= s.skip(n + 1));
                        }
                        byte_offset += c.len_utf8();
                        proof {
                            n = n + 1;
                        }
                    } else {
                        first = Some(c);
                        break ;
                    }
                },
            }
        }
        let _ = self.advance(byte_offset, Ghost(n));
        proof {
            lemma_shift(s, n, 0, 'x', false);
            lemma_ends(s.skip(n), 0, 'x', false);
        }
        match first {
            None => None,
            Some(c) => {
                proof {
                    let t = s.skip(n);
                    assert(t[0] == s[n]);
                    lemma_shift(s, n, 1, c, false);
                    lemma_ends(t, 1, c, false);
                    assert(t.take(token_end(t, 0)) =~= s.subrange(n, token_end(s, n)));
                    assert(t.skip(token_end(t, 0)) =~= s.skip(token_end(s, n)));
                }
                if c == '"' || c == '\'' {
                    self.get_text()
                } else if c.is_alphanumeric() {
                    self.get_alphanumeric()
                } else {
                    self.get_token()
                }
            },
        }
    }

    /// Reads a text token: the opening character, which stands for the quote,
    /// and everything up to and with the next such character that no
    /// backslash escapes, or up to the end of the input.
    pub fn get_text(&mut self) -> (r: Option<TokenType<'a>>)
        requires
            old(self)@.len() > 0,
        ensures
            ({
                let s = old(self)@;
                let end = text_end(s, s[0], 1, false);
                &&& r matches Some(TokenType::String(p))
                &&& p@ == s.take(end)
                &&& final(self)@ == s.skip(end)
            }),
    {
        let ghost s = self.input@;
        let total = byte_len(self.input);
        let mut it = self.input.chars();
        let quote = match it.next() {
            Some(c) => c,
            None => {
                return None;
            },
        };
        proof {
            lemma_utf8_len_step(s, 0);
            assert(s.skip(0).drop_first() =~= s.skip(1));
        }
        let mut len_str: usize = quote.len_utf8();
        let mut escaped = false;
        let ghost mut n: int = 1;
        loop
            invariant_except_break
                1 <= n <= s.len(),
                quote == s[0],
                it.remaining() == s.skip(n),
                len_str == utf8_len(s.take(n)),
                total == utf8_len(s),
                text_end(s, quote, n, escaped) == text_end(s, quote, 1, false),
            ensures
                1 <= n <= s.len(),
                n == text_end(s, quote, 1, false),
                len_str == utf8_len(s.take(n)),
            decreases s.len() - n,
        {
            match it.next() {
                None => {
                    break ;
                },
                Some(c) => {
                    assert(c == s[n]);
                    proof {
                        lemma_utf8_len_step(s, n);
                        assert(s.skip(n).drop_first() =~= s.skip(n + 1));
                    }
                    len_str += c.len_utf8();
                    proof {
                        n = n + 1;
                    }
                    if escaped {
                        escaped = false;
                    } else if c == '\\' {
                        escaped = true;
                    } else if c == quote {
                        break ;
                    }
                },
            }
        }
        Some(TokenType::String(self.advance(len_str, Ghost(n))))
    }

    /// Reads an alphanumeric token: the longest run of letters and digits at
    /// the start of the input, which may be empty.
    pub fn get_alphanumeric(&mut self) -> (r: Option<TokenType<'a>>)
        ensures
            ({
                let s = old(self)@;
                let end = alphanumeric_end(s, 0);
                &&& r matches Some(TokenType::Alphanumeric(p))
                &&& p@ == s.take(end)
                &&& final(self)@ == s.skip(end)
            }),
    {
        let ghost s = self.input@;
        let total = byte_len(self.input);
        let mut it = self.input.chars();
        let mut len: usize = 0;
        let ghost mut n: int = 0;
        loop
            invariant_except_break
                0 <= n <= s.len(),
                it.remaining() == s.skip(n),
                len == utf8_len(s.take(n)),
                total == utf8_len(s),
                alphanumeric_end(s, n) == alphanumeric_end(s, 0),
            ensures
                0 <= n <= s.len(),
                n == alphanumeric_end(s, 0),
                len == utf8_len(s.take(n)),
            decreases s.len() - n,
        {
            match it.next() {
                None => {
                    break ;
                },
                Some(c) => {
                    assert(c == s[n]);
                    if !c.is_alphanumeric() {
                        break ;
                    }
                    proof {
                        lemma_utf8_len_step(s, n);
                        assert(s.skip(n).drop_first() =~= s.skip(n + 1));
                    }
                    len += c.len_utf8();
                    proof {
                        n = n + 1;
                    }
                },
            }
        }
        Some(TokenType::Alphanumeric(self.advance(len, Ghost(n))))
    }

    /// Reads a symbol token: `//`, `..`, or a single character, which is
    /// `Unknown` where it is no symbol of the language. `None` at the end of
    /// the input.
    pub fn get_token(&mut self) -> (r: Option<TokenType<'a>>)
        ensures
            ({
                let s = old(self)@;
                if s.len() == 0 {
                    r is None && final(self)@ == s
                } else {
                    &&& r matches Some(t)
                    &&& t@ == symbol_at(s, 0)
                    &&& final(self)@ == s.skip(symbol_end(s, 0))
                }
            }),
    {
        let ghost s = self.input@;
        let total = byte_len(self.input);
        let mut it = self.input.chars();
        let c = match it.next() {
            Some(c) => c,
            None => {
                return None;
            },
        };
        proof {
            lemma_utf8_len_step(s, 0);
            assert(s.skip(0).drop_first() =~= s.skip(1));
        }
        let mut offset: usize = c.len_utf8();
        let mut double = false;
        if c == '/' || c == '.' {
            match it.next() {
                Some(d) => {
                    if d == c {
                        proof {
                            lemma_utf8_len_step(s, 1);
                        }
                        offset += d.len_utf8();
                        double = true;
                    }
                },
                None => {},
            }
        }
        let text = self.advance(offset, Ghost(if double { 2 } else { 1 }));
        let result = if c == '/' {
            if double { TokenType::DoubleSlash } else { TokenType::Slash }
        } else if c == '.' {
            if double { TokenType::DoublePoint } else { TokenType::Point }
        } else if c == '[' {
            TokenType::EnterSquareBracket
        } else if c == ']' {
            TokenType::LeaveSquareBracket
        } else if c == '*' {
            TokenType::Star
        } else if c == '=' {
            TokenType::Equal
        } else if c == '|' {
            TokenType::Pipe
        } else {
            TokenType::Unknown(text)
        };
        Some(result)
    }

    /// Splits the input at the byte offset `offset`: what is before it is
    /// returned, what is behind it is left to read.
    #[inline]
    pub fn advance_and_return(&mut self, offset: usize) -> (r: Option<&'a str>)
        requires
            is_char_boundary(encode_utf8(old(self)@), offset as int),
        ensures
            r matches Some(p) && p@ + final(self)@ == old(self)@ && utf8_len(p@) == offset,
    {
        let ghost bytes = encode_utf8(self.input@);
        let (head, tail) = self.input.split_at(offset);
        proof {
            encode_utf8_valid_utf8(self.input@);
            decode_utf8_split(bytes, offset as int);
            encode_utf8_decode_utf8(self.input@);
            encode_utf8_decode_utf8(head@);
            encode_utf8_decode_utf8(tail@);
        }
        self.input = tail;
        Some(head)
    }

    /// Takes the first `n` characters off the input, which are its first
    /// `offset` bytes.
    fn advance(&mut self, offset: usize, Ghost(n): Ghost<int>) -> (r: &'a str)
        requires
            0 <= n <= old(self)@.len(),
            offset == utf8_len(old(self)@.take(n)),
        ensures
            r@ == old(self)@.take(n),
            final(self)@ == old(self)@.skip(n),
    {
        let ghost s = self.input@;
        proof {
            assert(s =~= s.take(n) + s.skip(n));
            lemma_prefix_is_boundary(s.take(n), s.skip(n));
        }
        match self.advance_and_return(offset) {
            Some(p) => {
                proof {
                    lemma_prefix_unique(s, p@, self.input@, n);
                }
                p
            },
            None => self.input,
        }
    }
}

/// A token with the place where it stands in the query.
pub struct Lexed {
    pub token: Token,
    /// The index of the token's first character.
    pub start: int,
    /// The index behind the token's last character.
    pub end: int,
}

/// The tokens of `s` from the character index `i` on, in order.
pub open spec fn tokens_from(s: Seq<char>, i: int) -> Seq<Lexed>
    decreases s.len() - i,
{
    let start = whitespace_end(s, i);
    if 0 <= i && start < s.len() {
        proof {
            lemma_ends(s, i, 'x', false);
            lemma_ends(s, start, 'x', false);
        }
        seq![Lexed { token: token_at(s, start), start, end: token_end(s, start) }] + tokens_from(
            s,
            token_end(s, start),
        )
    } else {
        Seq::empty()
    }
}

/// The tokens of the query `s`.
pub open spec fn tokens(s: Seq<char>) -> Seq<Lexed> {
    tokens_from(s, 0)
}

/// Whether every character of `s` is whitespace.
pub open spec fn all_whitespace(s: Seq<char>) -> bool {
    forall|j: int| 0 <= j < s.len() ==> whitespace(#[trigger] s[j])
}

/// The text of `s` from `from` on, put together again from the tokens `toks`
/// that were read there: before each token the characters that were skipped
/// to reach it, then the token's text, and behind the last token the rest.
pub open spec fn reassemble(s: Seq<char>, toks: Seq<Lexed>, from: int) -> Seq<char>
    decreases toks.len(),
{
    if toks.len() == 0 {
        s.subrange(from, s.len() as int)
    } else {
        s.subrange(from, toks[0].start) + toks[0].token.text() + reassemble(
            s,
            toks.drop_first(),
            toks[0].end,
        )
    }
}

/// Whether the tokens `toks` stand in `s` behind `from` in order, with
/// nothing but whitespace before, between and behind them.
pub open spec fn separated_by_whitespace(s: Seq<char>, toks: Seq<Lexed>, from: int) -> bool
    decreases toks.len(),
{
    if toks.len() == 0 {
        from <= s.len() && all_whitespace(s.subrange(from, s.len() as int))
    } else {
        &&& from <= toks[0].start < toks[0].end <= s.len()
        &&& all_whitespace(s.subrange(from, toks[0].start))
        &&& separated_by_whitespace(s, toks.drop_first(), toks[0].end)
    }
}

/// A token's text is the part of the query that it was read from.
pub proof fn lemma_token_text(s: Seq<char>, i: int)
    requires
        0 <= i < s.len(),
    ensures
        token_at(s, i).text() == s.subrange(i, token_end(s, i)),
{
    lemma_ends(s, i, 'x', false);
    assert(token_at(s, i).text() =~= s.subrange(i, token_end(s, i)));
}

/// Round trip, from any place in the query: the skipped whitespace and the
/// texts of the tokens, in order, are the query again.
pub proof fn lemma_round_trip_from(s: Seq<char>, i: int)
    requires
        0 <= i <= s.len(),
    ensures
        reassemble(s, tokens_from(s, i), i) == s.subrange(i, s.len() as int),
        separated_by_whitespace(s, tokens_from(s, i), i),
    decreases s.len() - i,
{
    let start = whitespace_end(s, i);
    lemma_ends(s, i, 'x', false);
    if start < s.len() {
        let end = token_end(s, start);
        lemma_ends(s, start, 'x', false);
        lemma_token_text(s, start);
        lemma_round_trip_from(s, end);
        let toks = tokens_from(s, i);
        assert(toks.drop_first() =~= tokens_from(s, end));
        assert(s.subrange(i, start) + s.subrange(start, end) + s.subrange(end, s.len() as int)
            =~= s.subrange(i, s.len() as int));
    }
}

/// Round trip: the texts of all tokens of a query, with the whitespace that
/// was skipped between them, put the query together again exactly.
pub proof fn lemma_round_trip(s: Seq<char>)
    ensures
        reassemble(s, tokens(s), 0) == s,
        separated_by_whitespace(s, tokens(s), 0),
{
    lemma_round_trip_from(s, 0);
    assert(s.subrange(0, s.len() as int) =~= s);
}

/// A token with the byte offset in the query at which it starts.
#[derive(Debug, Clone, Copy, PartialEq, Eq)]
pub struct Spanned<'a> {
    pub token: TokenType<'a>,
    pub position: usize,
}

/// A token with the byte offset in the query at which it starts.
pub struct Located {
    pub token: Token,
    pub position: int,
}

impl<'a> View for Spanned<'a> {
    type V = Located;

    open spec fn view(&self) -> Located {
        Located { token: self.token@, position: self.position as int }
    }
}

/// The token `l` of the query `s` with its byte offset there.
pub open spec fn located(s: Seq<char>, l: Lexed) -> Located {
    Located { token: l.token, position: utf8_len(s.take(l.start)) as int }
}

/// The tokens of the query `s`, each with its byte offset.
pub open spec fn located_tokens(s: Seq<char>) -> Seq<Located> {
    Seq::new(tokens(s).len(), |k: int| located(s, tokens(s)[k]))
}

/// A single ASCII character takes one byte.
proof fn lemma_ascii_len(c: char)
    requires
        c as u32 <= 0x7f,
    ensures
        utf8_len(seq![c]) == 1,
        utf8_len(seq![c, c]) == 2,
{
    let one = seq![c];
    let two = seq![c, c];
    assert(one.drop_first() =~= Seq::<char>::empty());
    assert(two.drop_first() =~= one);
    assert(encode_utf8(one.drop_first()) =~= Seq::<u8>::empty());
    assert(encode_utf8(one) =~= encode_scalar(c as u32) + encode_utf8(one.drop_first()));
    assert(encode_utf8(two) =~= encode_scalar(c as u32) + encode_utf8(two.drop_first()));
}

impl<'a> TokenType<'a> {
    /// The number of bytes that the token's text takes in the query.
    pub fn byte_len(&self) -> (r: usize)
        ensures
            r == utf8_len(self@.text()),
    {
        proof {
            lemma_ascii_len('/');
            lemma_ascii_len('.');
            lemma_ascii_len('*');
            lemma_ascii_len('[');
            lemma_ascii_len(']');
            lemma_ascii_len('=');
            lemma_ascii_len('|');
        }
        match self {
            TokenType::String(s) => byte_len(s),
            TokenType::Alphanumeric(s) => byte_len(s),
            TokenType::Unknown(s) => byte_len(s),
            TokenType::DoubleSlash => 2,
            TokenType::DoublePoint => 2,
            _ => 1,
        }
    }
}

/// Reads all tokens of `input`, each with the byte offset at which it starts.
pub fn tokenize<'a>(input: &'a str) -> (r: Vec<Spanned<'a>>)
    ensures
        r@.len() == located_tokens(input@).len(),
        forall|k: int| 0 <= k < r@.len() ==> (#[trigger] r@[k])@ == located_tokens(input@)[k],
{
    let ghost s = input@;
    let total = byte_len(input);
    let mut lexer = Lexer { input };
    let mut out: Vec<Spanned<'a>> = Vec::new();
    let ghost mut i: int = 0;
    loop
        invariant_except_break
            0 <= i <= s.len(),
            lexer@ == s.skip(i),
            total == utf8_len(s),
            tokens(s).len() == out@.len() + tokens_from(s, i).len(),
            forall|k: int| 0 <= k < out@.len() ==> (#[trigger] out@[k])@ == located(s, tokens(s)[k]),
            forall|k: int|
                0 <= k < tokens_from(s, i).len() ==> tokens(s)[out@.len() + k] == tokens_from(
                    s,
                    i,
                )[k],
        ensures
            tokens(s).len() == out@.len(),
            forall|k: int| 0 <= k < out@.len() ==> (#[trigger] out@[k])@ == located(s, tokens(s)[k]),
        decreases s.len() - i,
    {
        let ghost rest = s.skip(i);
        let ghost start = whitespace_end(s, i);
        proof {
            lemma_shift(s, i, 0, 'x', false);
            lemma_ends(s, i, 'x', false);
        }
        match lexer.next() {
            None => {
                break ;
            },
            Some(token) => {
                let ghost end = token_end(s, start);
                proof {
                    lemma_ends(s, start, 'x', false);
                    lemma_shift(s, i, start - i, 'x', false);
                    lemma_token_text(s, start);
                    assert(rest.skip(end - i) =~= s.skip(end));
                    assert(s =~= s.take(start) + s.subrange(start, end) + s.skip(end));
                    lemma_encode_concat(s.take(start), s.subrange(start, end));
                    lemma_encode_concat(s.take(start) + s.subrange(start, end), s.skip(end));
                    assert(tokens_from(s, i).drop_first() =~= tokens_from(s, end));
                    assert(tokens_from(s, i)[0] == Lexed {
                        token: token_at(s, start),
                        start,
                        end,
                    });
                    assert forall|k: int| 0 <= k < tokens_from(s, end).len() implies tokens(s)[out@.len()
                        + 1 + k] == tokens_from(s, end)[k] by {
                        assert(tokens_from(s, end)[k] == tokens_from(s, i)[k + 1]);
                    }
                }
                let behind = byte_len(lexer.input);
                let position = total - behind - token.byte_len();
                out.push(Spanned { token, position });
                proof {
                    i = end;
                }
            },
        }
    }
    out
}

} // verus!
