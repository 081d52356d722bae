//! The scanner: from a text to its tokens, one at a time.

use crate::token::{
    integer_token, is_digit, keyword_or_identifier, single_char_token, Token, TokenView,
};
use vstd::prelude::*;

verus! {

/// Whether `c` separates tokens without being one: a space, a tab, a line
/// feed or a carriage return.
pub open spec fn is_whitespace(c: char) -> bool {
    c == ' ' || c == '\t' || c == '\n' || c == '\r'
}

/// Whether `c` may stand in an identifier or a keyword: a letter of the
/// English alphabet or an underscore.
pub open spec fn is_letter(c: char) -> bool {
    'a' <= c <= 'z' || 'A' <= c <= 'Z' || c == '_'
}

/// The classes of characters of which the scanner reads whole runs.
pub ghost enum CharClass {
    Whitespace,
    Letter,
    Digit,
}

impl CharClass {
    /// Whether `c` belongs to the class.
    pub open spec fn has(self, c: char) -> bool {
        match self {
            CharClass::Whitespace => is_whitespace(c),
            CharClass::Letter => is_letter(c),
            CharClass::Digit => is_digit(c),
        }
    }
}

/// Where the longest run of characters of `class` that begins at `start`
/// ends: the index of the first character from `start` on that is not of
/// the class, or the end of the text.
pub open spec fn run_end(text: Seq<char>, start: nat, class: CharClass) -> nat
    decreases text.len() - start,
{
    if start < text.len() && class.has(text[start as int]) {
        run_end(text, start + 1, class)
    } else {
        start
    }
}

/// The token that begins at the first character from `cursor` on that is
/// not whitespace, and the index just behind that token. Where only
/// whitespace is left the token is `EOF`.
pub open spec fn scan_token(text: Seq<char>, cursor: nat) -> (TokenView, nat) {
    let start = run_end(text, cursor, CharClass::Whitespace);
    if start >= text.len() {
        (TokenView::EOF, start)
    } else {
        let c = text[start as int];
        if single_char_token(c) is Some {
            (single_char_token(c)->0, start + 1)
        } else if c == '=' {
            if start + 1 < text.len() && text[(start + 1) as int] == '=' {
                (TokenView::EQ, start + 2)
            } else {
                (TokenView::ASSIGN, start + 1)
            }
        } else if c == '!' {
            if start + 1 < text.len() && text[(start + 1) as int] == '=' {
                (TokenView::NOTEQ, start + 2)
            } else {
                (TokenView::BANG, start + 1)
            }
        } else if is_letter(c) {
            let end = run_end(text, start, CharClass::Letter);
            (keyword_or_identifier(text.subrange(start as int, end as int)), end)
        } else if is_digit(c) {
            let end = run_end(text, start, CharClass::Digit);
            (integer_token(text.subrange(start as int, end as int)), end)
        } else {
            (TokenView::ILLEGAL, start + 1)
        }
    }
}

/// The tokens of `text` from `cursor` on, in source order, up to the end of
/// the text; the closing `EOF` is not among them.
pub open spec fn tokens_from(text: Seq<char>, cursor: nat) -> Seq<TokenView>
    decreases text.len() - cursor,
{
    let (token, end) = scan_token(text, cursor);
    if token is EOF {
        Seq::empty()
    } else {
        proof {
            lemma_scan_token_bounds(text, cursor);
        }
        seq![token] + tokens_from(text, end)
    }
}

/// The tokens of a whole text.
pub open spec fn tokenize(text: Seq<char>) -> Seq<TokenView> {
    tokens_from(text, 0)
}

/// A run ends at or behind its start and within the text; all that lies
/// between is of the class, and what follows the run is not.
pub proof fn lemma_run_end(text: Seq<char>, start: nat, class: CharClass)
    ensures
        start <= run_end(text, start, class),
        start <= text.len() ==> run_end(text, start, class) <= text.len(),
        forall|i: int| start <= i < run_end(text, start, class) ==> class.has(#[trigger] text[i]),
        run_end(text, start, class) < text.len() ==> !class.has(
            text[run_end(text, start, class) as int],
        ),
    decreases text.len() - start,
{
    if start < text.len() && class.has(text[start as int]) {
        lemma_run_end(text, start + 1, class);
    }
}

/// The scanner never moves backwards and never leaves the text; a token
/// other than `EOF` takes at least one character, and `EOF` is given only
/// at the end of the text.
pub proof fn lemma_scan_token_bounds(text: Seq<char>, cursor: nat)
    ensures
        cursor <= scan_token(text, cursor).1,
        cursor <= text.len() ==> scan_token(text, cursor).1 <= text.len(),
        !(scan_token(text, cursor).0 is EOF) ==> cursor < scan_token(text, cursor).1,
        scan_token(text, cursor).0 is EOF ==> scan_token(text, cursor).1 >= text.len(),
{
    let start = run_end(text, cursor, CharClass::Whitespace);
    lemma_run_end(text, cursor, CharClass::Whitespace);
    if start < text.len() {
        lemma_run_end(text, start, CharClass::Letter);
        lemma_run_end(text, start, CharClass::Digit);
        lemma_run_end(text, start + 1, CharClass::Letter);
        lemma_run_end(text, start + 1, CharClass::Digit);
    }
}

/// Once the scanner has given `EOF`, it gives `EOF` again whenever it is
/// asked and stays where it is.
pub proof fn lemma_eof_is_final(text: Seq<char>, cursor: nat)
    requires
        scan_token(text, cursor).0 is EOF,
    ensures
        scan_token(text, scan_token(text, cursor).1) == scan_token(text, cursor),
        cursor <= text.len() ==> scan_token(text, cursor).1 == text.len(),
{
    lemma_scan_token_bounds(text, cursor);
    lemma_run_end(text, cursor, CharClass::Whitespace);
}

/// `EOF` closes the tokens of a text and is not among them.
pub proof fn lemma_tokens_hold_no_eof(text: Seq<char>, cursor: nat)
    ensures
        forall|i: int|
            0 <= i < tokens_from(text, cursor).len() ==> !(#[trigger] tokens_from(text, cursor)[i]
                is EOF),
    decreases text.len() - cursor,
{
    let (token, end) = scan_token(text, cursor);
    if !(token is EOF) {
        lemma_scan_token_bounds(text, cursor);
        lemma_tokens_hold_no_eof(text, end);
    }
}

/// An identifier is never empty and never a keyword: its lexeme is the
/// whole of a run of letters and underscores that spells none.
pub proof fn lemma_identifier_is_a_run_of_letters(text: Seq<char>, cursor: nat)
    ensures
        scan_token(text, cursor).0 matches TokenView::IDENT(name) ==> {
            &&& name.len() > 0
            &&& forall|i: int| 0 <= i < name.len() ==> is_letter(#[trigger] name[i])
            &&& keyword_or_identifier(name) == TokenView::IDENT(name)
            &&& name == text.subrange(
                scan_token(text, cursor).1 - name.len(),
                scan_token(text, cursor).1 as int,
            )
        },
{
    let start = run_end(text, cursor, CharClass::Whitespace);
    lemma_run_end(text, cursor, CharClass::Whitespace);
    if start < text.len() {
        lemma_run_end(text, start, CharClass::Letter);
        lemma_run_end(text, start + 1, CharClass::Letter);
    }
}

/// A scanner over one text. It owns the text and a cursor into it, and hands
/// out the tokens one by one.
pub struct Lexer {
    input: String,
    chars: Vec<char>,
    position: usize,
}

/// What a [`Lexer`] stands for: the text it scans and how many of its
/// characters it has left behind.
pub ghost struct LexerView {
    pub source: Seq<char>,
    pub cursor: nat,
}

impl View for Lexer {
    type V = LexerView;

    closed spec fn view(&self) -> LexerView {
        LexerView { source: self.chars@, cursor: self.position as nat }
    }
}

impl Lexer {
    #[verifier::type_invariant]
    spec fn well_formed(self) -> bool {
        &&& self.chars@ == self.input@
        &&& self.position <= self.chars.len()
    }

    /// The tokens that the scanner has yet to give, `EOF` left out.
    pub open spec fn pending(&self) -> Seq<TokenView> {
        tokens_from(self@.source, self@.cursor)
    }

    /// A scanner at the beginning of `input`.
    pub fn new(input: String) -> (lexer: Lexer)
        ensures
            lexer@ == (LexerView { source: input@, cursor: 0 }),
    {
        let mut chars: Vec<char> = Vec::new();
        for c in it: input.as_str().chars()
            invariant
                it.seq() == input@,
                chars@ == it.seq().take(it.index() as int),
        {
            chars.push(c);
        }
        assert(chars@ == input@);
        Lexer { input, chars, position: 0 }
    }

    /// The text that is scanned.
    pub fn input(&self) -> (text: &String)
        ensures
            text@ == self@.source,
    {
        proof {
            use_type_invariant(self);
        }
        &self.input
    }

    /// The character under examination; `None` once the text is exhausted.
    pub fn ch(&self) -> (c: Option<char>)
        ensures
            c == if self@.cursor < self@.source.len() {
                Some(self@.source[self@.cursor as int])
            } else {
                None
            },
    {
        if self.position < self.chars.len() {
            Some(self.chars[self.position])
        } else {
            None
        }
    }

    /// The index of the character under examination; `None` once the text
    /// is exhausted.
    pub fn position(&self) -> (index: Option<usize>)
        ensures
            index == if self@.cursor < self@.source.len() {
                Some(self@.cursor as usize)
            } else {
                None
            },
    {
        if self.position < self.chars.len() {
            Some(self.position)
        } else {
            None
        }
    }

    /// The index at which reading goes on behind the character under
    /// examination; `None` once the text is exhausted.
    pub fn read_position(&self) -> (index: Option<usize>)
        ensures
            index == if self@.cursor < self@.source.len() {
                Some((self@.cursor + 1) as usize)
            } else {
                None
            },
    {
        if self.position < self.chars.len() {
            Some(self.position + 1)
        } else {
            None
        }
    }

    /// Moves on to the next character, unless the text is exhausted.
    fn read_char(&mut self)
        ensures
            final(self)@.source == old(self)@.source,
            final(self)@.cursor == if old(self)@.cursor < old(self)@.source.len() {
                old(self)@.cursor + 1
            } else {
                old(self)@.cursor
            },
    {
        proof {
            use_type_invariant(&*self);
        }
        if self.position < self.chars.len() {
            self.position = self.position + 1;
        }
    }

    /// The character behind the one under examination, which stays where it
    /// is.
    fn peek_char(&self) -> (c: Option<char>)
        ensures
            c == if self@.cursor + 1 < self@.source.len() {
                Some(self@.source[(self@.cursor + 1) as int])
            } else {
                None
            },
    {
        if self.position < self.chars.len() && self.position + 1 < self.chars.len() {
            Some(self.chars[self.position + 1])
        } else {
            None
        }
    }

    /// Leaves behind the whitespace at the cursor.
    fn skip_whitespace(&mut self)
        ensures
            final(self)@.source == old(self)@.source,
            final(self)@.cursor == run_end(
                old(self)@.source,
                old(self)@.cursor,
                CharClass::Whitespace,
            ),
    {
        loop
            invariant
                self@.source == old(self)@.source,
                run_end(self@.source, self@.cursor, CharClass::Whitespace) == run_end(
                    old(self)@.source,
                    old(self)@.cursor,
                    CharClass::Whitespace,
                ),
            ensures
                self@.source == old(self)@.source,
                self@.cursor == run_end(
                    old(self)@.source,
                    old(self)@.cursor,
                    CharClass::Whitespace,
                ),
            decreases self@.source.len() - self@.cursor,
        {
            match self.ch() {
                Some(c) if c == ' ' || c == '\t' || c == '\n' || c == '\r' => {
                    self.read_char();
                },
                _ => {
                    break ;
                },
            }
        }
    }

    /// Reads the run of digits at the cursor and hands out its text.
    fn read_integer(&mut self) -> (lexeme: String)
        ensures
            final(self)@.source == old(self)@.source,
            final(self)@.cursor == run_end(old(self)@.source, old(self)@.cursor, CharClass::Digit),
            lexeme@ == old(self)@.source.subrange(
                old(self)@.cursor as int,
                final(self)@.cursor as int,
            ),
    {
        let start = self.position;
        loop
            invariant
                self@.source == old(self)@.source,
                old(self)@.cursor <= self@.cursor,
                start == old(self)@.cursor,
                run_end(self@.source, self@.cursor, CharClass::Digit) == run_end(
                    old(self)@.source,
                    old(self)@.cursor,
                    CharClass::Digit,
                ),
            ensures
                self@.source == old(self)@.source,
                old(self)@.cursor <= self@.cursor,
                start == old(self)@.cursor,
                self@.cursor == run_end(old(self)@.source, old(self)@.cursor, CharClass::Digit),
            decreases self@.source.len() - self@.cursor,
        {
            match self.ch() {
                Some(c) if c >= '0' && c <= '9' => {
                    self.read_char();
                },
                _ => {
                    break ;
                },
            }
        }
        proof {
            use_type_invariant(&*self);
        }
        self.input.as_str().substring_char(start, self.position).to_owned()
    }

    /// Reads the run of letters at the cursor and hands out its text.
    fn read_identifier(&mut self) -> (lexeme: String)
        ensures
            final(self)@.source == old(self)@.source,
            final(self)@.cursor == run_end(old(self)@.source, old(self)@.cursor, CharClass::Letter),
            lexeme@ == old(self)@.source.subrange(
                old(self)@.cursor as int,
                final(self)@.cursor as int,
            ),
    {
        let start = self.position;
        loop
            invariant
                self@.source == old(self)@.source,
                old(self)@.cursor <= self@.cursor,
                start == old(self)@.cursor,
                run_end(self@.source, self@.cursor, CharClass::Letter) == run_end(
                    old(self)@.source,
                    old(self)@.cursor,
                    CharClass::Letter,
                ),
            ensures
                self@.source == old(self)@.source,
                old(self)@.cursor <= self@.cursor,
                start == old(self)@.cursor,
                self@.cursor == run_end(old(self)@.source, old(self)@.cursor, CharClass::Letter),
            decreases self@.source.len() - self@.cursor,
        {
            match self.ch() {
                Some(c) if (c >= 'a' && c <= 'z') || (c >= 'A' && c <= 'Z') || c == '_' => {
                    self.read_char();
                },
                _ => {
                    break ;
                },
            }
        }
        proof {
            use_type_invariant(&*self);
        }
        self.input.as_str().substring_char(start, self.position).to_owned()
    }

    /// Gives the next token and moves the cursor behind it. Whitespace before
    /// the token is left behind with it. At the end of the text the token is
    /// `EOF`, and the cursor stays at the end.
    pub fn next_token(&mut self) -> (token: Token)
        ensures
            final(self)@.source == old(self)@.source,
            (token@, final(self)@.cursor) == scan_token(old(self)@.source, old(self)@.cursor),
            old(self)@.cursor <= final(self)@.cursor <= final(self)@.source.len(),
            token@ is EOF ==> final(self)@.cursor == final(self)@.source.len(),
            old(self)@.cursor == old(self)@.source.len() ==> token@ is EOF && final(self)@ == old(
                self,
            )@,
    {
        proof {
            use_type_invariant(&*self);
            lemma_scan_token_bounds(self@.source, self@.cursor);
        }
        self.skip_whitespace();
        let token = match self.ch() {
            None => Token::EOF,
            Some(c) => match Token::from_char(c) {
                Some(token) => token,
                None => if c == '=' {
                    match self.peek_char() {
                        Some('=') => {
                            self.read_char();
                            Token::EQ
                        },
                        _ => Token::ASSIGN,
                    }
                } else if c == '!' {
                    match self.peek_char() {
                        Some('=') => {
                            self.read_char();
                            Token::NOTEQ
                        },
                        _ => Token::BANG,
                    }
                } else if (c >= 'a' && c <= 'z') || (c >= 'A' && c <= 'Z') || c == '_' {
                    return Token::from_identifier(self.read_identifier());
                } else if c >= '0' && c <= '9' {
                    return Token::from_interger_string(self.read_integer());
                } else {
                    Token::ILLEGAL
                },
            },
        };
        self.read_char();
        token
    }
}

} // verus!
