//! The vocabulary of lexical tokens, and how pieces of text are classified
//! into it.

use vstd::prelude::*;

verus! {

/// A classified lexical unit of source text.
#[derive(Debug)]
pub enum Token {
    ILLEGAL,
    EOF,
    /// An identifier, with its lexeme.
    IDENT(String),
    /// An integer literal, with its value.
    INT(u128),
    ASSIGN,
    PLUS,
    MINUS,
    BANG,
    ASTERISK,
    SLASH,
    LT,
    GT,
    EQ,
    NOTEQ,
    COMMA,
    SEMICOLON,
    LPAREN,
    RPAREN,
    LBRACE,
    RBRACE,
    FUNCTION,
    LET,
    TRUE,
    FALSE,
    IF,
    ELSE,
    RETURN,
}

/// What a [`Token`] stands for: the same categories, where an identifier
/// carries its lexeme as a sequence of characters.
pub ghost enum TokenView {
    ILLEGAL,
    EOF,
    /// An identifier, with its lexeme.
    IDENT(Seq<char>),
    /// An integer literal, with its value.
    INT(u128),
    ASSIGN,
    PLUS,
    MINUS,
    BANG,
    ASTERISK,
    SLASH,
    LT,
    GT,
    EQ,
    NOTEQ,
    COMMA,
    SEMICOLON,
    LPAREN,
    RPAREN,
    LBRACE,
    RBRACE,
    FUNCTION,
    LET,
    TRUE,
    FALSE,
    IF,
    ELSE,
    RETURN,
}

impl View for Token {
    type V = TokenView;

    open spec fn view(&self) -> TokenView {
        match self {
            Token::ILLEGAL => TokenView::ILLEGAL,
            Token::EOF => TokenView::EOF,
            Token::IDENT(name) => TokenView::IDENT(name@),
            Token::INT(value) => TokenView::INT(*value),
            Token::ASSIGN => TokenView::ASSIGN,
            Token::PLUS => TokenView::PLUS,
            Token::MINUS => TokenView::MINUS,
            Token::BANG => TokenView::BANG,
            Token::ASTERISK => TokenView::ASTERISK,
            Token::SLASH => TokenView::SLASH,
            Token::LT => TokenView::LT,
            Token::GT => TokenView::GT,
            Token::EQ => TokenView::EQ,
            Token::NOTEQ => TokenView::NOTEQ,
            Token::COMMA => TokenView::COMMA,
            Token::SEMICOLON => TokenView::SEMICOLON,
            Token::LPAREN => TokenView::LPAREN,
            Token::RPAREN => TokenView::RPAREN,
            Token::LBRACE => TokenView::LBRACE,
            Token::RBRACE => TokenView::RBRACE,
            Token::FUNCTION => TokenView::FUNCTION,
            Token::LET => TokenView::LET,
            Token::TRUE => TokenView::TRUE,
            Token::FALSE => TokenView::FALSE,
            Token::IF => TokenView::IF,
            Token::ELSE => TokenView::ELSE,
            Token::RETURN => TokenView::RETURN,
        }
    }
}

impl Clone for Token {
    fn clone(&self) -> (copy: Token)
        ensures
            copy@ == self@,
    {
        match self {
            Token::ILLEGAL => Token::ILLEGAL,
            Token::EOF => Token::EOF,
            Token::IDENT(name) => Token::IDENT(name.clone()),
            Token::INT(value) => Token::INT(*value),
            Token::ASSIGN => Token::ASSIGN,
            Token::PLUS => Token::PLUS,
            Token::MINUS => Token::MINUS,
            Token::BANG => Token::BANG,
            Token::ASTERISK => Token::ASTERISK,
            Token::SLASH => Token::SLASH,
            Token::LT => Token::LT,
            Token::GT => Token::GT,
            Token::EQ => Token::EQ,
            Token::NOTEQ => Token::NOTEQ,
            Token::COMMA => Token::COMMA,
            Token::SEMICOLON => Token::SEMICOLON,
            Token::LPAREN => Token::LPAREN,
            Token::RPAREN => Token::RPAREN,
            Token::LBRACE => Token::LBRACE,
            Token::RBRACE => Token::RBRACE,
            Token::FUNCTION => Token::FUNCTION,
            Token::LET => Token::LET,
            Token::TRUE => Token::TRUE,
            Token::FALSE => Token::FALSE,
            Token::IF => Token::IF,
            Token::ELSE => Token::ELSE,
            Token::RETURN => Token::RETURN,
        }
    }
}

impl PartialEq for Token {
    fn eq(&self, other: &Token) -> (same: bool) {
        match (self, other) {
            (Token::ILLEGAL, Token::ILLEGAL) => true,
            (Token::EOF, Token::EOF) => true,
            (Token::IDENT(a), Token::IDENT(b)) => *a == *b,
            (Token::INT(a), Token::INT(b)) => *a == *b,
            (Token::ASSIGN, Token::ASSIGN) => true,
            (Token::PLUS, Token::PLUS) => true,
            (Token::MINUS, Token::MINUS) => true,
            (Token::BANG, Token::BANG) => true,
            (Token::ASTERISK, Token::ASTERISK) => true,
            (Token::SLASH, Token::SLASH) => true,
            (Token::LT, Token::LT) => true,
            (Token::GT, Token::GT) => true,
            (Token::EQ, Token::EQ) => true,
            (Token::NOTEQ, Token::NOTEQ) => true,
            (Token::COMMA, Token::COMMA) => true,
            (Token::SEMICOLON, Token::SEMICOLON) => true,
            (Token::LPAREN, Token::LPAREN) => true,
            (Token::RPAREN, Token::RPAREN) => true,
            (Token::LBRACE, Token::LBRACE) => true,
            (Token::RBRACE, Token::RBRACE) => true,
            (Token::FUNCTION, Token::FUNCTION) => true,
            (Token::LET, Token::LET) => true,
            (Token::TRUE, Token::TRUE) => true,
            (Token::FALSE, Token::FALSE) => true,
            (Token::IF, Token::IF) => true,
            (Token::ELSE, Token::ELSE) => true,
            (Token::RETURN, Token::RETURN) => true,
            _ => false,
        }
    }
}

impl vstd::std_specs::cmp::PartialEqSpecImpl for Token {
    open spec fn obeys_eq_spec() -> bool {
        true
    }

    open spec fn eq_spec(&self, other: &Token) -> bool {
        self@ == other@
    }
}

/// The token that a punctuation or operator character is by itself, for the
/// characters that are one.
pub open spec fn single_char_token(c: char) -> Option<TokenView> {
    if c == ';' {
        Some(TokenView::SEMICOLON)
    } else if c == '(' {
        Some(TokenView::LPAREN)
    } else if c == ')' {
        Some(TokenView::RPAREN)
    } else if c == '{' {
        Some(TokenView::LBRACE)
    } else if c == '}' {
        Some(TokenView::RBRACE)
    } else if c == ',' {
        Some(TokenView::COMMA)
    } else if c == '+' {
        Some(TokenView::PLUS)
    } else if c == '-' {
        Some(TokenView::MINUS)
    } else if c == '/' {
        Some(TokenView::SLASH)
    } else if c == '*' {
        Some(TokenView::ASTERISK)
    } else if c == '<' {
        Some(TokenView::LT)
    } else if c == '>' {
        Some(TokenView::GT)
    } else {
        None
    }
}

/// The keyword that `text` spells, or the identifier `text`: a keyword always
/// wins over an identifier.
pub open spec fn keyword_or_identifier(text: Seq<char>) -> TokenView {
    if text == "let"@ {
        TokenView::LET
    } else if text == "fn"@ {
        TokenView::FUNCTION
    } else if text == "true"@ {
        TokenView::TRUE
    } else if text == "false"@ {
        TokenView::FALSE
    } else if text == "if"@ {
        TokenView::IF
    } else if text == "else"@ {
        TokenView::ELSE
    } else if text == "return"@ {
        TokenView::RETURN
    } else {
        TokenView::IDENT(text)
    }
}

/// Whether `c` is one of the decimal digits `0` to `9`.
pub open spec fn is_digit(c: char) -> bool {
    '0' <= c <= '9'
}

/// Whether every character of `text` is a decimal digit.
pub open spec fn all_digits(text: Seq<char>) -> bool {
    forall|i: int| 0 <= i < text.len() ==> is_digit(#[trigger] text[i])
}

/// The number that a decimal digit stands for; 0 for any other character.
pub open spec fn digit_value(c: char) -> nat {
    if is_digit(c) {
        (c as int - '0' as int) as nat
    } else {
        0
    }
}

/// The number that the digits of `digits` write in base ten, the last digit
/// counting least.
pub open spec fn decimal_value(digits: Seq<char>) -> nat
    decreases digits.len(),
{
    if digits.len() == 0 {
        0
    } else {
        10 * decimal_value(digits.drop_last()) + digit_value(digits.last())
    }
}

/// The digits of a numeral: `text` itself, or what follows its leading `+`.
pub open spec fn numeral_digits(text: Seq<char>) -> Seq<char> {
    if text.len() > 0 && text[0] == '+' {
        text.skip(1)
    } else {
        text
    }
}

/// Whether `text` is a numeral: one or more decimal digits, which a single
/// `+` may precede.
pub open spec fn is_numeral(text: Seq<char>) -> bool {
    numeral_digits(text).len() > 0 && all_digits(numeral_digits(text))
}

/// The token of an integer literal written as `text`: its value where `text`
/// is a numeral whose value fits in 128 bits, and `ILLEGAL` otherwise.
pub open spec fn integer_token(text: Seq<char>) -> TokenView {
    if is_numeral(text) && decimal_value(numeral_digits(text)) <= u128::MAX {
        TokenView::INT(decimal_value(numeral_digits(text)) as u128)
    } else {
        TokenView::ILLEGAL
    }
}

/// Whether `text` spells `word`.
fn is_text(text: &str, word: &str) -> (same: bool)
    ensures
        same == (text@ == word@),
{
    let n = text.unicode_len();
    if n != word.unicode_len() {
        return false;
    }
    let mut i: usize = 0;
    while i < n
        invariant
            n == text@.len(),
            n == word@.len(),
            i <= n,
            forall|j: int| 0 <= j < i ==> text@[j] == word@[j],
        decreases n - i,
    {
        if text.get_char(i) != word.get_char(i) {
            return false;
        }
        i += 1;
    }
    assert(text@ =~= word@);
    true
}

impl Token {
    /// Classifies a character that is a token by itself; `None` says that
    /// `char_literal` is no such character.
    pub fn from_char(char_literal: char) -> (token: Option<Token>)
        ensures
            match token {
                Some(token) => single_char_token(char_literal) == Some(token@),
                None => single_char_token(char_literal) is None,
            },
    {
        match char_literal {
            ';' => Some(Token::SEMICOLON),
            '(' => Some(Token::LPAREN),
            ')' => Some(Token::RPAREN),
            '{' => Some(Token::LBRACE),
            '}' => Some(Token::RBRACE),
            ',' => Some(Token::COMMA),
            '+' => Some(Token::PLUS),
            '-' => Some(Token::MINUS),
            '/' => Some(Token::SLASH),
            '*' => Some(Token::ASTERISK),
            '<' => Some(Token::LT),
            '>' => Some(Token::GT),
            _ => None,
        }
    }

    /// Classifies a word: the keyword it spells, or else an identifier that
    /// owns it.
    pub fn from_identifier(identifier: String) -> (token: Token)
        ensures
            token@ == keyword_or_identifier(identifier@),
    {
        if is_text(identifier.as_str(), "let") {
            Token::LET
        } else if is_text(identifier.as_str(), "fn") {
            Token::FUNCTION
        } else if is_text(identifier.as_str(), "true") {
            Token::TRUE
        } else if is_text(identifier.as_str(), "false") {
            Token::FALSE
        } else if is_text(identifier.as_str(), "if") {
            Token::IF
        } else if is_text(identifier.as_str(), "else") {
            Token::ELSE
        } else if is_text(identifier.as_str(), "return") {
            Token::RETURN
        } else {
            Token::IDENT(identifier)
        }
    }

    /// Reads an integer literal: the token `INT` with the value of
    /// `interger` where that is a numeral whose value fits, and `ILLEGAL`
    /// for any other text.
    pub fn from_interger_string(interger: String) -> (token: Token)
        ensures
            token@ == integer_token(interger@),
    {
        let mut value: u128 = 0;
        let mut in_range = true;
        let mut only_digits = true;
        let mut nonempty = false;
        let mut at_start = true;
        let ghost mut read: Seq<char> = Seq::empty();
        for c in it: interger.as_str().chars()
            invariant
                it.seq() == interger@,
                read == it.seq().take(it.index() as int),
                at_start == (read.len() == 0),
                nonempty == (numeral_digits(read).len() > 0),
                only_digits == all_digits(numeral_digits(read)),
                only_digits && in_range ==> value == decimal_value(numeral_digits(read)),
                only_digits && !in_range ==> decimal_value(numeral_digits(read)) > u128::MAX,
        {
            let ghost before = read;
            proof {
                read = read.push(c);
                if before.len() > 0 {
                    assert(numeral_digits(read) == numeral_digits(before).push(c));
                    assert(numeral_digits(read).drop_last() == numeral_digits(before));
                } else if c == '+' {
                    assert(numeral_digits(read) == Seq::<char>::empty());
                } else {
                    assert(numeral_digits(read) == seq![c]);
                    assert(numeral_digits(read).drop_last() == numeral_digits(before));
                }
            }
            if at_start && c == '+' {
                // The sign: no digit of the numeral yet.
            } else if c >= '0' && c <= '9' {
                nonempty = true;
                if in_range {
                    let digit: u128 = (c as u32 - '0' as u32) as u128;
                    let next = match value.checked_mul(10) {
                        Some(shifted) => shifted.checked_add(digit),
                        None => None,
                    };
                    match next {
                        Some(sum) => {
                            value = sum;
                        },
                        None => {
                            in_range = false;
                        },
                    }
                }
                proof {
                    if only_digits {
                        assert forall|i: int| 0 <= i < numeral_digits(read).len() implies is_digit(
                            #[trigger] numeral_digits(read)[i],
                        ) by {
                            if i < numeral_digits(before).len() {
                                assert(numeral_digits(read)[i] == numeral_digits(before)[i]);
                            }
                        }
                    } else {
                        let bad = choose|i: int|
                            0 <= i < numeral_digits(before).len() && !is_digit(
                                #[trigger] numeral_digits(before)[i],
                            );
                        assert(numeral_digits(read)[bad] == numeral_digits(before)[bad]);
                    }
                }
            } else {
                nonempty = true;
                only_digits = false;
                proof {
                    assert(numeral_digits(read).last() == c);
                }
            }
            at_start = false;
        }
        assert(read == interger@);
        if only_digits && in_range && nonempty {
            Token::INT(value)
        } else {
            Token::ILLEGAL
        }
    }
}

} // verus!
