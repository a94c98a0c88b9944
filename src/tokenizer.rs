//! The scanner: a cursor over the source that yields one token per call.
use vstd::prelude::*;

use crate::grammar::{
    Step, alnum_run, comment_end, consumes_in_order, digit_run, has_at, is_alnum, is_alpha,
    is_digit, is_quote, keyword_kind, lemma_keyword, lemma_keyword_starts, lemma_line_step,
    lemma_newlines_bound, lemma_run_bounds, lemma_skip_bounds, lemma_skip_stops,
    lemma_step_bounds, lemma_steps_consume, line_at, number_end, quote_end, scan_all, scan_step,
    skip_end, steps_from, unterminated_message,
};
use crate::token::{Token, TokenType};

verus! {

/// Relies on String::push: the character is appended at the end.
#[verifier::external_body]
fn push_char(s: &mut String, c: char)
    ensures
        final(s)@ == old(s)@.push(c),
{
    s.push(c);
}

/// Whether `c` is a decimal digit.
fn is_digit_char(c: char) -> (r: bool)
    ensures
        r == is_digit(c),
{
    '0' <= c && c <= '9'
}

/// Whether `c` can start an identifier: an ASCII letter or an underscore.
fn is_alpha_char(c: char) -> (r: bool)
    ensures
        r == is_alpha(c),
{
    ('a' <= c && c <= 'z') || ('A' <= c && c <= 'Z') || c == '_'
}

/// Whether `c` can continue an identifier.
fn is_alnum_char(c: char) -> (r: bool)
    ensures
        r == is_alnum(c),
{
    is_digit_char(c) || is_alpha_char(c)
}

/// Used to tokenize (transform into single tokens) source code in the
/// Elysabettian programming language.
pub struct Tokenizer {
    source: Vec<char>,
    start: usize,
    current: usize,
    line: i32,
}

impl Tokenizer {
    /// The source text, as characters.
    pub closed spec fn text(&self) -> Seq<char> {
        self.source@
    }

    /// The scan cursor: how many characters have been consumed.
    pub closed spec fn cursor(&self) -> int {
        self.current as int
    }

    /// The cursors lie within the source, and the line counter is the line
    /// on which the consumed text ends.
    pub closed spec fn wf(&self) -> bool {
        &&& self.start <= self.current <= self.source@.len()
        &&& self.source@.len() < i32::MAX
        &&& self.line == line_at(self.source@, self.current as int)
    }

    /// Creates a new Tokenizer for this block of code, at its start.
    pub fn new(source: &String) -> (r: Tokenizer)
        requires
            source@.len() < i32::MAX,
        ensures
            r.wf(),
            r.text() == source@,
            r.cursor() == 0,
    {
        let mut chars: Vec<char> = Vec::new();
        for c in it: source.as_str().chars()
            invariant
                chars@ == it.seq().take(it.index() as int),
        {
            chars.push(c);
        }
        assert(chars@ =~= source@);
        assert(source@.take(0) =~= Seq::<char>::empty());
        Tokenizer { source: chars, start: 0, current: 0, line: 1 }
    }

    /// Skips blank space and comments, then recognizes and returns the next
    /// token. At the end of input the token is `Eof`, again on every later
    /// call.
    pub fn get_token(&mut self) -> (r: Token)
        requires
            old(self).wf(),
        ensures
            final(self).wf(),
            final(self).text() == old(self).text(),
            final(self).cursor() == scan_step(old(self).text(), old(self).cursor()).end,
            r.token_type == scan_step(old(self).text(), old(self).cursor()).kind,
            r.text@ == scan_step(old(self).text(), old(self).cursor()).text,
            r.line == line_at(old(self).text(), final(self).cursor()),
            old(self).cursor() <= final(self).cursor(),
            r.token_type != TokenType::Eof ==> old(self).cursor() < final(self).cursor(),
    {
        let ghost s = self.source@;
        proof {
            lemma_step_bounds(s, self.current as int);
            lemma_skip_bounds(s, self.current as int);
            lemma_skip_stops(s, self.current as int);
        }
        // Skip all blank space and comments.
        self.skip_whitespaces();
        self.start = self.current;
        if self.is_at_end() {
            assert(s.subrange(self.start as int, self.current as int) =~= Seq::<char>::empty());
            return self.make_token(TokenType::Eof);
        }
        proof {
            lemma_line_step(s, self.current as int);
            lemma_run_bounds(s, self.current + 1, s[self.current as int]);
        }
        let c = self.advance();
        if is_digit_char(c) {
            return self.number();
        }
        if is_alpha_char(c) {
            return self.identifier();
        }
        if c == '"' || c == '\'' {
            return self.string(c);
        }
        let token_type = match c {
            '(' => TokenType::OpenParen,
            ')' => TokenType::CloseParen,
            '[' => TokenType::OpenSquare,
            ']' => TokenType::CloseSquare,
            '{' => TokenType::OpenCurly,
            '}' => TokenType::CloseCurly,
            ';' => TokenType::Semicolon,
            ',' => TokenType::Comma,
            '.' => TokenType::Dot,
            '-' => TokenType::Minus,
            '+' => TokenType::Plus,
            '/' => TokenType::Slash,
            '*' => TokenType::Star,
            '^' => TokenType::BwXor,
            '~' => TokenType::BwNot,
            '&' => if self.match_token('&') {
                TokenType::And
            } else {
                TokenType::BwAnd
            },
            '|' => if self.match_token('|') {
                TokenType::Or
            } else {
                TokenType::BwOr
            },
            '!' => if self.match_token('=') {
                TokenType::ExclEqual
            } else {
                TokenType::Excl
            },
            '=' => if self.match_token('=') {
                TokenType::EqualEqual
            } else {
                TokenType::Equal
            },
            '<' => if self.match_token('=') {
                TokenType::LessEqual
            } else if self.match_token('<') {
                TokenType::LessLess
            } else {
                TokenType::Less
            },
            '>' => if self.match_token('=') {
                TokenType::GreaterEqual
            } else if self.match_token('>') {
                TokenType::GreaterGreater
            } else {
                TokenType::Greater
            },
            _ => {
                return self.error_token("Unexpected character!");
            },
        };
        proof {
            if self.current == self.start + 2 {
                lemma_line_step(s, self.start + 1);
            }
        }
        self.make_token(token_type)
    }

    /// Checks if the tokenizer has reached the end of the source code.
    fn is_at_end(&self) -> (r: bool)
        requires
            self.current <= self.source@.len(),
        ensures
            r == (self.current == self.source@.len()),
    {
        self.current == self.source.len()
    }

    /// Advances the tokenizer by one character and returns that character.
    fn advance(&mut self) -> (r: char)
        requires
            old(self).current < old(self).source@.len() < i32::MAX,
        ensures
            r == old(self).source@[old(self).current as int],
            final(self).current == old(self).current + 1,
            final(self).source == old(self).source,
            final(self).start == old(self).start,
            final(self).line == old(self).line,
    {
        let c = self.source[self.current];
        self.current = self.current + 1;
        c
    }

    /// Returns the character in the current position, or NUL at the end.
    fn peek(&self) -> (r: char)
        requires
            self.current <= self.source@.len(),
        ensures
            r == if self.current < self.source@.len() {
                self.source@[self.current as int]
            } else {
                '\0'
            },
    {
        if self.is_at_end() {
            return '\0';
        }
        self.source[self.current]
    }

    /// Returns the character in the next position, or NUL past the end.
    fn peek_next(&self) -> (r: char)
        requires
            self.current <= self.source@.len() < i32::MAX,
        ensures
            r == if self.current + 1 < self.source@.len() {
                self.source@[self.current + 1]
            } else {
                '\0'
            },
    {
        if self.current + 1 >= self.source.len() {
            return '\0';
        }
        self.source[self.current + 1]
    }

    /// Consumes the current character when it is `expected`.
    fn match_token(&mut self, expected: char) -> (r: bool)
        requires
            old(self).current <= old(self).source@.len() < i32::MAX,
        ensures
            r == has_at(old(self).source@, old(self).current as int, expected),
            final(self).current == old(self).current + if r {
                1int
            } else {
                0int
            },
            final(self).source == old(self).source,
            final(self).start == old(self).start,
            final(self).line == old(self).line,
    {
        if self.is_at_end() {
            return false;
        }
        if self.source[self.current] != expected {
            return false;
        }
        self.current = self.current + 1;
        true
    }

    /// Creates a token of the given type from the characters between the
    /// lexeme start and the scan cursor.
    fn make_token(&self, token_type: TokenType) -> (r: Token)
        requires
            self.start <= self.current <= self.source@.len(),
        ensures
            r.token_type == token_type,
            r.text@ == self.source@.subrange(self.start as int, self.current as int),
            r.line == self.line,
    {
        let mut text = String::new();
        let mut i: usize = self.start;
        while i < self.current
            invariant
                self.start <= i <= self.current <= self.source@.len(),
                text@ == self.source@.subrange(self.start as int, i as int),
            decreases self.current - i,
        {
            push_char(&mut text, self.source[i]);
            i = i + 1;
            assert(text@ =~= self.source@.subrange(self.start as int, i as int));
        }
        Token::new(token_type, &text, self.line)
    }

    /// Creates a new Token with an error message and the current line.
    fn error_token(&self, message: &str) -> (r: Token)
        ensures
            r.token_type == TokenType::Error,
            r.text@ == message@,
            r.line == self.line,
    {
        Token::new(TokenType::Error, &message.to_owned(), self.line)
    }

    /// Skips blank space and single-line comments; the newlines skipped
    /// are counted.
    fn skip_whitespaces(&mut self)
        requires
            old(self).wf(),
        ensures
            final(self).wf(),
            final(self).source == old(self).source,
            final(self).start == old(self).start,
            final(self).current == skip_end(old(self).source@, old(self).current as int),
    {
        let ghost s = self.source@;
        loop
            invariant
                self.wf(),
                self.source@ == s,
                self.source == old(self).source,
                self.start == old(self).start,
                skip_end(s, self.current as int) == skip_end(s, old(self).current as int),
            decreases s.len() - self.current,
        {
            let c = self.peek();
            if c == ' ' || c == '\r' || c == '\t' {
                proof {
                    lemma_line_step(s, self.current as int);
                }
                let _ = self.advance();
            } else if c == '\n' {
                proof {
                    lemma_line_step(s, self.current as int);
                    lemma_newlines_bound(s.take(self.current as int));
                }
                self.line = self.line + 1;
                let _ = self.advance();
            } else if c == '/' {
                if self.peek_next() != '/' {
                    return;
                }
                // The comment runs from the two slashes to the end of the line.
                proof {
                    lemma_line_step(s, self.current as int);
                    lemma_line_step(s, self.current + 1);
                }
                let ghost before = self.current;
                let _ = self.advance();
                let _ = self.advance();
                while self.peek() != '\n' && !self.is_at_end()
                    invariant
                        self.wf(),
                        self.source@ == s,
                        self.source == old(self).source,
                        self.start == old(self).start,
                        before < self.current,
                        comment_end(s, self.current as int) == skip_end(
                            s,
                            old(self).current as int,
                        ),
                    decreases s.len() - self.current,
                {
                    proof {
                        lemma_line_step(s, self.current as int);
                    }
                    let _ = self.advance();
                }
            } else {
                return;
            }
        }
    }

    /// Checks whether the lexeme, from position `pos` on, is exactly `rest`:
    /// then it is of the keyword type `token_type`, else an identifier.
    fn check_keyword(&self, pos: usize, rest: &str, token_type: TokenType) -> (r: TokenType)
        requires
            self.start <= self.current <= self.source@.len(),
            pos <= self.current - self.start,
        ensures
            r == if self.current - self.start == pos + rest@.len() && self.source@.subrange(
                self.start + pos,
                self.current as int,
            ) == rest@ {
                token_type
            } else {
                TokenType::Identifier
            },
    {
        let n = rest.unicode_len();
        if self.current - self.start - pos != n {
            return TokenType::Identifier;
        }
        let ghost w = self.source@.subrange(self.start + pos, self.current as int);
        let mut i: usize = 0;
        while i < n
            invariant
                0 <= i <= n,
                n == rest@.len(),
                self.start + pos + n == self.current <= self.source@.len(),
                w == self.source@.subrange(self.start + pos, self.current as int),
                forall|j: int| 0 <= j < i ==> w[j] == rest@[j],
            decreases n - i,
        {
            if self.source[self.start + pos + i] != rest.get_char(i) {
                return TokenType::Identifier;
            }
            i = i + 1;
        }
        assert(w =~= rest@);
        token_type
    }

    /// Finds the type of the identifier between the lexeme start and the
    /// scan cursor: a keyword is recognized by its first character (and, for
    /// `f` and `t`, its second), then by the exact rest of it.
    fn identifier_type(&self) -> (r: TokenType)
        requires
            self.start < self.current <= self.source@.len(),
        ensures
            r == keyword_kind(self.source@.subrange(self.start as int, self.current as int)),
    {
        let ghost s = self.source@;
        let ghost a = self.start as int;
        let ghost b = self.current as int;
        let c = self.source[self.start];
        proof {
            if keyword_kind(s.subrange(a, b)) != TokenType::Identifier {
                lemma_keyword_starts(s.subrange(a, b));
            }
        }
        match c {
            'c' => {
                proof {
                    reveal_strlit("lass");
                    lemma_keyword(s, a, b, seq!['c', 'l', 'a', 's', 's'], 1, "lass"@);
                }
                self.check_keyword(1, "lass", TokenType::Class)
            },
            'e' => {
                proof {
                    reveal_strlit("lse");
                    lemma_keyword(s, a, b, seq!['e', 'l', 's', 'e'], 1, "lse"@);
                }
                self.check_keyword(1, "lse", TokenType::Else)
            },
            'f' => {
                if self.current - self.start > 1 {
                    let m = self.source[self.start + 1];
                    match m {
                        'a' => {
                            proof {
                                reveal_strlit("lse");
                                lemma_keyword(s, a, b, seq!['f', 'a', 'l', 's', 'e'], 2, "lse"@);
                            }
                            self.check_keyword(2, "lse", TokenType::False)
                        },
                        'o' => {
                            proof {
                                reveal_strlit("r");
                                lemma_keyword(s, a, b, seq!['f', 'o', 'r'], 2, "r"@);
                            }
                            self.check_keyword(2, "r", TokenType::For)
                        },
                        'u' => {
                            proof {
                                reveal_strlit("nc");
                                lemma_keyword(s, a, b, seq!['f', 'u', 'n', 'c'], 2, "nc"@);
                            }
                            self.check_keyword(2, "nc", TokenType::Func)
                        },
                        _ => TokenType::Identifier,
                    }
                } else {
                    TokenType::Identifier
                }
            },
            'i' => {
                proof {
                    reveal_strlit("f");
                    lemma_keyword(s, a, b, seq!['i', 'f'], 1, "f"@);
                }
                self.check_keyword(1, "f", TokenType::If)
            },
            'n' => {
                proof {
                    reveal_strlit("ull");
                    lemma_keyword(s, a, b, seq!['n', 'u', 'l', 'l'], 1, "ull"@);
                }
                self.check_keyword(1, "ull", TokenType::Null)
            },
            'p' => {
                proof {
                    reveal_strlit("rint");
                    lemma_keyword(s, a, b, seq!['p', 'r', 'i', 'n', 't'], 1, "rint"@);
                }
                self.check_keyword(1, "rint", TokenType::Print)
            },
            'r' => {
                proof {
                    reveal_strlit("eturn");
                    lemma_keyword(s, a, b, seq!['r', 'e', 't', 'u', 'r', 'n'], 1, "eturn"@);
                }
                self.check_keyword(1, "eturn", TokenType::Return)
            },
            's' => {
                proof {
                    reveal_strlit("uper");
                    lemma_keyword(s, a, b, seq!['s', 'u', 'p', 'e', 'r'], 1, "uper"@);
                }
                self.check_keyword(1, "uper", TokenType::Super)
            },
            't' => {
                if self.current - self.start > 1 {
                    let m = self.source[self.start + 1];
                    match m {
                        'h' => {
                            proof {
                                reveal_strlit("is");
                                lemma_keyword(s, a, b, seq!['t', 'h', 'i', 's'], 2, "is"@);
                            }
                            self.check_keyword(2, "is", TokenType::This)
                        },
                        'r' => {
                            proof {
                                reveal_strlit("ue");
                                lemma_keyword(s, a, b, seq!['t', 'r', 'u', 'e'], 2, "ue"@);
                            }
                            self.check_keyword(2, "ue", TokenType::True)
                        },
                        _ => TokenType::Identifier,
                    }
                } else {
                    TokenType::Identifier
                }
            },
            'v' => {
                proof {
                    reveal_strlit("ar");
                    lemma_keyword(s, a, b, seq!['v', 'a', 'r'], 1, "ar"@);
                }
                self.check_keyword(1, "ar", TokenType::Var)
            },
            'w' => {
                proof {
                    reveal_strlit("hile");
                    lemma_keyword(s, a, b, seq!['w', 'h', 'i', 'l', 'e'], 1, "hile"@);
                }
                self.check_keyword(1, "hile", TokenType::While)
            },
            _ => TokenType::Identifier,
        }
    }

    /// Creates a new identifier or keyword token; its first character has
    /// been consumed.
    fn identifier(&mut self) -> (r: Token)
        requires
            old(self).wf(),
            old(self).current == old(self).start + 1,
            is_alpha(old(self).source@[old(self).start as int]),
        ensures
            final(self).wf(),
            final(self).source == old(self).source,
            final(self).start == old(self).start,
            final(self).current == alnum_run(old(self).source@, old(self).start as int),
            r.token_type == keyword_kind(
                old(self).source@.subrange(old(self).start as int, final(self).current as int),
            ),
            r.text@ == old(self).source@.subrange(old(self).start as int, final(self).current as int),
            r.line == final(self).line,
    {
        let ghost s = self.source@;
        while is_alnum_char(self.peek())
            invariant
                self.wf(),
                self.source == old(self).source,
                self.source@ == s,
                self.start == old(self).start,
                self.start < self.current,
                alnum_run(s, self.current as int) == alnum_run(s, self.start as int),
            decreases s.len() - self.current,
        {
            proof {
                lemma_line_step(s, self.current as int);
            }
            let _ = self.advance();
        }
        let token_type = self.identifier_type();
        self.make_token(token_type)
    }

    /// Creates a new number token; its first digit has been consumed.
    fn number(&mut self) -> (r: Token)
        requires
            old(self).wf(),
            old(self).current == old(self).start + 1,
            is_digit(old(self).source@[old(self).start as int]),
        ensures
            final(self).wf(),
            final(self).source == old(self).source,
            final(self).start == old(self).start,
            final(self).current == number_end(old(self).source@, old(self).start as int),
            r.token_type == TokenType::Number,
            r.text@ == old(self).source@.subrange(old(self).start as int, final(self).current as int),
            r.line == final(self).line,
    {
        let ghost s = self.source@;
        while is_digit_char(self.peek())
            invariant
                self.wf(),
                self.source == old(self).source,
                self.source@ == s,
                self.start == old(self).start,
                digit_run(s, self.current as int) == digit_run(s, self.start as int),
            decreases s.len() - self.current,
        {
            proof {
                lemma_line_step(s, self.current as int);
            }
            let _ = self.advance();
        }
        if self.peek() == '.' && is_digit_char(self.peek_next()) {
            proof {
                lemma_line_step(s, self.current as int);
            }
            let _ = self.advance();
            while is_digit_char(self.peek())
                invariant
                    self.wf(),
                    self.source == old(self).source,
                    self.source@ == s,
                self.source@ == s,
                    self.start == old(self).start,
                    number_end(s, self.start as int) == digit_run(s, self.current as int),
                decreases s.len() - self.current,
            {
                proof {
                    lemma_line_step(s, self.current as int);
                }
                let _ = self.advance();
            }
        }
        self.make_token(TokenType::Number)
    }

    /// Creates a new string token; its opening delimiter has been consumed.
    /// Newlines inside the literal are counted; when input ends before the
    /// closing delimiter the result is an Error token.
    fn string(&mut self, open_char: char) -> (r: Token)
        requires
            old(self).wf(),
            old(self).current == old(self).start + 1,
            old(self).source@[old(self).start as int] == open_char,
            is_quote(open_char),
        ensures
            final(self).wf(),
            final(self).source == old(self).source,
            final(self).start == old(self).start,
            ({
                let s = old(self).source@;
                let q = quote_end(s, old(self).current as int, open_char);
                if q >= s.len() {
                    &&& final(self).current == s.len()
                    &&& r.token_type == TokenType::Error
                    &&& r.text@ == unterminated_message()
                } else {
                    &&& final(self).current == q + 1
                    &&& r.token_type == TokenType::String
                    &&& r.text@ == s.subrange(old(self).start as int, q + 1)
                }
            }),
            r.line == final(self).line,
    {
        let ghost s = self.source@;
        while self.peek() != open_char && !self.is_at_end()
            invariant
                self.wf(),
                self.source == old(self).source,
                self.source@ == s,
                self.start == old(self).start,
                is_quote(open_char),
                quote_end(s, self.current as int, open_char) == quote_end(
                    s,
                    old(self).current as int,
                    open_char,
                ),
            decreases s.len() - self.current,
        {
            proof {
                lemma_line_step(s, self.current as int);
                lemma_newlines_bound(s.take(self.current as int));
            }
            if self.peek() == '\n' {
                self.line = self.line + 1;
            }
            let _ = self.advance();
        }
        if self.is_at_end() {
            return self.error_token("Unterminated string literal!");
        }
        // Closing string delimiter.
        proof {
            lemma_line_step(s, self.current as int);
        }
        let _ = self.advance();
        self.make_token(TokenType::String)
    }
}

/// The tokens `toks` are those of the steps `t`: category, text, and the
/// line on which each step ends.
pub open spec fn tokens_match(s: Seq<char>, toks: Seq<Token>, t: Seq<Step>) -> bool {
    &&& toks.len() == t.len()
    &&& forall|i: int|
        0 <= i < toks.len() ==> {
            &&& toks[i].token_type == t[i].kind
            &&& toks[i].text@ == t[i].text
            &&& toks[i].line == line_at(s, t[i].end)
        }
}

/// Scans `source` from its start to the end of input and returns every
/// token, the final Eof included.
pub fn tokenize(source: &String) -> (r: Vec<Token>)
    requires
        source@.len() < i32::MAX,
    ensures
        tokens_match(source@, r@, scan_all(source@)),
{
    let ghost s = source@;
    let ghost all = scan_all(s);
    let mut scanner = Tokenizer::new(source);
    let mut tokens: Vec<Token> = Vec::new();
    let ghost mut done: Seq<Step> = Seq::empty();
    proof {
        lemma_steps_consume(s, 0, (s.len() + 1) as nat);
    }
    loop
        invariant
            scanner.wf(),
            scanner.text() == s,
            s == source@,
            all == scan_all(s),
            done.len() <= scanner.cursor() <= s.len(),
            done + steps_from(s, scanner.cursor(), (s.len() + 1 - done.len()) as nat) == all,
            tokens_match(s, tokens@, done),
        decreases s.len() + 1 - done.len(),
    {
        let ghost cur = scanner.cursor();
        let ghost fuel = (s.len() + 1 - done.len()) as nat;
        let ghost st = scan_step(s, cur);
        let token = scanner.get_token();
        let at_end = token.token_type == TokenType::Eof;
        tokens.push(token);
        if at_end {
            proof {
                assert(steps_from(s, cur, fuel) =~= seq![st]);
                done = done.push(st);
                assert(done =~= all);
            }
            return tokens;
        }
        proof {
            let rest = steps_from(s, st.end, (fuel - 1) as nat);
            assert(steps_from(s, cur, fuel) =~= seq![st] + rest);
            assert(done + (seq![st] + rest) =~= done.push(st) + rest);
            done = done.push(st);
        }
    }
}

/// Draining a scanner consumes the whole source exactly once: the
/// consumed ranges follow one another from the start of the source to its
/// end, each is a gap of blank space and comments followed by the token's
/// lexeme, every token but Error carries its source slice, and the last
/// token, the only Eof, is empty.
pub proof fn lemma_scan_covers_source(s: Seq<char>)
    ensures
        consumes_in_order(s, scan_all(s), 0),
{
    lemma_steps_consume(s, 0, (s.len() + 1) as nat);
}

/// Draining two scanners over the same source yields the same tokens.
pub proof fn lemma_drain_deterministic(s: Seq<char>, a: Seq<Token>, b: Seq<Token>)
    requires
        tokens_match(s, a, scan_all(s)),
        tokens_match(s, b, scan_all(s)),
    ensures
        a.len() == b.len(),
        forall|i: int|
            0 <= i < a.len() ==> a[i].token_type == b[i].token_type && a[i].text@ == b[i].text@
                && a[i].line == b[i].line,
{
}

} // verus!
