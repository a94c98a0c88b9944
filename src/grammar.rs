//! The lexical grammar as mathematics: what one scanning step reads from a
//! position of the source, and which token it yields.
use vstd::prelude::*;

use crate::token::TokenType;

verus! {

/// Decimal digits start a number and may continue an identifier.
pub open spec fn is_digit(c: char) -> bool {
    '0' <= c && c <= '9'
}

/// ASCII letters and the underscore start an identifier.
pub open spec fn is_alpha(c: char) -> bool {
    ('a' <= c && c <= 'z') || ('A' <= c && c <= 'Z') || c == '_'
}

/// Characters that may continue an identifier.
pub open spec fn is_alnum(c: char) -> bool {
    is_digit(c) || is_alpha(c)
}

/// Characters skipped between tokens (besides comments).
pub open spec fn is_blank(c: char) -> bool {
    c == ' ' || c == '\t' || c == '\r' || c == '\n'
}

/// Characters that open (and close) a string literal.
pub open spec fn is_quote(c: char) -> bool {
    c == '"' || c == '\''
}

/// Whether `s` holds `c` at position `i`.
pub open spec fn has_at(s: Seq<char>, i: int, c: char) -> bool {
    0 <= i < s.len() && s[i] == c
}

/// The number of newline characters in `s`.
pub open spec fn newlines(s: Seq<char>) -> nat
    decreases s.len(),
{
    if s.len() == 0 {
        0
    } else {
        newlines(s.drop_last()) + if s.last() == '\n' {
            1nat
        } else {
            0nat
        }
    }
}

/// The line on which the text up to position `end` of `s` ends.
pub open spec fn line_at(s: Seq<char>, end: int) -> int {
    1 + newlines(s.take(end)) as int
}

/// The first position at or after `i` that does not hold blank space or a
/// single-line comment.
pub open spec fn skip_end(s: Seq<char>, i: int) -> int
    decreases s.len() - i, 0int,
{
    if 0 <= i < s.len() {
        if is_blank(s[i]) {
            skip_end(s, i + 1)
        } else if s[i] == '/' && has_at(s, i + 1, '/') {
            comment_end(s, i + 2)
        } else {
            i
        }
    } else {
        i
    }
}

/// Inside a single-line comment at position `i`: where skipping ends.
pub open spec fn comment_end(s: Seq<char>, i: int) -> int
    decreases s.len() - i, 1int,
{
    if 0 <= i < s.len() && s[i] != '\n' {
        comment_end(s, i + 1)
    } else {
        skip_end(s, i)
    }
}

/// The end of the run of digits that starts at `i`.
pub open spec fn digit_run(s: Seq<char>, i: int) -> int
    decreases s.len() - i,
{
    if 0 <= i < s.len() && is_digit(s[i]) {
        digit_run(s, i + 1)
    } else {
        i
    }
}

/// The end of the run of identifier characters that starts at `i`.
pub open spec fn alnum_run(s: Seq<char>, i: int) -> int
    decreases s.len() - i,
{
    if 0 <= i < s.len() && is_alnum(s[i]) {
        alnum_run(s, i + 1)
    } else {
        i
    }
}

/// The first position at or after `i` that holds `q`, or the length of `s`.
pub open spec fn quote_end(s: Seq<char>, i: int, q: char) -> int
    decreases s.len() - i,
{
    if 0 <= i < s.len() && s[i] != q {
        quote_end(s, i + 1, q)
    } else {
        i
    }
}

/// The end of the number that starts at `i`: digits, then at most one
/// fractional part made of a dot and at least one digit.
pub open spec fn number_end(s: Seq<char>, i: int) -> int {
    let e = digit_run(s, i);
    if has_at(s, e, '.') && 0 <= e + 1 < s.len() && is_digit(s[e + 1]) {
        digit_run(s, e + 1)
    } else {
        e
    }
}

/// The category of an identifier-shaped lexeme: a keyword when it is one
/// exactly, else a plain identifier. (The logical `And` and `Or` are
/// spelled `&&` and `||`, so `and` and `or` are identifiers.)
pub open spec fn keyword_kind(w: Seq<char>) -> TokenType {
    if w == seq!['c', 'l', 'a', 's', 's'] {
        TokenType::Class
    } else if w == seq!['e', 'l', 's', 'e'] {
        TokenType::Else
    } else if w == seq!['f', 'a', 'l', 's', 'e'] {
        TokenType::False
    } else if w == seq!['f', 'u', 'n', 'c'] {
        TokenType::Func
    } else if w == seq!['f', 'o', 'r'] {
        TokenType::For
    } else if w == seq!['i', 'f'] {
        TokenType::If
    } else if w == seq!['n', 'u', 'l', 'l'] {
        TokenType::Null
    } else if w == seq!['p', 'r', 'i', 'n', 't'] {
        TokenType::Print
    } else if w == seq!['r', 'e', 't', 'u', 'r', 'n'] {
        TokenType::Return
    } else if w == seq!['s', 'u', 'p', 'e', 'r'] {
        TokenType::Super
    } else if w == seq!['t', 'h', 'i', 's'] {
        TokenType::This
    } else if w == seq!['t', 'r', 'u', 'e'] {
        TokenType::True
    } else if w == seq!['v', 'a', 'r'] {
        TokenType::Var
    } else if w == seq!['w', 'h', 'i', 'l', 'e'] {
        TokenType::While
    } else {
        TokenType::Identifier
    }
}

/// The operator or punctuation that starts with `c` when `next` follows it
/// (`None` at the end of input), with its length in characters; `Error`
/// with length 1 for a character that starts no token.
pub open spec fn operator(c: char, next: Option<char>) -> (TokenType, int) {
    let long = |e: char| next == Some(e);
    if c == '(' {
        (TokenType::OpenParen, 1)
    } else if c == ')' {
        (TokenType::CloseParen, 1)
    } else if c == '[' {
        (TokenType::OpenSquare, 1)
    } else if c == ']' {
        (TokenType::CloseSquare, 1)
    } else if c == '{' {
        (TokenType::OpenCurly, 1)
    } else if c == '}' {
        (TokenType::CloseCurly, 1)
    } else if c == ';' {
        (TokenType::Semicolon, 1)
    } else if c == ',' {
        (TokenType::Comma, 1)
    } else if c == '.' {
        (TokenType::Dot, 1)
    } else if c == '-' {
        (TokenType::Minus, 1)
    } else if c == '+' {
        (TokenType::Plus, 1)
    } else if c == '/' {
        (TokenType::Slash, 1)
    } else if c == '*' {
        (TokenType::Star, 1)
    } else if c == '^' {
        (TokenType::BwXor, 1)
    } else if c == '~' {
        (TokenType::BwNot, 1)
    } else if c == '&' {
        if long('&') { (TokenType::And, 2) } else { (TokenType::BwAnd, 1) }
    } else if c == '|' {
        if long('|') { (TokenType::Or, 2) } else { (TokenType::BwOr, 1) }
    } else if c == '!' {
        if long('=') { (TokenType::ExclEqual, 2) } else { (TokenType::Excl, 1) }
    } else if c == '=' {
        if long('=') { (TokenType::EqualEqual, 2) } else { (TokenType::Equal, 1) }
    } else if c == '<' {
        if long('=') {
            (TokenType::LessEqual, 2)
        } else if long('<') {
            (TokenType::LessLess, 2)
        } else {
            (TokenType::Less, 1)
        }
    } else if c == '>' {
        if long('=') {
            (TokenType::GreaterEqual, 2)
        } else if long('>') {
            (TokenType::GreaterGreater, 2)
        } else {
            (TokenType::Greater, 1)
        }
    } else {
        (TokenType::Error, 1)
    }
}

/// The character at position `i` of `s`, if there is one.
pub open spec fn char_after(s: Seq<char>, i: int) -> Option<char> {
    if 0 <= i < s.len() {
        Some(s[i])
    } else {
        None
    }
}

/// The message of the Error token for a string literal that input ends in.
pub open spec fn unterminated_message() -> Seq<char> {
    "Unterminated string literal!"@
}

/// The message of the Error token for a character that starts no token.
pub open spec fn unexpected_message() -> Seq<char> {
    "Unexpected character!"@
}

/// What one scanning step yields: the token's category and text, where its
/// lexeme starts and where scanning stops.
pub struct Step {
    pub kind: TokenType,
    pub text: Seq<char>,
    pub start: int,
    pub end: int,
}

/// The step taken by a scanner whose scan cursor stands at `cur`.
pub open spec fn scan_step(s: Seq<char>, cur: int) -> Step {
    let st = skip_end(s, cur);
    if st >= s.len() {
        Step { kind: TokenType::Eof, text: Seq::empty(), start: st, end: st }
    } else {
        let c = s[st];
        if is_digit(c) {
            let e = number_end(s, st);
            Step { kind: TokenType::Number, text: s.subrange(st, e), start: st, end: e }
        } else if is_alpha(c) {
            let e = alnum_run(s, st);
            Step { kind: keyword_kind(s.subrange(st, e)), text: s.subrange(st, e), start: st, end: e }
        } else if is_quote(c) {
            let q = quote_end(s, st + 1, c);
            if q >= s.len() {
                Step { kind: TokenType::Error, text: unterminated_message(), start: st, end: q }
            } else {
                Step { kind: TokenType::String, text: s.subrange(st, q + 1), start: st, end: q + 1 }
            }
        } else {
            let (k, n) = operator(c, char_after(s, st + 1));
            if k == TokenType::Error {
                Step { kind: k, text: unexpected_message(), start: st, end: st + n }
            } else {
                Step { kind: k, text: s.subrange(st, st + n), start: st, end: st + n }
            }
        }
    }
}

/// The steps taken from cursor `cur` up to and including the one that
/// reaches the end of input, cut short after `fuel` steps.
pub open spec fn steps_from(s: Seq<char>, cur: int, fuel: nat) -> Seq<Step>
    decreases fuel,
{
    if fuel == 0 {
        Seq::empty()
    } else {
        let st = scan_step(s, cur);
        if st.kind == TokenType::Eof {
            seq![st]
        } else {
            seq![st] + steps_from(s, st.end, (fuel - 1) as nat)
        }
    }
}

/// Every step taken over `s` from its start until the end of input. Each
/// step that does not reach the end advances, so `s.len() + 1` steps are
/// always enough.
pub open spec fn scan_all(s: Seq<char>) -> Seq<Step> {
    steps_from(s, 0, (s.len() + 1) as nat)
}

/// Where the `i`-th of the steps `t` begins to consume: where the previous
/// one ended, and at `from` for the first.
pub open spec fn consumed_from(t: Seq<Step>, i: int, from: int) -> int {
    if i == 0 {
        from
    } else {
        t[i - 1].end
    }
}

/// The steps `t`, taken from `from`, consume `s[from..]` as consecutive
/// ranges, each one a skipped gap of blank space and comments followed by a
/// lexeme whose text is the source slice (for all but Error tokens); only
/// the last reaches the end of input, as an empty Eof token.
pub open spec fn consumes_in_order(s: Seq<char>, t: Seq<Step>, from: int) -> bool {
    &&& t.len() > 0
    &&& t.last().kind == TokenType::Eof
    &&& t.last().text.len() == 0
    &&& t.last().start == s.len()
    &&& t.last().end == s.len()
    &&& forall|i: int|
        0 <= i < t.len() ==> {
            &&& consumed_from(t, i, from) <= t[i].start <= t[i].end <= s.len()
            &&& t[i].start == skip_end(s, consumed_from(t, i, from))
            &&& (t[i].kind != TokenType::Error ==> t[i].text == s.subrange(t[i].start, t[i].end))
            &&& (i < t.len() - 1 ==> t[i].kind != TokenType::Eof && consumed_from(t, i, from)
                < t[i].end)
        }
}

/// Counting newlines one character further.
pub proof fn lemma_line_step(s: Seq<char>, i: int)
    requires
        0 <= i < s.len(),
    ensures
        line_at(s, i + 1) == line_at(s, i) + if s[i] == '\n' {
            1int
        } else {
            0int
        },
{
    assert(s.take(i + 1).drop_last() =~= s.take(i));
}

/// A prefix holds no more newlines than characters.
pub proof fn lemma_newlines_bound(s: Seq<char>)
    ensures
        newlines(s) <= s.len(),
    decreases s.len(),
{
    if s.len() > 0 {
        lemma_newlines_bound(s.drop_last());
    }
}

/// Skipping stays within the source and never moves backwards.
pub proof fn lemma_skip_bounds(s: Seq<char>, i: int)
    requires
        0 <= i <= s.len(),
    ensures
        i <= skip_end(s, i) <= s.len(),
        i <= comment_end(s, i) <= s.len(),
    decreases s.len() - i,
{
    if i < s.len() {
        lemma_skip_bounds(s, i + 1);
        if s[i] == '/' && has_at(s, i + 1, '/') {
            lemma_skip_bounds(s, i + 2);
        }
    }
}

/// Skipping stops at the end of input or at a character that is neither
/// blank nor the start of a comment.
pub proof fn lemma_skip_stops(s: Seq<char>, i: int)
    requires
        0 <= i <= s.len(),
    ensures
        skip_end(s, i) < s.len() ==> !is_blank(s[skip_end(s, i)]) && !(s[skip_end(s, i)] == '/'
            && has_at(s, skip_end(s, i) + 1, '/')),
        comment_end(s, i) < s.len() ==> !is_blank(s[comment_end(s, i)]) && !(s[comment_end(
            s,
            i,
        )] == '/' && has_at(s, comment_end(s, i) + 1, '/')),
    decreases s.len() - i,
{
    if i < s.len() {
        lemma_skip_stops(s, i + 1);
        if s[i] == '/' && has_at(s, i + 1, '/') {
            lemma_skip_stops(s, i + 2);
        }
        if s[i] == '\n' {
            assert(comment_end(s, i) == skip_end(s, i));
            assert(skip_end(s, i) == skip_end(s, i + 1));
        }
    }
}

/// The runs end within the source, at or after where they start.
pub proof fn lemma_run_bounds(s: Seq<char>, i: int, q: char)
    requires
        0 <= i <= s.len(),
    ensures
        i <= digit_run(s, i) <= s.len(),
        i <= alnum_run(s, i) <= s.len(),
        i <= quote_end(s, i, q) <= s.len(),
    decreases s.len() - i,
{
    if i < s.len() {
        lemma_run_bounds(s, i + 1, q);
    }
}

/// Where a step starts and ends: within the source, after the cursor, and
/// strictly after it unless the step yields the end of input.
pub proof fn lemma_step_bounds(s: Seq<char>, cur: int)
    requires
        0 <= cur <= s.len(),
    ensures
        cur <= scan_step(s, cur).start <= scan_step(s, cur).end <= s.len(),
        scan_step(s, cur).kind == TokenType::Eof ==> scan_step(s, cur).start == s.len()
            && scan_step(s, cur).end == s.len() && scan_step(s, cur).text.len() == 0,
        scan_step(s, cur).kind != TokenType::Eof ==> cur < scan_step(s, cur).end,
        scan_step(s, cur).start == skip_end(s, cur),
        scan_step(s, cur).kind != TokenType::Error ==> scan_step(s, cur).text =~= s.subrange(
            scan_step(s, cur).start,
            scan_step(s, cur).end,
        ),
{
    lemma_skip_bounds(s, cur);
    let st = skip_end(s, cur);
    if st < s.len() {
        let c = s[st];
        lemma_run_bounds(s, st, c);
        lemma_run_bounds(s, st + 1, c);
        let e = digit_run(s, st);
        if 0 <= e + 1 <= s.len() {
            lemma_run_bounds(s, e + 1, c);
        }
    }
}

/// A lexeme `s[a..b]` that agrees with the keyword `kw` before position
/// `pos` is that keyword exactly when its length matches and the rest of it
/// is `rest`.
pub proof fn lemma_keyword(s: Seq<char>, a: int, b: int, kw: Seq<char>, pos: int, rest: Seq<char>)
    requires
        0 <= a,
        a + pos <= b <= s.len(),
        0 <= pos <= kw.len(),
        kw.subrange(pos, kw.len() as int) =~= rest,
        forall|i: int| 0 <= i < pos ==> s[a + i] == kw[i],
    ensures
        (s.subrange(a, b) == kw) == (b - a == pos + rest.len() && s.subrange(a + pos, b) == rest),
{
    let w = s.subrange(a, b);
    if w == kw {
        assert(s.subrange(a + pos, b) =~= kw.subrange(pos, kw.len() as int));
    }
    if b - a == pos + rest.len() && s.subrange(a + pos, b) == rest {
        assert forall|i: int| 0 <= i < w.len() implies w[i] == kw[i] by {
            if i >= pos {
                assert(s[a + i] == s.subrange(a + pos, b)[i - pos]);
            }
        }
        assert(w =~= kw);
    }
}

/// Keywords start with one of a few characters, and those that start with
/// `f` or `t` go on with one of a few more.
pub proof fn lemma_keyword_starts(w: Seq<char>)
    requires
        w.len() > 0,
        keyword_kind(w) != TokenType::Identifier,
    ensures
        w[0] == 'c' || w[0] == 'e' || w[0] == 'f' || w[0] == 'i' || w[0] == 'n' || w[0] == 'p'
            || w[0] == 'r' || w[0] == 's' || w[0] == 't' || w[0] == 'v' || w[0] == 'w',
        w[0] == 'f' ==> w.len() > 1 && (w[1] == 'a' || w[1] == 'o' || w[1] == 'u'),
        w[0] == 't' ==> w.len() > 1 && (w[1] == 'h' || w[1] == 'r'),
{
}

/// With enough fuel, the steps from `cur` consume the rest of the source in
/// order and end with Eof.
pub proof fn lemma_steps_consume(s: Seq<char>, cur: int, fuel: nat)
    requires
        0 <= cur <= s.len(),
        fuel >= s.len() + 1 - cur,
    ensures
        consumes_in_order(s, steps_from(s, cur, fuel), cur),
    decreases fuel,
{
    let st = scan_step(s, cur);
    lemma_step_bounds(s, cur);
    let t = steps_from(s, cur, fuel);
    if st.kind == TokenType::Eof {
        assert(t =~= seq![st]);
    } else {
        let rest = steps_from(s, st.end, (fuel - 1) as nat);
        lemma_steps_consume(s, st.end, (fuel - 1) as nat);
        assert(t =~= seq![st] + rest);
        assert forall|i: int| 1 <= i < t.len() implies t[i] == rest[i - 1] && consumed_from(
            t,
            i,
            cur,
        ) == consumed_from(rest, i - 1, st.end) by {
            if i > 1 {
                assert(t[i - 1] == rest[i - 2]);
            }
        }
        assert(t.last() == rest.last());
    }
}

} // verus!
