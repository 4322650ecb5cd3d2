//! The grammar, stated over plain byte sequences.
//!
//! Everything here is ghost code: it says which token stands at the front of
//! an input and how many bytes it takes, without saying how to scan.

use vstd::prelude::*;
use crate::ascii::{
    ASTERISK, BANG, CARRIAGE_RETURN, COMMA, DIGIT_NINE, DIGIT_ZERO, EQUALS, GREATER, LBRACE,
    LESS, LINE_FEED, LOWER_A, LOWER_Z, LPAREN, MINUS, NUL, PLUS, RBRACE, RPAREN, SEMICOLON,
    SLASH, SPACE, TAB, UNDERSCORE, UPPER_A, UPPER_Z,
};
use crate::token::TokenView;

verus! {

/// The three kinds of byte of which the scanner reads whole runs.
pub enum ByteClass {
    Space,
    Letter,
    Digit,
}

/// Space, tab, line feed and carriage return separate tokens.
pub open spec fn is_space(b: u8) -> bool {
    b == SPACE || b == TAB || b == LINE_FEED || b == CARRIAGE_RETURN
}

/// A name is made of ASCII letters and underscores.
pub open spec fn is_letter(b: u8) -> bool {
    LOWER_A <= b <= LOWER_Z || UPPER_A <= b <= UPPER_Z || b == UNDERSCORE
}

/// A literal is made of ASCII decimal digits.
pub open spec fn is_digit(b: u8) -> bool {
    DIGIT_ZERO <= b <= DIGIT_NINE
}

pub open spec fn in_class(class: ByteClass, b: u8) -> bool {
    match class {
        ByteClass::Space => is_space(b),
        ByteClass::Letter => is_letter(b),
        ByteClass::Digit => is_digit(b),
    }
}

/// The byte at index `i`, and `NUL` outside the input.
pub open spec fn byte_at(s: Seq<u8>, i: int) -> u8 {
    if 0 <= i < s.len() {
        s[i]
    } else {
        NUL
    }
}

/// How many bytes of `class` stand at the front of `s`.
pub open spec fn run_len(s: Seq<u8>, class: ByteClass) -> nat
    decreases s.len(),
{
    if s.len() > 0 && in_class(class, s[0]) {
        1 + run_len(s.drop_first(), class)
    } else {
        0
    }
}

/// `s` without the whitespace at its front.
pub open spec fn trim(s: Seq<u8>) -> Seq<u8> {
    s.skip(run_len(s, ByteClass::Space) as int)
}

/// The number that a sequence of decimal digits denotes.
pub open spec fn decimal_value(digits: Seq<u8>) -> nat
    decreases digits.len(),
{
    if digits.len() == 0 {
        0
    } else {
        (decimal_value(digits.drop_last()) * 10 + (digits.last() - DIGIT_ZERO)) as nat
    }
}

/// ASCII bytes read as characters.
pub open spec fn text_of(bytes: Seq<u8>) -> Seq<char> {
    Seq::new(bytes.len(), |i: int| bytes[i] as char)
}

/// The reserved words: `fn`, `let`, `true`, `false`, `if`, `else`, `return`.
/// The match is exact and case-sensitive.
pub open spec fn keyword(word: Seq<u8>) -> Option<TokenView> {
    if word == seq![102u8, 110u8] {
        // f n
        Some(TokenView::Function)
    } else if word == seq![108u8, 101u8, 116u8] {
        // l e t
        Some(TokenView::Let)
    } else if word == seq![116u8, 114u8, 117u8, 101u8] {
        // t r u e
        Some(TokenView::Bool(true))
    } else if word == seq![102u8, 97u8, 108u8, 115u8, 101u8] {
        // f a l s e
        Some(TokenView::Bool(false))
    } else if word == seq![105u8, 102u8] {
        // i f
        Some(TokenView::If)
    } else if word == seq![101u8, 108u8, 115u8, 101u8] {
        // e l s e
        Some(TokenView::Else)
    } else if word == seq![114u8, 101u8, 116u8, 117u8, 114u8, 110u8] {
        // r e t u r n
        Some(TokenView::Return)
    } else {
        None
    }
}

/// The token for a whole run of letters: the reserved word that it spells, or
/// an identifier with exactly that text.
pub open spec fn word_token(word: Seq<u8>) -> TokenView {
    match keyword(word) {
        Some(token) => token,
        None => TokenView::Ident(text_of(word)),
    }
}

/// The operators and delimiters of one byte that need no lookahead.
pub open spec fn punctuation(b: u8) -> Option<TokenView> {
    if b == SEMICOLON {
        Some(TokenView::Semicolon)
    } else if b == LPAREN {
        Some(TokenView::Lparen)
    } else if b == RPAREN {
        Some(TokenView::Rparen)
    } else if b == COMMA {
        Some(TokenView::Comma)
    } else if b == PLUS {
        Some(TokenView::Plus)
    } else if b == MINUS {
        Some(TokenView::Minus)
    } else if b == ASTERISK {
        Some(TokenView::Asterisk)
    } else if b == SLASH {
        Some(TokenView::Slash)
    } else if b == LESS {
        Some(TokenView::LowerThan)
    } else if b == GREATER {
        Some(TokenView::GraterThan)
    } else if b == LBRACE {
        Some(TokenView::Lbrace)
    } else if b == RBRACE {
        Some(TokenView::Rbrace)
    } else {
        None
    }
}

/// The token at the front of `t`, which does not begin with whitespace, and
/// the number of bytes that it takes.
///
/// Only the empty input gives `EOF`, and nothing is taken then. A byte that no
/// rule knows, a `NUL` byte among them, gives `Illegal` and is stepped over.
pub open spec fn scan(t: Seq<u8>) -> (TokenView, nat) {
    if t.len() == 0 {
        (TokenView::EOF, 0)
    } else if t[0] == EQUALS {
        if byte_at(t, 1) == EQUALS {
            (TokenView::Equal, 2)
        } else {
            (TokenView::Assign, 1)
        }
    } else if t[0] == BANG {
        if byte_at(t, 1) == EQUALS {
            (TokenView::NotEqual, 2)
        } else {
            (TokenView::Bang, 1)
        }
    } else if punctuation(t[0]) is Some {
        (punctuation(t[0]).unwrap(), 1)
    } else if is_letter(t[0]) {
        let n = run_len(t, ByteClass::Letter);
        (word_token(t.take(n as int)), n)
    } else if is_digit(t[0]) {
        let n = run_len(t, ByteClass::Digit);
        (TokenView::Int(decimal_value(t.take(n as int)) as int), n)
    } else {
        (TokenView::Illegal, 1)
    }
}

/// The next token of the input `s`.
pub open spec fn next_token_of(s: Seq<u8>) -> TokenView {
    scan(trim(s)).0
}

/// What is left of the input `s` once its next token is taken.
pub open spec fn rest_after(s: Seq<u8>) -> Seq<u8> {
    trim(s).skip(scan(trim(s)).1 as int)
}

/// The bytes of the next token of `s`: what stands between the whitespace in
/// front of it and what is left after it. Empty at the end of the input.
pub open spec fn lexeme(s: Seq<u8>) -> Seq<u8> {
    trim(s).take(scan(trim(s)).1 as int)
}

/// What is left of the input `s` once its first `n` tokens are taken.
pub open spec fn rest_after_n(s: Seq<u8>, n: nat) -> Seq<u8>
    decreases n,
{
    if n == 0 {
        s
    } else {
        rest_after_n(rest_after(s), (n - 1) as nat)
    }
}

/// The token that the call number `n` gives on the input `s`, counting from 0.
pub open spec fn nth_token(s: Seq<u8>, n: nat) -> TokenView {
    next_token_of(rest_after_n(s, n))
}

/// The bytes of the token that the call number `n` gives on the input `s`.
pub open spec fn nth_lexeme(s: Seq<u8>, n: nat) -> Seq<u8> {
    lexeme(rest_after_n(s, n))
}

/// Every byte of `s` is whitespace.
pub open spec fn is_gap(s: Seq<u8>) -> bool {
    forall|i: int| 0 <= i < s.len() ==> is_space(#[trigger] s[i])
}

/// The decimal digits of `n`, without leading zeros.
pub open spec fn decimal_digits(n: nat) -> Seq<u8>
    decreases n,
{
    if n < 10 {
        seq![(DIGIT_ZERO + n) as u8]
    } else {
        decimal_digits(n / 10).push((DIGIT_ZERO + n % 10) as u8)
    }
}

/// True unless the next token of `s` is a literal too large for an `i32`.
pub open spec fn literal_fits(s: Seq<u8>) -> bool {
    let t = trim(s);
    is_digit(byte_at(t, 0)) ==> decimal_value(t.take(run_len(t, ByteClass::Digit) as int))
        <= i32::MAX
}

/// A run of `class` has length `n` in `s` exactly when the first `n` bytes are
/// of that class and the next one, if there is one, is not.
pub proof fn lemma_run_len(s: Seq<u8>, class: ByteClass, n: int)
    requires
        0 <= n <= s.len(),
        forall|i: int| 0 <= i < n ==> in_class(class, #[trigger] s[i]),
        n == s.len() || !in_class(class, s[n]),
    ensures
        run_len(s, class) == n,
    decreases n,
{
    if n > 0 {
        let rest = s.drop_first();
        assert forall|i: int| 0 <= i < n - 1 implies in_class(class, #[trigger] rest[i]) by {
            assert(rest[i] == s[i + 1]);
        }
        lemma_run_len(rest, class, n - 1);
    }
}

/// A run inside an input: where the bytes from `start` up to `end` are of
/// `class` and the byte at `end`, if there is one, is not, they are the run at
/// the front of the input from `start` on.
pub proof fn lemma_run_in(s: Seq<u8>, class: ByteClass, start: int, end: int)
    requires
        0 <= start <= end <= s.len(),
        forall|i: int| start <= i < end ==> in_class(class, #[trigger] s[i]),
        end == s.len() || !in_class(class, s[end]),
    ensures
        run_len(s.skip(start), class) == end - start,
        s.skip(start).take(end - start) == s.subrange(start, end),
        s.skip(start).skip(end - start) == s.skip(end),
{
    let rest = s.skip(start);
    assert forall|i: int| 0 <= i < end - start implies in_class(class, #[trigger] rest[i]) by {
        assert(rest[i] == s[start + i]);
    }
    if end < s.len() {
        assert(rest[end - start] == s[end]);
    }
    lemma_run_len(rest, class, end - start);
    assert(rest.take(end - start) =~= s.subrange(start, end));
    assert(rest.skip(end - start) =~= s.skip(end));
}

/// The converse: a run stays inside the input, holds only bytes of its class,
/// and stops at the first byte that is not.
pub proof fn lemma_run_len_bounds(s: Seq<u8>, class: ByteClass)
    ensures
        run_len(s, class) <= s.len(),
        forall|i: int| 0 <= i < run_len(s, class) ==> in_class(class, #[trigger] s[i]),
        run_len(s, class) == s.len() || !in_class(class, s[run_len(s, class) as int]),
    decreases s.len(),
{
    if s.len() > 0 && in_class(class, s[0]) {
        let rest = s.drop_first();
        lemma_run_len_bounds(rest, class);
        assert forall|i: int| 0 <= i < run_len(s, class) implies in_class(
            class,
            #[trigger] s[i],
        ) by {
            if i > 0 {
                assert(s[i] == rest[i - 1]);
            }
        }
        let n = run_len(rest, class) as int;
        if n < rest.len() {
            assert(rest[n] == s[n + 1]);
        }
    }
}

/// A literal's value never shrinks when digits are appended.
pub proof fn lemma_decimal_value_prefix(digits: Seq<u8>, k: int)
    requires
        0 <= k <= digits.len(),
        forall|i: int| 0 <= i < digits.len() ==> is_digit(#[trigger] digits[i]),
    ensures
        decimal_value(digits.take(k)) <= decimal_value(digits),
    decreases digits.len() - k,
{
    if k == digits.len() {
        assert(digits.take(k) =~= digits);
    } else {
        let shorter = digits.drop_last();
        assert(shorter.take(k) =~= digits.take(k));
        lemma_decimal_value_prefix(shorter, k);
    }
}

/// A token never takes more than there is.
pub proof fn lemma_scan_len(t: Seq<u8>)
    ensures
        scan(t).1 <= t.len(),
        t.len() > 0 ==> scan(t).1 >= 1,
{
    lemma_run_len_bounds(t, ByteClass::Letter);
    lemma_run_len_bounds(t, ByteClass::Digit);
}

} // verus!
