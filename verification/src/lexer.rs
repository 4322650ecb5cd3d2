//! The scanner: a cursor over the bytes of the input, moved one token at a
//! time.

use vstd::prelude::*;
use vstd::string::*;
use vstd::utf8::*;
use crate::ascii::{
    ASTERISK, BANG, CARRIAGE_RETURN, COMMA, DIGIT_NINE, DIGIT_ZERO, EQUALS, GREATER, LBRACE,
    LESS, LINE_FEED, LOWER_A, LOWER_Z, LPAREN, MINUS, NUL, PLUS, RBRACE, RPAREN, SEMICOLON,
    SLASH, SPACE, TAB, UNDERSCORE, UPPER_A, UPPER_Z,
};
use crate::grammar::{
    byte_at, decimal_value, is_digit, is_letter, is_space, keyword, lemma_decimal_value_prefix,
    lemma_run_in, literal_fits, next_token_of, rest_after, run_len, scan, text_of, trim,
    word_token, ByteClass,
};
use crate::text::{lemma_ascii_text, lemma_boundary_after_ascii};
use crate::token::{Token, TokenView};

verus! {

/// A scanner over one input text.
pub struct Lexer<'a> {
    input: &'a str,
    pos: usize,
    read_pos: usize,
    ch: u8,
}

impl<'a> Lexer<'a> {
    /// The bytes of the whole input.
    pub closed spec fn source(&self) -> Seq<u8> {
        self.input.spec_bytes()
    }

    /// The index of the byte under examination.
    pub closed spec fn cursor(&self) -> int {
        self.pos as int
    }

    /// The index of the byte that the next advance loads.
    pub closed spec fn next_index(&self) -> int {
        self.read_pos as int
    }

    /// The byte under examination, `NUL` once the input is used up.
    pub closed spec fn current(&self) -> u8 {
        self.ch
    }

    /// The input from the cursor on: what has not been turned into tokens yet.
    /// Empty once the cursor is at the end of the input or past it.
    pub open spec fn remaining(&self) -> Seq<u8> {
        self.source().skip(
            if self.cursor() <= self.source().len() {
                self.cursor()
            } else {
                self.source().len() as int
            },
        )
    }

    /// The next index is the cursor plus one (held at the largest index that
    /// the machine has), and the current byte is the one at the cursor, `NUL`
    /// where the cursor is past the last byte.
    pub open spec fn wf(&self) -> bool {
        &&& 0 <= self.cursor()
        &&& self.next_index() == if self.cursor() < usize::MAX {
            self.cursor() + 1
        } else {
            self.cursor()
        }
        &&& self.current() == byte_at(self.source(), self.cursor())
    }

    /// A scanner at the start of `input`, with the first byte loaded.
    pub fn new(input: &'a str) -> (lexer: Self)
        ensures
            lexer.wf(),
            lexer.source() == input.spec_bytes(),
            lexer.cursor() == 0,
            lexer.remaining() == input.spec_bytes(),
    {
        let mut lexer = Lexer { input: input, pos: 0, read_pos: 0, ch: 0 };
        lexer.read_char();
        proof {
            assert(lexer.remaining() =~= input.spec_bytes());
        }
        lexer
    }

    /// The text that is scanned.
    pub fn input(&self) -> (text: &'a str)
        ensures
            text.spec_bytes() == self.source(),
    {
        self.input
    }

    /// Advances: the cursor moves to the next index, the byte there is loaded
    /// (`NUL` past the last byte), and the next index moves on by one. Past
    /// the end of the input the cursor goes on moving; the next index stops
    /// only at the largest index that the machine has.
    pub fn read_char(&mut self)
        ensures
            final(self).wf(),
            final(self).source() == old(self).source(),
            final(self).cursor() == old(self).next_index(),
            final(self).next_index() == if old(self).next_index() < usize::MAX {
                old(self).next_index() + 1
            } else {
                old(self).next_index()
            },
            final(self).current() == byte_at(old(self).source(), old(self).next_index()),
            old(self).wf() ==> final(self).remaining() == if old(self).remaining().len() > 0 {
                old(self).remaining().drop_first()
            } else {
                old(self).remaining()
            },
    {
        let bytes = self.input.as_bytes();
        if self.read_pos >= bytes.len() {
            self.ch = NUL;
        } else {
            self.ch = bytes[self.read_pos];
        }
        self.pos = self.read_pos;
        if self.read_pos < usize::MAX {
            self.read_pos = self.read_pos + 1;
        }
        proof {
            if old(self).wf() {
                if old(self).remaining().len() > 0 {
                    assert(self.remaining() =~= old(self).remaining().drop_first());
                } else {
                    assert(self.remaining() =~= old(self).remaining());
                }
            }
        }
    }

    /// The byte after the current one, without moving; `NUL` if there is none.
    pub fn peak_char(&self) -> (b: u8)
        ensures
            b == byte_at(self.source(), self.next_index()),
            self.wf() ==> b == byte_at(self.remaining(), 1),
    {
        let bytes = self.input.as_bytes();
        if self.read_pos >= bytes.len() {
            return NUL;
        } else {
            return bytes[self.read_pos];
        }
    }

    /// Whether the byte after the current one is `char`.
    pub fn next_char_is(&self, char: u8) -> (yes: bool)
        ensures
            yes == (byte_at(self.source(), self.next_index()) == char),
            self.wf() ==> yes == (byte_at(self.remaining(), 1) == char),
    {
        self.peak_char() == char
    }

    fn is_letter(&self, ch: u8) -> (yes: bool)
        ensures
            yes == is_letter(ch),
    {
        return LOWER_A <= ch && ch <= LOWER_Z || UPPER_A <= ch && ch <= UPPER_Z || ch
            == UNDERSCORE;
    }

    fn is_digit(&self, ch: u8) -> (yes: bool)
        ensures
            yes == is_digit(ch),
    {
        return DIGIT_ZERO <= ch && ch <= DIGIT_NINE;
    }

    /// Moves the cursor past the whitespace in front of it.
    fn skip_whitespace(&mut self)
        requires
            old(self).wf(),
        ensures
            final(self).wf(),
            final(self).source() == old(self).source(),
            final(self).cursor() == old(self).cursor() + run_len(
                old(self).remaining(),
                ByteClass::Space,
            ),
            final(self).remaining() == trim(old(self).remaining()),
    {
        let ghost start = self.cursor();
        while self.ch == SPACE || self.ch == TAB || self.ch == LINE_FEED || self.ch
            == CARRIAGE_RETURN
            invariant
                self.wf(),
                self.source() == old(self).source(),
                start == old(self).cursor(),
                start <= self.cursor(),
                start < self.cursor() ==> self.cursor() <= self.source().len(),
                forall|i: int| start <= i < self.cursor() ==> is_space(#[trigger] self.source()[i]),
            decreases self.source().len() - self.cursor(),
        {
            self.read_char();
        }
        proof {
            if start <= self.source().len() {
                lemma_run_in(self.source(), ByteClass::Space, start, self.cursor());
            } else {
                assert(trim(old(self).remaining()) =~= old(self).remaining());
            }
        }
    }

    /// The text of the ASCII bytes from `start` up to `end`.
    fn text(&self, start: usize, end: usize) -> (text: String)
        requires
            start < end <= self.source().len(),
            forall|i: int| start <= i < end ==> #[trigger] self.source()[i] < 128,
        ensures
            text@ == text_of(self.source().subrange(start as int, end as int)),
    {
        let ghost bytes = self.source();
        proof {
            encode_utf8_valid_utf8(self.input@);
            is_char_boundary_iff_not_is_continuation_byte(bytes, start as int);
        }
        let (_, tail) = self.input.split_at(start);
        proof {
            encode_utf8_valid_utf8(tail@);
            assert(tail.spec_bytes()[end - start - 1] == bytes[end - 1]);
            lemma_boundary_after_ascii(tail.spec_bytes(), end - start);
        }
        let (word, _) = tail.split_at(end - start);
        proof {
            let piece = bytes.subrange(start as int, end as int);
            assert(word.spec_bytes() =~= piece);
            lemma_ascii_text(word@, piece);
        }
        word.to_owned()
    }

    /// Reads the run of letters at the cursor and gives the reserved word that
    /// it spells, or an identifier with its text. The cursor ends on the first
    /// byte after the run.
    fn read_identifier(&mut self) -> (token: Token)
        requires
            old(self).wf(),
            is_letter(old(self).current()),
        ensures
            final(self).wf(),
            final(self).source() == old(self).source(),
            final(self).cursor() == old(self).cursor() + run_len(
                old(self).remaining(),
                ByteClass::Letter,
            ),
            final(self).remaining() == old(self).remaining().skip(
                run_len(old(self).remaining(), ByteClass::Letter) as int,
            ),
            token@ == word_token(
                old(self).remaining().take(run_len(old(self).remaining(), ByteClass::Letter) as int),
            ),
    {
        let start_pos = self.pos;
        while self.is_letter(self.ch)
            invariant
                self.wf(),
                self.source() == old(self).source(),
                start_pos == old(self).cursor(),
                start_pos <= self.cursor() <= self.source().len(),
                forall|i: int|
                    start_pos <= i < self.cursor() ==> is_letter(#[trigger] self.source()[i]),
            decreases self.source().len() - self.cursor(),
        {
            self.read_char();
        }
        proof {
            lemma_run_in(self.source(), ByteClass::Letter, start_pos as int, self.cursor());
        }
        match keyword_at(self.input.as_bytes(), start_pos, self.pos) {
            Some(token) => token,
            None => Token::Ident(self.text(start_pos, self.pos)),
        }
    }

    /// Reads the run of digits at the cursor and gives the literal with its
    /// value. The cursor ends on the first byte after the run.
    fn read_number(&mut self) -> (token: Token)
        requires
            old(self).wf(),
            is_digit(old(self).current()),
            decimal_value(
                old(self).remaining().take(run_len(old(self).remaining(), ByteClass::Digit) as int),
            ) <= i32::MAX,
        ensures
            final(self).wf(),
            final(self).source() == old(self).source(),
            final(self).cursor() == old(self).cursor() + run_len(
                old(self).remaining(),
                ByteClass::Digit,
            ),
            final(self).remaining() == old(self).remaining().skip(
                run_len(old(self).remaining(), ByteClass::Digit) as int,
            ),
            token@ == TokenView::Int(
                decimal_value(
                    old(self).remaining().take(
                        run_len(old(self).remaining(), ByteClass::Digit) as int,
                    ),
                ) as int,
            ),
    {
        let start_pos = self.pos;
        while self.is_digit(self.ch)
            invariant
                self.wf(),
                self.source() == old(self).source(),
                start_pos == old(self).cursor(),
                start_pos <= self.cursor() <= self.source().len(),
                forall|i: int|
                    start_pos <= i < self.cursor() ==> is_digit(#[trigger] self.source()[i]),
            decreases self.source().len() - self.cursor(),
        {
            self.read_char();
        }
        proof {
            lemma_run_in(self.source(), ByteClass::Digit, start_pos as int, self.cursor());
        }
        Token::Int(parse_decimal(self.input.as_bytes(), start_pos, self.pos).unwrap())
    }

    /// Whether the next token can be produced: false only where it is a
    /// literal whose value does not fit in an `i32`.
    pub fn next_fits(&self) -> (yes: bool)
        requires
            self.wf(),
        ensures
            yes == literal_fits(self.remaining()),
    {
        let bytes = self.input.as_bytes();
        if self.pos >= bytes.len() {
            proof {
                assert(trim(self.remaining()) =~= self.remaining());
            }
            return true;
        }
        let mut start = self.pos;
        while start < bytes.len() && (bytes[start] == SPACE || bytes[start] == TAB || bytes[start]
            == LINE_FEED || bytes[start] == CARRIAGE_RETURN)
            invariant
                bytes@ == self.source(),
                self.cursor() <= start <= bytes@.len(),
                forall|i: int| self.cursor() <= i < start ==> is_space(#[trigger] bytes@[i]),
            decreases bytes@.len() - start,
        {
            start += 1;
        }
        let mut end = start;
        while end < bytes.len() && self.is_digit(bytes[end])
            invariant
                start <= end <= bytes@.len(),
                forall|i: int| start <= i < end ==> is_digit(#[trigger] bytes@[i]),
            decreases bytes@.len() - end,
        {
            end += 1;
        }
        proof {
            lemma_run_in(bytes@, ByteClass::Space, self.cursor(), start as int);
            lemma_run_in(bytes@, ByteClass::Digit, start as int, end as int);
        }
        if start == end {
            true
        } else {
            parse_decimal(bytes, start, end).is_some()
        }
    }

    /// Produces the next token and moves the cursor past it.
    ///
    /// Whitespace in front of the token is skipped. At the end of the input,
    /// and only there, the token is `EOF`, and nothing is left to take. A
    /// literal must fit in an `i32`.
    pub fn next_token(&mut self) -> (token: Token)
        requires
            old(self).wf(),
            literal_fits(old(self).remaining()),
        ensures
            final(self).wf(),
            final(self).source() == old(self).source(),
            token@ == next_token_of(old(self).remaining()),
            final(self).remaining() == rest_after(old(self).remaining()),
    {
        self.skip_whitespace();
        let ghost t = self.remaining();
        let ch = self.ch;
        let token = if ch == EQUALS {
            if self.next_char_is(EQUALS) {
                self.read_char();
                Token::Equal
            } else {
                Token::Assign
            }
        } else if ch == BANG {
            if self.next_char_is(EQUALS) {
                self.read_char();
                Token::NotEqual
            } else {
                Token::Bang
            }
        } else if ch == SEMICOLON {
            Token::Semicolon
        } else if ch == LPAREN {
            Token::Lparen
        } else if ch == RPAREN {
            Token::Rparen
        } else if ch == COMMA {
            Token::Comma
        } else if ch == PLUS {
            Token::Plus
        } else if ch == MINUS {
            Token::Minus
        } else if ch == ASTERISK {
            Token::Asterisk
        } else if ch == SLASH {
            Token::Slash
        } else if ch == LESS {
            Token::LowerThan
        } else if ch == GREATER {
            Token::GraterThan
        } else if ch == LBRACE {
            Token::Lbrace
        } else if ch == RBRACE {
            Token::Rbrace
        } else if ch == NUL && self.pos >= self.input.as_bytes().len() {
            Token::EOF
        } else if self.is_letter(ch) {
            let word = self.read_identifier();
            proof {
                assert(self.remaining() =~= t.skip(scan(t).1 as int));
            }
            return word;
        } else if self.is_digit(ch) {
            let number = self.read_number();
            proof {
                assert(self.remaining() =~= t.skip(scan(t).1 as int));
            }
            return number;
        } else {
            Token::Illegal
        };
        self.read_char();
        proof {
            assert(self.remaining() =~= t.skip(scan(t).1 as int));
        }
        token
    }
}

/// Whether the bytes from `start` up to `end` are exactly `word`.
fn spells(bytes: &[u8], start: usize, end: usize, word: &[u8]) -> (yes: bool)
    requires
        start <= end <= bytes@.len(),
    ensures
        yes == (bytes@.subrange(start as int, end as int) == word@),
{
    if end - start != word.len() {
        return false;
    }
    let mut i: usize = 0;
    while i < word.len()
        invariant
            start <= end <= bytes@.len(),
            end - start == word@.len(),
            i <= word@.len(),
            forall|k: int| 0 <= k < i ==> bytes@[start + k] == #[trigger] word@[k],
        decreases word@.len() - i,
    {
        if bytes[start + i] != word[i] {
            assert(bytes@.subrange(start as int, end as int)[i as int] != word@[i as int]);
            return false;
        }
        i += 1;
    }
    assert(bytes@.subrange(start as int, end as int) =~= word@);
    true
}

/// Looks the bytes from `start` up to `end` up in the table of reserved words.
fn keyword_at(bytes: &[u8], start: usize, end: usize) -> (found: Option<Token>)
    requires
        start <= end <= bytes@.len(),
    ensures
        match found {
            Some(token) => keyword(bytes@.subrange(start as int, end as int)) == Some(token@),
            None => keyword(bytes@.subrange(start as int, end as int)) is None,
        },
{
    // The spellings, in ASCII: fn, let, true, false, if, else, return.
    let word_fn: [u8; 2] = [102, 110];
    let word_let: [u8; 3] = [108, 101, 116];
    let word_true: [u8; 4] = [116, 114, 117, 101];
    let word_false: [u8; 5] = [102, 97, 108, 115, 101];
    let word_if: [u8; 2] = [105, 102];
    let word_else: [u8; 4] = [101, 108, 115, 101];
    let word_return: [u8; 6] = [114, 101, 116, 117, 114, 110];
    proof {
        assert(word_fn@ =~= seq![102u8, 110u8]);
        assert(word_let@ =~= seq![108u8, 101u8, 116u8]);
        assert(word_true@ =~= seq![116u8, 114u8, 117u8, 101u8]);
        assert(word_false@ =~= seq![102u8, 97u8, 108u8, 115u8, 101u8]);
        assert(word_if@ =~= seq![105u8, 102u8]);
        assert(word_else@ =~= seq![101u8, 108u8, 115u8, 101u8]);
        assert(word_return@ =~= seq![114u8, 101u8, 116u8, 117u8, 114u8, 110u8]);
    }
    if spells(bytes, start, end, word_fn.as_slice()) {
        Some(Token::Function)
    } else if spells(bytes, start, end, word_let.as_slice()) {
        Some(Token::Let)
    } else if spells(bytes, start, end, word_true.as_slice()) {
        Some(Token::Bool(true))
    } else if spells(bytes, start, end, word_false.as_slice()) {
        Some(Token::Bool(false))
    } else if spells(bytes, start, end, word_if.as_slice()) {
        Some(Token::If)
    } else if spells(bytes, start, end, word_else.as_slice()) {
        Some(Token::Else)
    } else if spells(bytes, start, end, word_return.as_slice()) {
        Some(Token::Return)
    } else {
        None
    }
}

/// The value of the digits from `start` up to `end`, or `None` where it does
/// not fit in an `i32`.
fn parse_decimal(bytes: &[u8], start: usize, end: usize) -> (value: Option<i32>)
    requires
        start <= end <= bytes@.len(),
        forall|i: int| start <= i < end ==> is_digit(#[trigger] bytes@[i]),
    ensures
        match value {
            Some(v) => v == decimal_value(bytes@.subrange(start as int, end as int)),
            None => decimal_value(bytes@.subrange(start as int, end as int)) > i32::MAX,
        },
{
    let ghost digits = bytes@.subrange(start as int, end as int);
    let mut total: i32 = 0;
    let mut i: usize = start;
    while i < end
        invariant
            start <= i <= end <= bytes@.len(),
            digits == bytes@.subrange(start as int, end as int),
            forall|k: int| start <= k < end ==> is_digit(#[trigger] bytes@[k]),
            0 <= total,
            total == decimal_value(digits.take(i - start)),
        decreases end - i,
    {
        let digit: i64 = (bytes[i] - DIGIT_ZERO) as i64;
        let wider: i64 = total as i64 * 10 + digit;
        proof {
            let longer = digits.take(i - start + 1);
            assert(longer.drop_last() =~= digits.take(i - start));
            assert(longer.last() == bytes@[i as int]);
            assert(decimal_value(longer) == wider);
            lemma_decimal_value_prefix(digits, i - start + 1);
        }
        if wider > i32::MAX as i64 {
            return None;
        }
        total = wider as i32;
        i += 1;
    }
    proof {
        assert(digits.take(end - start) =~= digits);
    }
    Some(total)
}

} // verus!
