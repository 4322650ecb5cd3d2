//! Laws of the grammar, and so of every scanner that follows it.

use vstd::prelude::*;
use crate::ascii::{BANG, EQUALS};
use crate::grammar::{
    byte_at, decimal_digits, decimal_value, in_class, is_digit, is_gap, is_letter, is_space,
    keyword, lemma_run_len, lemma_run_len_bounds, lemma_scan_len, lexeme, next_token_of,
    nth_lexeme, nth_token,
    rest_after, rest_after_n, run_len, scan, text_of, trim, word_token, ByteClass,
};
use crate::token::TokenView;

verus! {

/// What is left after a token is an end piece of the input, and a shorter one
/// unless the token is `EOF`.
pub proof fn lemma_rest_is_suffix(s: Seq<u8>)
    ensures
        rest_after(s).len() <= s.len(),
        rest_after(s) == s.skip(s.len() - rest_after(s).len()),
        next_token_of(s) != TokenView::EOF ==> rest_after(s).len() < s.len(),
{
    lemma_run_len_bounds(s, ByteClass::Space);
    lemma_scan_len(trim(s));
    assert(rest_after(s) =~= s.skip(s.len() - rest_after(s).len()));
}

/// Taking `n` tokens and then `m` more is taking `n + m`.
pub proof fn lemma_rest_after_n_split(s: Seq<u8>, n: nat, m: nat)
    ensures
        rest_after_n(s, n + m) == rest_after_n(rest_after_n(s, n), m),
    decreases n,
{
    if n > 0 {
        lemma_rest_after_n_split(rest_after(s), (n - 1) as nat, m);
        assert(rest_after_n(s, n + m) == rest_after_n(rest_after(s), (n + m - 1) as nat));
    }
}

/// Scanning always comes to an end: on any input some call gives `EOF`, after
/// at most as many tokens as the input has bytes, and every call before the
/// first such call gives another token.
pub proof fn law_end_is_reached(s: Seq<u8>)
    ensures
        exists|n: nat|
            n <= s.len() && #[trigger] nth_token(s, n) == TokenView::EOF && forall|m: nat|
                m < n ==> #[trigger] nth_token(s, m) != TokenView::EOF,
    decreases s.len(),
{
    if next_token_of(s) == TokenView::EOF {
        assert(nth_token(s, 0) == TokenView::EOF);
    } else {
        let rest = rest_after(s);
        lemma_rest_is_suffix(s);
        law_end_is_reached(rest);
        let k = choose|n: nat|
            n <= rest.len() && #[trigger] nth_token(rest, n) == TokenView::EOF && forall|m: nat|
                m < n ==> #[trigger] nth_token(rest, m) != TokenView::EOF;
        let n = k + 1;
        assert(rest_after_n(s, n) == rest_after_n(rest, k));
        assert forall|m: nat| m < n implies #[trigger] nth_token(s, m) != TokenView::EOF by {
            if m > 0 {
                assert(rest_after_n(s, m) == rest_after_n(rest, (m - 1) as nat));
                assert(nth_token(rest, (m - 1) as nat) != TokenView::EOF);
            }
        }
        assert(nth_token(s, n) == TokenView::EOF);
    }
}

/// At the end of the input the token is `EOF` and nothing changes.
pub proof fn law_end_stays(s: Seq<u8>)
    requires
        s.len() == 0,
    ensures
        next_token_of(s) == TokenView::EOF,
        rest_after(s) == s,
{
    assert(rest_after(s) =~= s);
}

/// `EOF` is only given at the end of the input: nothing is left after it.
pub proof fn lemma_eof_means_end(s: Seq<u8>)
    requires
        next_token_of(s) == TokenView::EOF,
    ensures
        rest_after(s).len() == 0,
{
}

/// `EOF` is final: once a call has given `EOF`, every later call gives `EOF`
/// too.
pub proof fn law_end_is_final(s: Seq<u8>, n: nat, m: nat)
    requires
        nth_token(s, n) == TokenView::EOF,
        n <= m,
    ensures
        nth_token(s, m) == TokenView::EOF,
    decreases m - n,
{
    if n < m {
        let here = rest_after_n(s, n);
        lemma_eof_means_end(here);
        lemma_rest_after_n_split(s, n, 1);
        assert(rest_after_n(here, 1) == rest_after(here)) by {
            reveal_with_fuel(rest_after_n, 2);
        }
        law_end_stays(rest_after_n(s, n + 1));
        law_end_is_final(s, n + 1, m);
    }
}

/// Two-byte operators are read greedily: `==` is one equality token and `!=`
/// one inequality token, each taking both bytes; `=` and `!` before any other
/// byte, or at the end, are assignment and negation, taking one byte.
pub proof fn law_operators_are_greedy(s: Seq<u8>)
    ensures
        byte_at(trim(s), 0) == EQUALS && byte_at(trim(s), 1) == EQUALS ==> next_token_of(s)
            == TokenView::Equal && rest_after(s) == trim(s).skip(2),
        byte_at(trim(s), 0) == EQUALS && byte_at(trim(s), 1) != EQUALS ==> next_token_of(s)
            == TokenView::Assign && rest_after(s) == trim(s).skip(1),
        byte_at(trim(s), 0) == BANG && byte_at(trim(s), 1) == EQUALS ==> next_token_of(s)
            == TokenView::NotEqual && rest_after(s) == trim(s).skip(2),
        byte_at(trim(s), 0) == BANG && byte_at(trim(s), 1) != EQUALS ==> next_token_of(s)
            == TokenView::Bang && rest_after(s) == trim(s).skip(1),
{
}

/// A run of bytes of one class in front of a byte of another class, or of the
/// end, is read whole.
pub proof fn lemma_run_of_concat(run: Seq<u8>, rest: Seq<u8>, class: ByteClass)
    requires
        forall|i: int| 0 <= i < run.len() ==> in_class(class, #[trigger] run[i]),
        rest.len() == 0 || !in_class(class, rest[0]),
    ensures
        run_len(run + rest, class) == run.len(),
        (run + rest).take(run.len() as int) == run,
        (run + rest).skip(run.len() as int) == rest,
{
    let s = run + rest;
    assert forall|i: int| 0 <= i < run.len() implies in_class(class, #[trigger] s[i]) by {
        assert(s[i] == run[i]);
    }
    if rest.len() > 0 {
        assert(s[run.len() as int] == rest[0]);
    }
    lemma_run_len(s, class, run.len() as int);
    assert(s.take(run.len() as int) =~= run);
    assert(s.skip(run.len() as int) =~= rest);
}

/// An input that does not begin with whitespace has none to skip.
pub proof fn lemma_trim_nothing(s: Seq<u8>)
    requires
        s.len() > 0,
        !is_space(s[0]),
    ensures
        trim(s) == s,
{
    assert(trim(s) =~= s);
}

/// A word is read whole and exactly: a run of letters in front of anything
/// that is not a letter gives the reserved word that the whole run spells, or
/// else an identifier whose text is the run, byte for byte, and leaves what
/// follows the run.
pub proof fn law_word_is_read_whole(word: Seq<u8>, rest: Seq<u8>)
    requires
        word.len() > 0,
        forall|i: int| 0 <= i < word.len() ==> is_letter(#[trigger] word[i]),
        rest.len() == 0 || !is_letter(rest[0]),
    ensures
        next_token_of(word + rest) == word_token(word),
        rest_after(word + rest) == rest,
        keyword(word) is None ==> next_token_of(word + rest) == TokenView::Ident(text_of(word)),
{
    assert((word + rest)[0] == word[0]);
    lemma_trim_nothing(word + rest);
    lemma_run_of_concat(word, rest, ByteClass::Letter);
}

/// Reserved words are matched whole: a longer word that begins or ends with
/// a reserved word is not reserved, so it is an identifier with its full
/// text.
pub proof fn law_longer_word_is_identifier(reserved: Seq<u8>, word: Seq<u8>)
    requires
        keyword(reserved) is Some,
        word.len() > reserved.len(),
        word.take(reserved.len() as int) == reserved || word.skip(word.len() - reserved.len())
            == reserved,
    ensures
        keyword(word) is None,
        word_token(word) == TokenView::Ident(text_of(word)),
{
    let n = reserved.len() as int;
    let front = word.take(n);
    let back = word.skip(word.len() - n);
    assert(front[0] == word[0] && front[1] == word[1]);
    assert(back[n - 1] == word[word.len() - 1] && back[n - 2] == word[word.len() - 2]);
}

/// The value of the decimal digits of a number is that number.
pub proof fn lemma_decimal_digits(n: nat)
    ensures
        decimal_digits(n).len() > 0,
        forall|i: int| 0 <= i < decimal_digits(n).len() ==> is_digit(#[trigger] decimal_digits(n)[i]),
        decimal_value(decimal_digits(n)) == n,
    decreases n,
{
    if n < 10 {
        let d = decimal_digits(n);
        assert(d.drop_last().len() == 0);
        assert(decimal_value(d.drop_last()) == 0);
    } else {
        lemma_decimal_digits(n / 10);
        let front = decimal_digits(n / 10);
        let d = decimal_digits(n);
        assert(d.drop_last() =~= front);
    }
}

/// A literal is read whole and exactly: a run of digits in front of anything
/// that is not a digit gives an integer token with the value of the run, and
/// leaves what follows the run.
pub proof fn law_literal_is_read_whole(digits: Seq<u8>, rest: Seq<u8>)
    requires
        digits.len() > 0,
        forall|i: int| 0 <= i < digits.len() ==> is_digit(#[trigger] digits[i]),
        rest.len() == 0 || !is_digit(rest[0]),
    ensures
        next_token_of(digits + rest) == TokenView::Int(decimal_value(digits) as int),
        rest_after(digits + rest) == rest,
{
    assert((digits + rest)[0] == digits[0]);
    lemma_trim_nothing(digits + rest);
    lemma_run_of_concat(digits, rest, ByteClass::Digit);
}

/// Numbers survive the round trip: the decimal digits of `n`, in front of
/// anything that is not a digit, are read as the integer `n`.
pub proof fn law_number_round_trip(n: nat, rest: Seq<u8>)
    requires
        rest.len() == 0 || !is_digit(rest[0]),
    ensures
        next_token_of(decimal_digits(n) + rest) == TokenView::Int(n as int),
        rest_after(decimal_digits(n) + rest) == rest,
{
    lemma_decimal_digits(n);
    law_literal_is_read_whole(decimal_digits(n), rest);
}

/// Whitespace in front of an input does not change its next token, nor what
/// is left after it.
pub proof fn law_leading_whitespace(gap: Seq<u8>, s: Seq<u8>)
    requires
        is_gap(gap),
    ensures
        trim(gap + s) == trim(s),
        next_token_of(gap + s) == next_token_of(s),
        rest_after(gap + s) == rest_after(s),
{
    let whole = gap + s;
    let n = run_len(s, ByteClass::Space) as int;
    lemma_run_len_bounds(s, ByteClass::Space);
    assert forall|i: int| 0 <= i < gap.len() + n implies in_class(
        ByteClass::Space,
        #[trigger] whole[i],
    ) by {
        if i < gap.len() {
            assert(whole[i] == gap[i]);
        } else {
            assert(whole[i] == s[i - gap.len()]);
        }
    }
    if n < s.len() {
        assert(whole[gap.len() + n] == s[n]);
    }
    lemma_run_len(whole, ByteClass::Space, gap.len() + n);
    assert(trim(whole) =~= trim(s));
}

/// An input of whitespace alone gives `EOF` at every call.
pub proof fn lemma_gap_gives_eof(s: Seq<u8>, n: nat)
    requires
        is_gap(s),
    ensures
        nth_token(s, n) == TokenView::EOF,
    decreases n,
{
    lemma_run_len(s, ByteClass::Space, s.len() as int);
    assert(trim(s).len() == 0);
    if n > 0 {
        lemma_gap_gives_eof(rest_after(s), (n - 1) as nat);
    }
}

/// What is left after `n` tokens is no longer than the input.
pub proof fn lemma_rest_after_n_len(s: Seq<u8>, n: nat)
    ensures
        rest_after_n(s, n).len() <= s.len(),
    decreases n,
{
    if n > 0 {
        lemma_rest_is_suffix(s);
        lemma_rest_after_n_len(rest_after(s), (n - 1) as nat);
    }
}

/// Two continuations look alike to a token that ends before them: they are
/// the same, or the second begins with whitespace.
pub open spec fn same_front(x: Seq<u8>, y: Seq<u8>) -> bool {
    x == y || (y.len() > 0 && is_space(y[0]))
}

/// A token that lies within `t` is the same whatever follows `t`, as long as
/// what follows begins alike.
pub proof fn lemma_scan_is_local(t: Seq<u8>, x: Seq<u8>, y: Seq<u8>)
    requires
        t.len() > 0,
        scan(t + x).1 <= t.len(),
        same_front(x, y),
    ensures
        scan(t + y) == scan(t + x),
{
    let sx = t + x;
    let sy = t + y;
    assert(sx[0] == t[0] && sy[0] == t[0]);
    if t.len() >= 2 {
        assert(sx[1] == t[1] && sy[1] == t[1]);
    } else {
        if x.len() > 0 {
            assert(sx[1] == x[0]);
        }
        if y.len() > 0 {
            assert(sy[1] == y[0]);
        }
    }
    let b = t[0];
    if is_letter(b) {
        lemma_run_is_local(t, x, y, ByteClass::Letter);
        let n = run_len(sx, ByteClass::Letter) as int;
        assert(sy.take(n) =~= sx.take(n));
    } else if is_digit(b) {
        lemma_run_is_local(t, x, y, ByteClass::Digit);
        let n = run_len(sx, ByteClass::Digit) as int;
        assert(sy.take(n) =~= sx.take(n));
    }
}

/// A run of letters or digits that ends within `t` is the same whatever
/// follows `t`, as long as what follows begins alike.
pub proof fn lemma_run_is_local(t: Seq<u8>, x: Seq<u8>, y: Seq<u8>, class: ByteClass)
    requires
        run_len(t + x, class) <= t.len(),
        same_front(x, y),
        class != ByteClass::Space,
    ensures
        run_len(t + y, class) == run_len(t + x, class),
{
    let sx = t + x;
    let sy = t + y;
    let n = run_len(sx, class) as int;
    lemma_run_len_bounds(sx, class);
    assert forall|i: int| 0 <= i < n implies in_class(class, #[trigger] sy[i]) by {
        assert(sy[i] == t[i] && sx[i] == t[i]);
    }
    if n < t.len() {
        assert(sy[n] == t[n] && sx[n] == t[n]);
    } else if y.len() > 0 {
        assert(sy[n] == y[0]);
        if x == y {
            assert(sx[n] == x[0]);
        }
    }
    lemma_run_len(sy, class, n);
}

/// One step of the scan that stays within `a` is the same whatever follows
/// `a`, as long as what follows begins alike.
pub proof fn lemma_step_is_local(a: Seq<u8>, x: Seq<u8>, y: Seq<u8>)
    requires
        same_front(x, y),
        trim(a + x).len() > 0,
        rest_after(a + x).len() >= x.len(),
    ensures
        next_token_of(a + y) == next_token_of(a + x),
        (a + x).len() - rest_after(a + x).len() <= a.len(),
        rest_after(a + x) == a.skip((a + x).len() - rest_after(a + x).len()) + x,
        rest_after(a + y) == a.skip((a + x).len() - rest_after(a + x).len()) + y,
{
    let sx = a + x;
    let sy = a + y;
    let r = run_len(sx, ByteClass::Space) as int;
    lemma_run_len_bounds(sx, ByteClass::Space);
    lemma_scan_len(trim(sx));
    assert(r < a.len());
    assert forall|i: int| 0 <= i < r implies in_class(ByteClass::Space, #[trigger] sy[i]) by {
        assert(sy[i] == a[i] && sx[i] == a[i]);
    }
    assert(sy[r] == a[r] && sx[r] == a[r]);
    lemma_run_len(sy, ByteClass::Space, r);
    let t = a.skip(r);
    assert(trim(sx) =~= t + x);
    assert(trim(sy) =~= t + y);
    lemma_scan_is_local(t, x, y);
    let k = scan(t + x).1 as int;
    assert((t + x).skip(k) =~= a.skip(r + k) + x);
    assert((t + y).skip(k) =~= a.skip(r + k) + y);
}

/// Changing the whitespace in front of an input changes no token of it.
pub proof fn lemma_gap_swap(gap: Seq<u8>, other: Seq<u8>, back: Seq<u8>, n: nat)
    requires
        is_gap(gap),
        is_gap(other),
    ensures
        nth_token(other + back, n) == nth_token(gap + back, n),
{
    law_leading_whitespace(gap, back);
    law_leading_whitespace(other, back);
    if n > 0 {
        assert(rest_after_n(other + back, n) == rest_after_n(gap + back, n));
    }
}

/// The scan of `a + x` and of `a + y` give the same tokens, where the first
/// reaches `x` after `k` tokens, `x` and `y` begin alike and give the same
/// tokens themselves.
proof fn lemma_stream_is_local(
    a: Seq<u8>,
    gap: Seq<u8>,
    other: Seq<u8>,
    back: Seq<u8>,
    k: nat,
    n: nat,
)
    requires
        is_gap(gap),
        is_gap(other),
        gap.len() == 0 || other.len() > 0,
        rest_after_n(a + (gap + back), k) == gap + back,
    ensures
        nth_token(a + (other + back), n) == nth_token(a + (gap + back), n),
    decreases k,
{
    let x = gap + back;
    let y = other + back;
    if other.len() > 0 {
        assert(y[0] == other[0]);
    } else {
        assert(x =~= y);
    }
    assert(same_front(x, y));
    if a.len() == 0 {
        assert(a + x =~= x);
        assert(a + y =~= y);
        lemma_gap_swap(gap, other, back, n);
    } else if trim(a + x).len() == 0 {
        let sx = a + x;
        let sy = a + y;
        lemma_run_len_bounds(sx, ByteClass::Space);
        assert forall|i: int| 0 <= i < sy.len() implies is_space(#[trigger] sy[i]) by {
            if i < a.len() {
                assert(sy[i] == a[i] && sx[i] == a[i]);
            } else if i < a.len() + other.len() {
                assert(sy[i] == other[i - a.len()]);
            } else {
                let j = i - a.len() - other.len();
                assert(sy[i] == back[j]);
                assert(sx[a.len() + gap.len() + j] == back[j]);
            }
        }
        lemma_gap_gives_eof(sx, n);
        lemma_gap_gives_eof(sy, n);
    } else {
        let rest = rest_after(a + x);
        assert(rest_after_n(a + x, k) == rest_after_n(rest, (k - 1) as nat));
        lemma_rest_after_n_len(rest, (k - 1) as nat);
        lemma_step_is_local(a, x, y);
        if n > 0 {
            let shorter = a.skip((a + x).len() - rest.len());
            lemma_stream_is_local(shorter, gap, other, back, (k - 1) as nat, (n - 1) as nat);
            assert(rest_after_n(a + x, n) == rest_after_n(rest, (n - 1) as nat));
            assert(rest_after_n(a + y, n) == rest_after_n(rest_after(a + y), (n - 1) as nat));
        }
    }
}

/// Whitespace between tokens is invisible. Where the scan of
/// `front + gap + back` stands in front of `gap + back` after some number `k`
/// of tokens, and `gap` is whitespace, any other whitespace may take the place
/// of `gap` and every call gives the token it gave before. With an empty `gap`
/// this inserts whitespace between two tokens. A run that separates two tokens
/// can be changed and shortened, but not removed: `other` may be empty only if
/// `gap` is.
pub proof fn law_whitespace_is_invisible(
    front: Seq<u8>,
    gap: Seq<u8>,
    other: Seq<u8>,
    back: Seq<u8>,
    k: nat,
    n: nat,
)
    requires
        is_gap(gap),
        is_gap(other),
        gap.len() == 0 || other.len() > 0,
        rest_after_n(front + gap + back, k) == gap + back,
    ensures
        nth_token(front + other + back, n) == nth_token(front + gap + back, n),
{
    assert(front + gap + back =~= front + (gap + back));
    assert(front + other + back =~= front + (other + back));
    lemma_stream_is_local(front, gap, other, back, k, n);
}

/// A run, cut off from what follows it, is still the same run.
pub proof fn lemma_run_alone(t: Seq<u8>, class: ByteClass)
    ensures
        run_len(t, class) <= t.len(),
        run_len(t.take(run_len(t, class) as int), class) == run_len(t, class),
{
    lemma_run_len_bounds(t, class);
    let k = run_len(t, class) as int;
    let piece = t.take(k);
    assert forall|i: int| 0 <= i < k implies in_class(class, #[trigger] piece[i]) by {
        assert(piece[i] == t[i]);
    }
    lemma_run_len(piece, class, k);
}

/// A token's own bytes, scanned alone, give the same token and are taken
/// whole.
pub proof fn lemma_scan_of_lexeme(t: Seq<u8>)
    ensures
        scan(t).1 <= t.len(),
        scan(t.take(scan(t).1 as int)) == scan(t),
{
    lemma_scan_len(t);
    lemma_run_alone(t, ByteClass::Letter);
    lemma_run_alone(t, ByteClass::Digit);
    let k = scan(t).1 as int;
    let piece = t.take(k);
    if t.len() > 0 {
        assert(piece[0] == t[0]);
        if k >= 2 {
            assert(piece[1] == t[1]);
        }
        assert(piece.take(k) =~= piece);
    }
}

/// An input is made of whitespace and lexemes, and of nothing else: it is
/// the whitespace in front, then the bytes of the next token, then what is
/// left; the bytes of a token hold no whitespace.
pub proof fn law_input_is_gaps_and_lexemes(s: Seq<u8>)
    ensures
        run_len(s, ByteClass::Space) <= s.len(),
        is_gap(s.take(run_len(s, ByteClass::Space) as int)),
        s == s.take(run_len(s, ByteClass::Space) as int) + lexeme(s) + rest_after(s),
        forall|i: int| 0 <= i < lexeme(s).len() ==> !is_space(#[trigger] lexeme(s)[i]),
{
    let r = run_len(s, ByteClass::Space) as int;
    lemma_run_len_bounds(s, ByteClass::Space);
    let t = trim(s);
    lemma_scan_len(t);
    let k = scan(t).1 as int;
    assert(s =~= s.take(r) + t.take(k) + t.skip(k));
    if t.len() > 0 {
        assert(t[0] == s[r]);
        lemma_run_len_bounds(t, ByteClass::Letter);
        lemma_run_len_bounds(t, ByteClass::Digit);
        assert forall|i: int| 0 <= i < k implies !is_space(#[trigger] lexeme(s)[i]) by {
            assert(lexeme(s)[i] == t[i]);
        }
    }
}

/// The token is a function of its own bytes: every call gives the token that
/// its lexeme gives when scanned alone.
pub proof fn law_token_follows_lexeme(s: Seq<u8>, n: nat)
    ensures
        nth_token(s, n) == scan(nth_lexeme(s, n)).0,
{
    lemma_scan_of_lexeme(trim(rest_after_n(s, n)));
}

/// Whitespace is invisible, however many runs of it differ: two inputs that
/// split into the same lexemes give the same tokens, call by call, whatever
/// whitespace stands before, between and after the lexemes. With
/// `law_input_is_gaps_and_lexemes`, such inputs differ in their whitespace
/// alone.
pub proof fn law_same_lexemes_same_tokens(a: Seq<u8>, b: Seq<u8>)
    requires
        forall|n: nat| #[trigger] nth_lexeme(a, n) == nth_lexeme(b, n),
    ensures
        forall|n: nat| #[trigger] nth_token(a, n) == nth_token(b, n),
{
    assert forall|n: nat| #[trigger] nth_token(a, n) == nth_token(b, n) by {
        law_token_follows_lexeme(a, n);
        law_token_follows_lexeme(b, n);
        assert(nth_lexeme(a, n) == nth_lexeme(b, n));
    }
}

} // verus!
