use vstd::prelude::*;
use vstd::arithmetic::div_mod::{
    lemma_small_mod,
    lemma_mod_add_multiples_vanish,
    lemma_mod_sub_multiples_vanish,
    lemma_mul_mod_noop_left,
    lemma_add_mod_noop,
};
use crate::token::{
    Token,
    symbol_of,
    is_digit,
    digit_value,
    is_space,
    symbol_token,
    is_ascii_digit,
    is_white_space,
    digit_of,
};

verus! {

/// Length of the run of ASCII digits at the start of `s`.
pub open spec fn digit_run(s: Seq<char>) -> nat
    decreases s.len(),
{
    if s.len() > 0 && is_digit(s[0]) {
        1 + digit_run(s.skip(1))
    } else {
        0
    }
}

/// Length of the run of white space at the start of `s`.
pub open spec fn space_run(s: Seq<char>) -> nat
    decreases s.len(),
{
    if s.len() > 0 && is_space(s[0]) {
        1 + space_run(s.skip(1))
    } else {
        0
    }
}

/// A run of `k` white-space characters followed by another character or by
/// the end is the white-space run.
proof fn lemma_space_run_is(s: Seq<char>, k: int)
    requires
        0 <= k <= s.len(),
        forall|i: int| 0 <= i < k ==> is_space(#[trigger] s[i]),
        k < s.len() ==> !is_space(s[k]),
    ensures
        space_run(s) == k,
    decreases k,
{
    if k > 0 {
        assert forall|i: int| 0 <= i < k - 1 implies is_space(#[trigger] s.skip(1)[i]) by {
            assert(s.skip(1)[i] == s[i + 1]);
        }
        if k < s.len() {
            assert(s.skip(1)[k - 1] == s[k]);
        }
        lemma_space_run_is(s.skip(1), k - 1);
    }
}

/// The base-10 integer that a sequence of digits spells, most significant first.
pub open spec fn decimal_value(s: Seq<char>) -> int
    decreases s.len(),
{
    if s.len() == 0 {
        0
    } else {
        decimal_value(s.drop_last()) * 10 + digit_value(s.last())
    }
}

/// The `i64` that two's-complement arithmetic gives for the integer `x`:
/// the one congruent to `x` modulo 2^64.
pub open spec fn wrap64(x: int) -> i64 {
    let m = x % 0x1_0000_0000_0000_0000int;
    if m > i64::MAX {
        (m - 0x1_0000_0000_0000_0000int) as i64
    } else {
        m as i64
    }
}

/// The number token that a run of digits becomes; a value past the range of
/// `i64` wraps around.
pub open spec fn number_token(digits: Seq<char>) -> Token {
    Token::Number(wrap64(decimal_value(digits)))
}

/// The tokens of `s`, in order. Each symbol character gives its token, each
/// maximal run of ASCII digits gives one number, and every other character
/// (white space included) gives nothing and only ends a run of digits.
pub open spec fn tokens_of(s: Seq<char>) -> Seq<Token>
    decreases s.len(),
    via tokens_of_decreases
{
    if s.len() == 0 {
        seq![]
    } else if is_digit(s[0]) {
        let n = digit_run(s) as int;
        seq![number_token(s.take(n))] + tokens_of(s.skip(n))
    } else {
        match symbol_of(s[0]) {
            Some(t) => seq![t] + tokens_of(s.skip(1)),
            None => tokens_of(s.skip(1)),
        }
    }
}

#[via_fn]
proof fn tokens_of_decreases(s: Seq<char>) {
    if s.len() > 0 && is_digit(s[0]) {
        lemma_digit_run_bounds(s);
    }
}

/// A digit run is no longer than its sequence, holds only digits, and is
/// followed by a non-digit or by the end.
pub proof fn lemma_digit_run_bounds(s: Seq<char>)
    ensures
        digit_run(s) <= s.len(),
        s.len() > 0 && is_digit(s[0]) ==> digit_run(s) >= 1,
        forall|i: int| 0 <= i < digit_run(s) ==> is_digit(#[trigger] s[i]),
        digit_run(s) < s.len() ==> !is_digit(s[digit_run(s) as int]),
    decreases s.len(),
{
    if s.len() > 0 && is_digit(s[0]) {
        lemma_digit_run_bounds(s.skip(1));
        assert forall|i: int| 0 <= i < digit_run(s) implies is_digit(#[trigger] s[i]) by {
            if i > 0 {
                assert(s[i] == s.skip(1)[i - 1]);
            }
        }
    }
}

/// A run of `k` digits followed by a non-digit or by the end is the digit run.
pub proof fn lemma_digit_run_is(s: Seq<char>, k: int)
    requires
        0 <= k <= s.len(),
        forall|i: int| 0 <= i < k ==> is_digit(#[trigger] s[i]),
        k < s.len() ==> !is_digit(s[k]),
    ensures
        digit_run(s) == k,
    decreases k,
{
    if k > 0 {
        assert forall|i: int| 0 <= i < k - 1 implies is_digit(#[trigger] s.skip(1)[i]) by {
            assert(s.skip(1)[i] == s[i + 1]);
        }
        if k < s.len() {
            assert(s.skip(1)[k - 1] == s[k]);
        }
        lemma_digit_run_is(s.skip(1), k - 1);
    }
}

/// A character that is neither a digit nor a symbol contributes no token.
proof fn lemma_skip_dropped(s: Seq<char>, p: int)
    requires
        0 <= p < s.len(),
        !is_digit(s[p]),
        symbol_of(s[p]) is None,
    ensures
        tokens_of(s.skip(p + 1)) == tokens_of(s.skip(p)),
{
    assert(s.skip(p)[0] == s[p]);
    assert(s.skip(p).skip(1) =~= s.skip(p + 1));
}

/// `wrap64(x)` is congruent to `x` modulo 2^64.
proof fn lemma_wrap64_congruent(x: int)
    ensures
        (wrap64(x) as int) % 0x1_0000_0000_0000_0000int == x % 0x1_0000_0000_0000_0000int,
{
    let big = 0x1_0000_0000_0000_0000int;
    let m = x % big;
    lemma_small_mod(m as nat, big as nat);
    if m > i64::MAX {
        lemma_mod_sub_multiples_vanish(m, big);
    }
}

/// An `i64` wraps to itself.
pub(crate) proof fn lemma_wrap64_id(v: i64)
    ensures
        wrap64(v as int) == v,
{
    let big = 0x1_0000_0000_0000_0000int;
    if v >= 0 {
        lemma_small_mod(v as nat, big as nat);
    } else {
        lemma_mod_add_multiples_vanish(v as int, big);
        lemma_small_mod((big + v) as nat, big as nat);
    }
}

/// One step of accumulating a decimal literal with wrapping `i64`
/// arithmetic agrees with wrapping the exact value.
proof fn lemma_wrap64_step(acc: i64, x: int, d: i64)
    requires
        acc == wrap64(x),
        0 <= d <= 9,
    ensures
        vstd::wrapping::i64_specs::wrapping_add(vstd::wrapping::i64_specs::wrapping_mul(acc, 10), d)
            == wrap64(x * 10 + d),
{
    let big = 0x1_0000_0000_0000_0000int;
    let p = vstd::wrapping::i64_specs::wrapping_mul(acc, 10);
    let r = vstd::wrapping::i64_specs::wrapping_add(p, d);
    assert(p == wrap64(acc * 10));
    lemma_wrap64_congruent(acc * 10);
    lemma_wrap64_congruent(x);
    lemma_mul_mod_noop_left(acc as int, 10, big);
    lemma_mul_mod_noop_left(x, 10, big);
    assert((r as int) % big == (p + d) % big) by {
        if p + d > i64::MAX {
            lemma_mod_sub_multiples_vanish(p + d, big);
        }
    }
    lemma_add_mod_noop(p as int, d as int, big);
    lemma_add_mod_noop(acc * 10, d as int, big);
    lemma_add_mod_noop(x * 10, d as int, big);
    lemma_wrap64_id(r);
}

/// What one step of a scan finds.
enum Step {
    /// A token.
    Emit(Token),
    /// A character that belongs to no token, passed over.
    Discard,
    /// The end of the source.
    End,
}

/// A scanner over one source string: its characters and a cursor at the
/// next unread one.
pub struct Lexer {
    input: Vec<char>,
    position: usize,
}

impl Lexer {
    /// The characters of the source.
    pub closed spec fn source(&self) -> Seq<char> {
        self.input@
    }

    /// Index of the next unread character.
    pub closed spec fn cursor(&self) -> nat {
        self.position as nat
    }

    /// The characters not read yet.
    pub open spec fn rest(&self) -> Seq<char> {
        self.source().skip(self.cursor() as int)
    }

    #[verifier::type_invariant]
    closed spec fn cursor_in_bounds(&self) -> bool {
        self.position <= self.input.len()
    }

    /// A scanner at the start of `input`.
    pub fn new(input: &str) -> (l: Lexer)
        ensures
            l.source() == input@,
            l.cursor() == 0,
    {
        let mut chars: Vec<char> = Vec::new();
        for c in it: input.chars()
            invariant
                it.seq() == input@,
                chars@ == it.seq().take(it.index() as int),
        {
            chars.push(c);
        }
        Lexer { input: chars, position: 0 }
    }

    /// Reads the run of digits at the cursor and returns its value.
    fn read_number(&mut self) -> (n: i64)
        requires
            old(self).cursor() < old(self).source().len(),
            is_digit(old(self).source()[old(self).cursor() as int]),
        ensures
            final(self).source() == old(self).source(),
            final(self).cursor() == old(self).cursor() + digit_run(old(self).rest()),
            Token::Number(n) == number_token(old(self).rest().take(digit_run(old(self).rest()) as int)),
    {
        proof {
            use_type_invariant(&*self);
        }
        let ghost s = self.input@;
        let start = self.position;
        let mut number: i64 = 0;
        while self.position < self.input.len() && is_ascii_digit(self.input[self.position])
            invariant
                self.input@ == s,
                start <= self.position <= s.len(),
                forall|i: int| start <= i < self.position ==> is_digit(#[trigger] s[i]),
                number == wrap64(decimal_value(s.subrange(start as int, self.position as int))),
            decreases s.len() - self.position,
        {
            let d = digit_of(self.input[self.position]);
            proof {
                let ds = s.subrange(start as int, self.position + 1);
                assert(ds.drop_last() =~= s.subrange(start as int, self.position as int));
                lemma_wrap64_step(number, decimal_value(ds.drop_last()), d);
            }
            number = number.wrapping_mul(10).wrapping_add(d);
            self.position = self.position + 1;
        }
        proof {
            let r = s.skip(start as int);
            let k = self.position - start;
            assert forall|i: int| 0 <= i < k implies is_digit(#[trigger] r[i]) by {
                assert(r[i] == s[start + i]);
            }
            if k < r.len() {
                assert(r[k] == s[self.position as int]);
            }
            lemma_digit_run_is(r, k);
            assert(r.take(k) =~= s.subrange(start as int, self.position as int));
        }
        number
    }

    /// Moves the cursor past the white space in front of it.
    fn skip_whitespace(&mut self)
        ensures
            final(self).source() == old(self).source(),
            old(self).cursor() <= final(self).cursor() <= old(self).source().len(),
            forall|i: int|
                old(self).cursor() <= i < final(self).cursor() ==> is_space(
                    #[trigger] old(self).source()[i],
                ),
            final(self).cursor() < final(self).source().len() ==> !is_space(
                final(self).source()[final(self).cursor() as int],
            ),
            final(self).cursor() == old(self).token_start(),
            tokens_of(final(self).rest()) == tokens_of(old(self).rest()),
    {
        proof {
            use_type_invariant(&*self);
        }
        let ghost s = self.input@;
        let ghost start = self.position;
        while self.position < self.input.len() && is_white_space(self.input[self.position])
            invariant
                self.input@ == s,
                start <= self.position <= s.len(),
                forall|i: int| start <= i < self.position ==> is_space(#[trigger] s[i]),
                tokens_of(s.skip(self.position as int)) == tokens_of(s.skip(start as int)),
            decreases s.len() - self.position,
        {
            proof {
                lemma_skip_dropped(s, self.position as int);
            }
            self.position = self.position + 1;
        }
        proof {
            let r = s.skip(start as int);
            let k = self.position - start;
            assert forall|i: int| 0 <= i < k implies is_space(#[trigger] r[i]) by {
                assert(r[i] == s[start + i]);
            }
            if k < r.len() {
                assert(r[k] == s[self.position as int]);
            }
            lemma_space_run_is(r, k);
        }
    }

    /// Index of the first character at or after the cursor that is not white
    /// space, or the length of the source if there is none.
    pub open spec fn token_start(&self) -> int {
        (self.cursor() + space_run(self.rest())) as int
    }

    /// One step of the scan: skips white space, then reads one symbol, one
    /// whole run of digits, or one character that belongs to no token.
    fn next_token(&mut self) -> (r: Step)
        ensures
            final(self).source() == old(self).source(),
            ({
                let s = old(self).source();
                let i = old(self).token_start();
                if i >= s.len() {
                    &&& r == Step::End
                    &&& final(self).cursor() == s.len()
                } else if is_digit(s[i]) {
                    let j = i + digit_run(s.skip(i));
                    &&& r == Step::Emit(number_token(s.subrange(i, j)))
                    &&& final(self).cursor() == j
                } else if symbol_of(s[i]) is Some {
                    &&& r == Step::Emit(symbol_of(s[i])->0)
                    &&& final(self).cursor() == i + 1
                } else {
                    &&& r == Step::Discard
                    &&& final(self).cursor() == i + 1
                }
            }),
            r != Step::End ==> final(self).cursor() > old(self).cursor(),
            final(self).cursor() <= final(self).source().len(),
            tokens_of(old(self).rest()) == match r {
                Step::Emit(t) => seq![t] + tokens_of(final(self).rest()),
                _ => tokens_of(final(self).rest()),
            },
    {
        self.skip_whitespace();
        proof {
            use_type_invariant(&*self);
        }
        let ghost s = self.input@;
        let ghost i = self.position as int;
        if self.position >= self.input.len() {
            proof {
                assert(s.skip(i).len() == 0);
            }
            return Step::End;
        }
        let ch = self.input[self.position];
        proof {
            assert(s.skip(i)[0] == ch);
        }
        if is_ascii_digit(ch) {
            let n = self.read_number();
            proof {
                let k = digit_run(s.skip(i)) as int;
                lemma_digit_run_bounds(s.skip(i));
                assert(s.skip(i).skip(k) =~= s.skip(i + k));
                assert(s.skip(i).take(k) =~= s.subrange(i, i + k));
            }
            return Step::Emit(Token::Number(n));
        }
        proof {
            assert(s.skip(i).skip(1) =~= s.skip(i + 1));
        }
        self.position = self.position + 1;
        match symbol_token(ch) {
            Some(t) => Step::Emit(t),
            None => Step::Discard,
        }
    }

    /// Scans the rest of the source and returns all its tokens in order.
    pub fn tokenize(&mut self) -> (tokens: Vec<Token>)
        ensures
            tokens@ == tokens_of(old(self).rest()),
            final(self).source() == old(self).source(),
            final(self).cursor() == final(self).source().len(),
    {
        let ghost all = tokens_of(self.rest());
        let mut tokens: Vec<Token> = Vec::new();
        loop
            invariant
                self.source() == old(self).source(),
                all == tokens_of(old(self).rest()),
                tokens@ + tokens_of(self.rest()) == all,
            decreases self.source().len() - self.cursor(),
        {
            match self.next_token() {
                Step::Emit(t) => {
                    proof {
                        assert(tokens@.push(t) + tokens_of(self.rest()) =~= tokens@ + (seq![t]
                            + tokens_of(self.rest())));
                    }
                    tokens.push(t);
                },
                Step::Discard => {},
                Step::End => {
                    proof {
                        assert(tokens_of(self.rest()) =~= Seq::<Token>::empty());
                        assert(tokens@ + Seq::<Token>::empty() =~= tokens@);
                    }
                    return tokens;
                },
            }
        }
    }
}

} // verus!
