use vstd::prelude::*;
use crate::token::{Token, symbol_of, symbol_char, is_digit, is_space};
use crate::lexer::{
    tokens_of,
    digit_run,
    decimal_value,
    wrap64,
    lemma_digit_run_bounds,
    lemma_digit_run_is,
    lemma_wrap64_id,
};

verus! {

/// The last character of `a` and the first of `b` are both digits, so that
/// writing `b` right after `a` joins two runs of digits into one.
pub open spec fn digits_meet(a: Seq<char>, b: Seq<char>) -> bool {
    a.len() > 0 && b.len() > 0 && is_digit(a.last()) && is_digit(b[0])
}

/// Every character of `s` is white space.
pub open spec fn all_space(s: Seq<char>) -> bool {
    forall|i: int| 0 <= i < s.len() ==> is_space(#[trigger] s[i])
}

/// Every character of `s` is an ASCII digit.
pub open spec fn all_digits(s: Seq<char>) -> bool {
    forall|i: int| 0 <= i < s.len() ==> is_digit(#[trigger] s[i])
}

/// Tokenizing two pieces written one after the other gives the tokens of the
/// first followed by those of the second, unless a run of digits spans the
/// joint: the order of the source is kept.
pub proof fn tokens_of_concat(a: Seq<char>, b: Seq<char>)
    requires
        !digits_meet(a, b),
    ensures
        tokens_of(a + b) == tokens_of(a) + tokens_of(b),
    decreases a.len(),
{
    let s = a + b;
    if a.len() == 0 {
        assert(s =~= b);
        assert(tokens_of(a) + tokens_of(b) =~= tokens_of(b));
    } else {
        assert(s[0] == a[0]);
        if is_digit(a[0]) {
            let n = digit_run(a) as int;
            lemma_digit_run_bounds(a);
            assert forall|i: int| 0 <= i < n implies is_digit(#[trigger] s[i]) by {
                assert(s[i] == a[i]);
            }
            if n < a.len() {
                assert(s[n] == a[n]);
            } else if b.len() > 0 {
                assert(a.last() == a[n - 1]);
                assert(s[n] == b[0]);
            }
            lemma_digit_run_is(s, n);
            assert(s.take(n) =~= a.take(n));
            assert(s.skip(n) =~= a.skip(n) + b);
            if a.skip(n).len() > 0 {
                assert(a.skip(n).last() == a.last());
            }
            tokens_of_concat(a.skip(n), b);
            assert(tokens_of(s) =~= tokens_of(a) + tokens_of(b));
        } else {
            assert(s.skip(1) =~= a.skip(1) + b);
            if a.skip(1).len() > 0 {
                assert(a.skip(1).last() == a.last());
            }
            tokens_of_concat(a.skip(1), b);
            assert(tokens_of(s) =~= tokens_of(a) + tokens_of(b));
        }
    }
}

/// Input made only of white space has no tokens.
pub proof fn whitespace_has_no_tokens(s: Seq<char>)
    requires
        all_space(s),
    ensures
        tokens_of(s) == Seq::<Token>::empty(),
    decreases s.len(),
{
    if s.len() > 0 {
        assert(is_space(s[0]));
        assert forall|i: int| 0 <= i < s.skip(1).len() implies is_space(#[trigger] s.skip(1)[i]) by {
            assert(s.skip(1)[i] == s[i + 1]);
        }
        whitespace_has_no_tokens(s.skip(1));
    }
}

/// The value of a digit sequence is never negative.
proof fn lemma_decimal_value_nonneg(s: Seq<char>)
    requires
        all_digits(s),
    ensures
        decimal_value(s) >= 0,
    decreases s.len(),
{
    if s.len() > 0 {
        assert(is_digit(s[s.len() - 1]));
        assert forall|i: int| 0 <= i < s.drop_last().len() implies is_digit(
            #[trigger] s.drop_last()[i],
        ) by {
            assert(s.drop_last()[i] == s[i]);
        }
        lemma_decimal_value_nonneg(s.drop_last());
    }
}

/// Input made only of ASCII digits is one number token, whose value is the
/// base-10 integer that the digits spell, wrapped to `i64` where it is larger
/// than `i64::MAX`.
pub proof fn digits_are_one_number(s: Seq<char>)
    requires
        s.len() > 0,
        all_digits(s),
    ensures
        tokens_of(s) == seq![Token::Number(wrap64(decimal_value(s)))],
        decimal_value(s) <= i64::MAX ==> tokens_of(s) == seq![
            Token::Number(decimal_value(s) as i64),
        ],
{
    lemma_digit_run_is(s, s.len() as int);
    assert(s.take(s.len() as int) =~= s);
    assert(is_digit(s[0]));
    assert(s.skip(s.len() as int).len() == 0);
    assert(tokens_of(s.skip(s.len() as int)) =~= Seq::<Token>::empty());
    assert(tokens_of(s) =~= seq![Token::Number(wrap64(decimal_value(s)))]);
    lemma_decimal_value_nonneg(s);
    if decimal_value(s) <= i64::MAX {
        lemma_wrap64_id(decimal_value(s) as i64);
    }
}

/// The eight symbol characters and the eight symbol tokens correspond one to
/// one: `c` maps to `t` exactly when `t` is spelled `c`.
pub proof fn symbol_correspondence(c: char, t: Token)
    ensures
        symbol_of(c) == Some(t) <==> symbol_char(t) == Some(c),
{
}

/// A symbol character alone, with any white space around it, is its one token.
pub proof fn symbol_alone(w1: Seq<char>, c: char, w2: Seq<char>)
    requires
        symbol_of(c) is Some,
        all_space(w1),
        all_space(w2),
    ensures
        tokens_of(w1 + seq![c] + w2) == seq![symbol_of(c)->0],
{
    let sc = seq![c];
    assert(!is_digit(c));
    tokens_of_concat(w1, sc);
    tokens_of_concat(w1 + sc, w2);
    whitespace_has_no_tokens(w1);
    whitespace_has_no_tokens(w2);
    assert(sc.skip(1).len() == 0);
    assert(tokens_of(sc.skip(1)) =~= Seq::<Token>::empty());
    assert(tokens_of(sc) =~= seq![symbol_of(c)->0]);
    assert(tokens_of(w1 + sc + w2) =~= seq![symbol_of(c)->0]);
}

/// Non-empty white space between two pieces leaves their tokens side by side;
/// so does no white space, where no run of digits spans the joint.
proof fn lemma_space_between(a: Seq<char>, w: Seq<char>, b: Seq<char>)
    requires
        all_space(w),
        w.len() > 0 || !digits_meet(a, b),
    ensures
        tokens_of(a + w + b) == tokens_of(a) + tokens_of(b),
{
    if w.len() == 0 {
        assert(a + w + b =~= a + b);
        tokens_of_concat(a, b);
    } else {
        assert(is_space(w[0]));
        assert(is_space(w.last()));
        assert(a + w + b =~= a + (w + b));
        tokens_of_concat(w, b);
        tokens_of_concat(a, w + b);
        whitespace_has_no_tokens(w);
        assert(tokens_of(w) + tokens_of(b) =~= tokens_of(b));
    }
}

/// Putting more or less white space between two pieces of input does not
/// change the tokens, as long as the pieces stay apart: either both amounts
/// are non-empty, or no run of digits spans the joint.
pub proof fn whitespace_between_is_free(a: Seq<char>, w1: Seq<char>, w2: Seq<char>, b: Seq<char>)
    requires
        all_space(w1),
        all_space(w2),
        (w1.len() > 0 && w2.len() > 0) || !digits_meet(a, b),
    ensures
        tokens_of(a + w1 + b) == tokens_of(a + w2 + b),
{
    lemma_space_between(a, w1, b);
    lemma_space_between(a, w2, b);
}

/// A character that is neither a digit nor a symbol is dropped: the input
/// with it has the tokens of the input without it, unless removing it would
/// join two runs of digits.
pub proof fn unrecognized_is_dropped(a: Seq<char>, c: char, b: Seq<char>)
    requires
        !is_digit(c),
        symbol_of(c) is None,
        !digits_meet(a, b),
    ensures
        tokens_of(a + seq![c] + b) == tokens_of(a + b),
{
    let sc = seq![c];
    assert(a + sc + b =~= a + (sc + b));
    assert((sc + b)[0] == c);
    tokens_of_concat(a, sc + b);
    assert((sc + b).skip(1) =~= b);
    tokens_of_concat(a, b);
}

} // verus!
