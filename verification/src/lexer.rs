//! The lexer: a character sequence becomes a token sequence, left to right.
//!
//! [`lex_from`] is the mathematical lexer; the executable [`lex`] is proved
//! to return exactly its result.  Digit runs accumulate into one `Number`
//! token by `value * 10 + digit`; a value too wide for the host integer
//! wraps, as [`wrap_to_i32`] says.

use crate::token::{is_digit_char, is_operator_char, wf_tokens, LexError, Token};
use crate::wrap::wrap_to_i32;
use vstd::arithmetic::div_mod::{
    lemma_add_mod_noop, lemma_mod_add_multiples_vanish, lemma_mod_bound, lemma_mul_mod_noop_left,
    lemma_small_mod,
};
use vstd::prelude::*;
use vstd::string::StrSliceExecFns;

verus! {

/// Index just past the run of digits that starts at `i`.
pub open spec fn digit_run_end(s: Seq<char>, i: int) -> int
    decreases s.len() - i
        when 0 <= i <= s.len()
{
    if i < s.len() && is_digit_char(s[i]) {
        digit_run_end(s, i + 1)
    } else {
        i
    }
}

/// Decimal value of the digits `s[i .. k]`.
pub open spec fn digits_value(s: Seq<char>, i: int, k: int) -> int
    decreases k - i
        when i <= k
{
    if i < k {
        digits_value(s, i, k - 1) * 10 + (s[k - 1] as u32 - '0' as u32)
    } else {
        0
    }
}

/// The digit run that starts at `i` stays inside `s`, holds digits only, is
/// maximal, and is nonempty exactly when `s[i]` is a digit.
pub proof fn lemma_digit_run_end_bounds(s: Seq<char>, i: int)
    requires
        0 <= i <= s.len(),
    ensures
        i <= digit_run_end(s, i) <= s.len(),
        i < s.len() && is_digit_char(s[i]) ==> i < digit_run_end(s, i),
        forall|j: int| i <= j < digit_run_end(s, i) ==> is_digit_char(#[trigger] s[j]),
        digit_run_end(s, i) < s.len() ==> !is_digit_char(s[digit_run_end(s, i)]),
    decreases s.len() - i,
{
    if i < s.len() && is_digit_char(s[i]) {
        lemma_digit_run_end_bounds(s, i + 1);
    }
}

/// The value of a digit run is not negative.
pub proof fn lemma_digits_value_nonneg(s: Seq<char>, i: int, k: int)
    requires
        i <= k,
        forall|j: int| i <= j < k ==> is_digit_char(#[trigger] s[j]),
    ensures
        digits_value(s, i, k) >= 0,
    decreases k - i,
{
    if i < k {
        lemma_digits_value_nonneg(s, i, k - 1);
    }
}

/// The token sequence of `s` from index `i` on, or the first character that
/// belongs to no token.
pub open spec fn lex_from(s: Seq<char>, i: int) -> Result<Seq<Token>, LexError>
    decreases s.len() - i
        when 0 <= i <= s.len()
        via lex_from_decreases
{
    if i >= s.len() {
        Ok(Seq::empty())
    } else if is_digit_char(s[i]) {
        let k = digit_run_end(s, i);
        let tok = Token::Number(wrap_to_i32(digits_value(s, i, k)));
        match lex_from(s, k) {
            Ok(rest) => Ok(seq![tok] + rest),
            Err(e) => Err(e),
        }
    } else if is_operator_char(s[i]) {
        match lex_from(s, i + 1) {
            Ok(rest) => Ok(seq![Token::Operator(s[i])] + rest),
            Err(e) => Err(e),
        }
    } else if s[i] == '(' {
        match lex_from(s, i + 1) {
            Ok(rest) => Ok(seq![Token::LeftParen] + rest),
            Err(e) => Err(e),
        }
    } else if s[i] == ')' {
        match lex_from(s, i + 1) {
            Ok(rest) => Ok(seq![Token::RightParen] + rest),
            Err(e) => Err(e),
        }
    } else if s[i] == ' ' {
        lex_from(s, i + 1)
    } else {
        Err(LexError { ch: s[i] })
    }
}

#[via_fn]
proof fn lex_from_decreases(s: Seq<char>, i: int) {
    if 0 <= i && i < s.len() && is_digit_char(s[i]) {
        lemma_digit_run_end_bounds(s, i);
    }
}

/// The token sequence of the whole of `s`.
pub open spec fn lex_spec(s: Seq<char>) -> Result<Seq<Token>, LexError> {
    lex_from(s, 0)
}

/// Tokens already produced, put before the outcome of lexing the rest.
spec fn prepend_tokens(done: Seq<Token>, rest: Result<Seq<Token>, LexError>) -> Result<
    Seq<Token>,
    LexError,
> {
    match rest {
        Ok(ts) => Ok(done + ts),
        Err(e) => Err(e),
    }
}

/// Reads the maximal digit run that begins at `start`: returns its value
/// wrapped to the host integer, and the index just past the run.
fn scan_number(expr: &str, start: usize) -> (res: (i32, usize))
    requires
        start < expr@.len(),
        is_digit_char(expr@[start as int]),
    ensures
        res.1 as int == digit_run_end(expr@, start as int),
        res.0 == wrap_to_i32(digits_value(expr@, start as int, digit_run_end(expr@, start as int))),
{
    let ghost s = expr@;
    let ghost end = digit_run_end(s, start as int);
    proof {
        lemma_digit_run_end_bounds(s, start as int);
    }
    let n = expr.unicode_len();
    let mut i: usize = start;
    let mut acc: u32 = 0;
    loop
        invariant
            n as int == s.len(),
            s == expr@,
            start as int <= i as int <= end,
            end == digit_run_end(s, start as int),
            end <= s.len(),
            forall|j: int| start as int <= j < end ==> is_digit_char(#[trigger] s[j]),
            end < s.len() ==> !is_digit_char(s[end]),
            acc as int == digits_value(s, start as int, i as int) % 0x1_0000_0000,
        ensures
            i as int == end,
            acc as int == digits_value(s, start as int, end) % 0x1_0000_0000,
        decreases s.len() - i as int,
    {
        if i >= n {
            break ;
        }
        let c = expr.get_char(i);
        if !crate::token::digit_char(c) {
            break ;
        }
        proof {
            // `i` is strictly inside the run: were `i == end`, the character
            // there would not be a digit.
            assert((i as int) < end);
        }
        let d: u32 = c as u32 - 48;
        let ghost v = digits_value(s, start as int, i as int);
        proof {
            lemma_digits_value_nonneg(s, start as int, i as int);
            lemma_mod_bound(v, 0x1_0000_0000);
            lemma_mul_mod_noop_left(v, 10, 0x1_0000_0000);
            lemma_mod_bound(v * 10, 0x1_0000_0000);
            lemma_add_mod_noop(v * 10, d as int, 0x1_0000_0000);
            lemma_small_mod(d as nat, 0x1_0000_0000);
            if (v * 10) % 0x1_0000_0000 + d as int >= 0x1_0000_0000 {
                lemma_mod_add_multiples_vanish(
                    (v * 10) % 0x1_0000_0000 + d as int - 0x1_0000_0000,
                    0x1_0000_0000,
                );
                lemma_small_mod(
                    ((v * 10) % 0x1_0000_0000 + d as int - 0x1_0000_0000) as nat,
                    0x1_0000_0000,
                );
            } else {
                lemma_small_mod(((v * 10) % 0x1_0000_0000 + d as int) as nat, 0x1_0000_0000);
            }
        }
        acc = acc.wrapping_mul(10).wrapping_add(d);
        i = i + 1;
    }
    let value: i32 = if acc < 0x8000_0000 {
        acc as i32
    } else {
        (acc as i64 - 0x1_0000_0000i64) as i32
    };
    (value, i)
}

/// Turns an expression into tokens, left to right: digit runs become one
/// `Number` each, the four operators and the parentheses become their
/// tokens, spaces are skipped, and any other character is the error.
pub fn lex(expr: &str) -> (r: Result<Vec<Token>, LexError>)
    ensures
        match r {
            Ok(tokens) => lex_spec(expr@) == Ok::<Seq<Token>, LexError>(tokens@) && wf_tokens(
                tokens@,
            ),
            Err(e) => lex_spec(expr@) == Err::<Seq<Token>, LexError>(e),
        },
{
    let ghost s = expr@;
    let n = expr.unicode_len();
    let mut tokens: Vec<Token> = Vec::new();
    let mut i: usize = 0;
    while i < n
        invariant
            n as int == s.len(),
            s == expr@,
            i as int <= s.len(),
            lex_spec(s) == prepend_tokens(tokens@, lex_from(s, i as int)),
            wf_tokens(tokens@),
        decreases s.len() - i as int,
    {
        let ghost done = tokens@;
        let c = expr.get_char(i);
        if crate::token::digit_char(c) {
            proof {
                lemma_digit_run_end_bounds(s, i as int);
            }
            let (value, next) = scan_number(expr, i);
            tokens.push(Token::Number(value));
            proof {
                let rest = lex_from(s, digit_run_end(s, i as int));
                if rest is Ok {
                    assert(done + (seq![tokens@[tokens@.len() - 1]] + rest->Ok_0) =~= tokens@
                        + rest->Ok_0);
                }
            }
            i = next;
        } else if crate::token::operator_char(c) {
            tokens.push(Token::Operator(c));
            proof {
                let rest = lex_from(s, i as int + 1);
                if rest is Ok {
                    assert(done + (seq![tokens@[tokens@.len() - 1]] + rest->Ok_0) =~= tokens@
                        + rest->Ok_0);
                }
            }
            i = i + 1;
        } else if c == '(' {
            tokens.push(Token::LeftParen);
            proof {
                let rest = lex_from(s, i as int + 1);
                if rest is Ok {
                    assert(done + (seq![Token::LeftParen] + rest->Ok_0) =~= tokens@ + rest->Ok_0);
                }
            }
            i = i + 1;
        } else if c == ')' {
            tokens.push(Token::RightParen);
            proof {
                let rest = lex_from(s, i as int + 1);
                if rest is Ok {
                    assert(done + (seq![Token::RightParen] + rest->Ok_0) =~= tokens@ + rest->Ok_0);
                }
            }
            i = i + 1;
        } else if c == ' ' {
            i = i + 1;
        } else {
            return Err(LexError { ch: c });
        }
    }
    proof {
        assert(tokens@ + Seq::<Token>::empty() =~= tokens@);
    }
    Ok(tokens)
}

} // verus!
