//! The scanner: maximal munch over the rule table, with one-character error
//! tokens where no rule matches.
use vstd::prelude::*;
use vstd::std_specs::iter::IteratorSpec;

use crate::rules::{longest_match, match_rule, rule_at, rule_kind, rule_table, RULE_COUNT};
use crate::token::{byte_len, char_width, lemma_byte_len_prefix, lemma_byte_len_push, text_between, utf8_width, Token, TokenKind, TokenView};

verus! {

/// Among the first `k` rules of the table, the longest match at the start of
/// `w` and the index of the earliest rule that reaches it: `(0, 0)` where
/// none matches.
#[verifier::opaque]
pub open spec fn best_among(w: Seq<char>, k: nat) -> (nat, nat)
    decreases k,
{
    if k == 0 {
        (0, 0)
    } else {
        let prev = best_among(w, (k - 1) as nat);
        let m = longest_match(rule_table()[k - 1], w);
        if m > prev.0 {
            (m, (k - 1) as nat)
        } else {
            prev
        }
    }
}

/// The token that starts `w` (which is not empty): the kind and length of the
/// longest match over all rules, the earliest rule winning a tie; an error of
/// one character where no rule matches.
pub open spec fn munch(w: Seq<char>) -> (TokenKind, nat) {
    let best = best_among(w, RULE_COUNT as nat);
    if best.0 == 0 {
        (TokenKind::Error, 1)
    } else {
        (rule_kind(rule_table()[best.1 as int]), best.0)
    }
}

/// A token as a kind and a span of character positions.
pub ghost struct Lexeme {
    pub kind: TokenKind,
    pub start: nat,
    pub end: nat,
}

/// The lexemes of `s` from character position `i` on.
pub open spec fn lex_from(s: Seq<char>, i: nat) -> Seq<Lexeme>
    decreases s.len() - i,
{
    if i >= s.len() {
        seq![]
    } else {
        let m = munch(s.subrange(i as int, s.len() as int));
        // A match never runs past the end of `s`; the bound states it plainly.
        let end: nat = if i + m.1 <= s.len() { i + m.1 } else { s.len() };
        seq![Lexeme { kind: m.0, start: i, end }] + lex_from(s, end)
    }
}

/// The lexemes of `s`, in order.
pub open spec fn lexemes(s: Seq<char>) -> Seq<Lexeme> {
    lex_from(s, 0)
}

/// The token for lexeme `l` of `s`: its text, and its span in UTF-8 bytes.
pub open spec fn token_of(s: Seq<char>, l: Lexeme) -> TokenView {
    TokenView {
        kind: l.kind,
        value: s.subrange(l.start as int, l.end as int),
        start: byte_len(s.take(l.start as int)),
        end: byte_len(s.take(l.end as int)),
    }
}

/// The tokens of `s`, in order, whitespace included.
pub open spec fn tokens_of(s: Seq<char>) -> Seq<TokenView> {
    lexemes(s).map_values(|l: Lexeme| token_of(s, l))
}

/// The tokens of `s`, in order, without the whitespace tokens.
pub open spec fn tokens_without_whitespace(s: Seq<char>) -> Seq<TokenView> {
    tokens_of(s).filter(kept(true))
}

/// The kind and length of the token that starts at position `i` of `s`.
pub fn scan_one(s: &Vec<char>, i: usize) -> (r: (TokenKind, usize))
    requires
        i < s.len(),
    ensures
        (r.0, r.1 as nat) == munch(s@.subrange(i as int, s.len() as int)),
        1 <= r.1 <= s.len() - i,
{
    let ghost w = s@.subrange(i as int, s.len() as int);
    let mut best: usize = 0;
    let mut best_index: usize = 0;
    let mut k: usize = 0;
    proof {
        reveal(best_among);
    }
    while k < RULE_COUNT
        invariant
            i < s.len(),
            w == s@.subrange(i as int, s.len() as int),
            k <= RULE_COUNT,
            (best as nat, best_index as nat) == best_among(w, k as nat),
            best <= s.len() - i,
            best_index < RULE_COUNT,
        decreases RULE_COUNT - k,
    {
        let n = match_rule(rule_at(k), s, i);
        proof {
            reveal(best_among);
        }
        if n > best {
            best = n;
            best_index = k;
        }
        k = k + 1;
    }
    if best == 0 {
        (TokenKind::Error, 1)
    } else {
        (rule_at(best_index).kind(), best)
    }
}

/// The characters of `input`, in order.
fn chars_of(input: &str) -> (v: Vec<char>)
    ensures
        v@ == input@,
{
    let mut it = input.chars();
    let mut v: Vec<char> = Vec::new();
    loop
        invariant
            it.obeys_prophetic_iter_laws(),
            it.decrease() is Some,
            v@ + it.remaining() == input@,
        ensures
            it.remaining().len() == 0,
        decreases it.decrease()->0,
    {
        match it.next() {
            Some(c) => {
                v.push(c);
            },
            None => {
                break;
            },
        }
    }
    assert(v@ =~= input@);
    v
}

/// Whether a token stays in the output: all do, or, where whitespace is
/// skipped, all but the whitespace tokens.
pub open spec fn kept(skip_whitespace: bool) -> spec_fn(TokenView) -> bool {
    |t: TokenView| !skip_whitespace || t.kind != TokenKind::Whitespace
}

proof fn lemma_filter_all(ts: Seq<TokenView>)
    ensures
        ts.filter(kept(false)) == ts,
    decreases ts.len(),
{
    if ts.len() > 0 {
        lemma_filter_all(ts.drop_last());
        ts.drop_last().lemma_filter_push(ts.last(), kept(false));
        assert(ts.drop_last().push(ts.last()) =~= ts);
    } else {
        assert(ts.filter(kept(false)) =~= ts);
    }
}

fn scan(input: &str, skip_whitespace: bool) -> (r: Vec<Token>)
    ensures
        r@.map_values(|t: Token| t@) == tokens_of(input@).filter(kept(skip_whitespace)),
{
    let s = chars_of(input);
    let bytes = input.as_bytes();
    let total = bytes.len();
    let mut out: Vec<Token> = Vec::new();
    let ghost mut done: Seq<Lexeme> = seq![];
    let ghost f = |l: Lexeme| token_of(s@, l);
    let mut i: usize = 0;
    let mut b: usize = 0;
    proof {
        assert(out@.map_values(|t: Token| t@) =~= done.map_values(f).filter(kept(skip_whitespace)));
    }
    while i < s.len()
        invariant
            s@ == input@,
            total == byte_len(s@),
            f == (|l: Lexeme| token_of(s@, l)),
            i <= s.len(),
            b == byte_len(s@.take(i as int)),
            lexemes(s@) == done + lex_from(s@, i as nat),
            out@.map_values(|t: Token| t@) == done.map_values(f).filter(kept(skip_whitespace)),
        decreases s.len() - i,
    {
        let (kind, n) = scan_one(&s, i);
        let end = i + n;
        let start_byte = b;
        let mut j = i;
        while j < end
            invariant
                i <= j <= end <= s.len(),
                total == byte_len(s@),
                b == byte_len(s@.take(j as int)),
            decreases end - j,
        {
            proof {
                assert(s@.take(j + 1) =~= s@.take(j as int).push(s@[j as int]));
                lemma_byte_len_push(s@.take(j as int), s@[j as int]);
                lemma_byte_len_prefix(s@, j + 1);
            }
            b = b + utf8_width(s[j]);
            j = j + 1;
        }
        let ghost l = Lexeme { kind, start: i as nat, end: end as nat };
        proof {
            assert(lex_from(s@, i as nat) == seq![l] + lex_from(s@, end as nat));
            assert(done + lex_from(s@, i as nat) =~= done.push(l) + lex_from(s@, end as nat));
            done.lemma_push_map_commute(f, l);
            done.map_values(f).lemma_filter_push(f(l), kept(skip_whitespace));
        }
        if !(skip_whitespace && matches!(kind, TokenKind::Whitespace)) {
            let value = text_between(input, start_byte, b, Ghost(i as int), Ghost(end as int));
            let tok = Token { kind, value, start: start_byte, end: b };
            proof {
                assert(tok@ == f(l));
                out@.lemma_push_map_commute(|t: Token| t@, tok);
            }
            out.push(tok);
        }
        proof {
            done = done.push(l);
        }
        i = end;
    }
    proof {
        assert(done =~= lexemes(s@));
    }
    out
}

/// Tokenizes `input`, whitespace included. The tokens cover the whole input
/// in order; where no rule matches, a one-character `Error` token stands.
pub fn tokenize(input: &str) -> (r: Vec<Token>)
    ensures
        r@.map_values(|t: Token| t@) == tokens_of(input@),
{
    let r = scan(input, false);
    proof {
        lemma_filter_all(tokens_of(input@));
    }
    r
}

/// Tokenizes `input` and leaves out the whitespace tokens.
pub fn tokenize_skipping_whitespace(input: &str) -> (r: Vec<Token>)
    ensures
        r@.map_values(|t: Token| t@) == tokens_without_whitespace(input@),
{
    scan(input, true)
}

} // verus!
