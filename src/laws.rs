//! Properties of the token stream that hold for every input.
use vstd::prelude::*;
use vstd::utf8::encode_utf8;

use crate::rules::{accepts, is_space, longest_match, longest_prefix, rule_kind, rule_table, Rule, RULE_COUNT};
use crate::scanner::{best_among, kept, lex_from, lexemes, munch, token_of, tokens_of, tokens_without_whitespace, Lexeme};
use crate::token::{byte_len, lemma_byte_len_push, lemma_encode_concat, TokenKind, TokenView};

verus! {

/// `longest_prefix` is the longest accepted prefix: it is accepted (or 0)
/// and nothing longer, up to the bound, is.
pub proof fn lemma_longest_prefix_is_longest(r: Rule, w: Seq<char>, k: nat)
    requires
        k <= w.len(),
    ensures
        longest_prefix(r, w, k) <= k,
        longest_prefix(r, w, k) > 0 ==> accepts(r, w.take(longest_prefix(r, w, k) as int)),
        forall|m: nat|
            longest_prefix(r, w, k) < m <= k ==> !accepts(r, #[trigger] w.take(m as int)),
    decreases k,
{
    if k > 0 && !accepts(r, w.take(k as int)) {
        lemma_longest_prefix_is_longest(r, w, (k - 1) as nat);
    }
}

proof fn lemma_best_among(w: Seq<char>, k: nat)
    requires
        k <= RULE_COUNT,
    ensures
        best_among(w, k).0 <= w.len(),
        best_among(w, k).0 > 0 ==> best_among(w, k).1 < k && longest_match(
            rule_table()[best_among(w, k).1 as int],
            w,
        ) == best_among(w, k).0,
        forall|j: int| 0 <= j < k ==> longest_match(#[trigger] rule_table()[j], w) <= best_among(w, k).0,
        forall|j: int|
            0 <= j < best_among(w, k).1 ==> longest_match(#[trigger] rule_table()[j], w) < best_among(w, k).0,
    decreases k,
{
    reveal(best_among);
    if k > 0 {
        lemma_best_among(w, (k - 1) as nat);
        lemma_longest_prefix_is_longest(rule_table()[k - 1], w, w.len());
    }
}

/// Maximal munch: the token at the start of a nonempty `w` has the length of
/// the longest match over all rules, and its kind is that of the earliest rule
/// that reaches this length. Where no rule accepts, it is an `Error` of one
/// character.
pub proof fn lemma_maximal_munch(w: Seq<char>)
    requires
        w.len() > 0,
    ensures
        munch(w).0 == TokenKind::Error <==> forall|j: int|
            0 <= j < RULE_COUNT ==> longest_match(#[trigger] rule_table()[j], w) == 0,
        munch(w).0 == TokenKind::Error ==> munch(w).1 == 1,
        munch(w).0 != TokenKind::Error ==> exists|i: int|
            0 <= i < RULE_COUNT && rule_kind(#[trigger] rule_table()[i]) == munch(w).0
                && accepts(rule_table()[i], w.take(munch(w).1 as int))
                && forall|j: int| 0 <= j < i ==> longest_match(#[trigger] rule_table()[j], w) < munch(w).1,
        forall|j: int| 0 <= j < RULE_COUNT ==> longest_match(#[trigger] rule_table()[j], w) <= munch(w).1,
        1 <= munch(w).1 <= w.len(),
{
    lemma_best_among(w, RULE_COUNT as nat);
    let best = best_among(w, RULE_COUNT as nat);
    if best.0 > 0 {
        let i = best.1 as int;
        lemma_longest_prefix_is_longest(rule_table()[i], w, w.len());
        assert(rule_kind(rule_table()[i]) != TokenKind::Error);
        assert(longest_match(rule_table()[i], w) != 0);
    }
}

proof fn lemma_lex_from(s: Seq<char>, i: nat)
    requires
        i <= s.len(),
    ensures
        (lex_from(s, i).len() == 0) == (i == s.len()),
        lex_from(s, i).len() > 0 ==> lex_from(s, i)[0].start == i && lex_from(s, i).last().end
            == s.len(),
        forall|k: int|
            0 <= k < lex_from(s, i).len() ==> i <= (#[trigger] lex_from(s, i)[k]).start
                < lex_from(s, i)[k].end <= s.len(),
        forall|j: int, k: int|
            #![trigger lex_from(s, i)[j], lex_from(s, i)[k]]
            0 <= j && k == j + 1 && k < lex_from(s, i).len() ==> lex_from(s, i)[j].end
                == lex_from(s, i)[k].start,
        forall|k: int|
            0 <= k < lex_from(s, i).len() ==> munch(
                s.subrange((#[trigger] lex_from(s, i)[k]).start as int, s.len() as int),
            ) == (lex_from(s, i)[k].kind, (lex_from(s, i)[k].end - lex_from(s, i)[k].start) as nat),
    decreases s.len() - i,
{
    if i < s.len() {
        let w = s.subrange(i as int, s.len() as int);
        let m = munch(w);
        let end: nat = if i + m.1 <= s.len() { i + m.1 } else { s.len() };
        lemma_maximal_munch(w);
        let head = Lexeme { kind: m.0, start: i, end };
        let rest = lex_from(s, end);
        let ls = lex_from(s, i);
        assert(ls == seq![head] + rest);
        lemma_lex_from(s, end);
        assert(ls[0] == head);
        assert forall|k: int| 1 <= k < ls.len() implies #[trigger] ls[k] == rest[k - 1] by {}
        if rest.len() > 0 {
            assert(ls.last() == rest.last());
            assert(ls[1] == rest[0]);
        }
        assert forall|j: int, k: int| 0 <= j && k == j + 1 && k < ls.len() implies #[trigger] ls[j].end
            == #[trigger] ls[k].start by {
            if j > 0 {
                assert(ls[j] == rest[j - 1]);
                assert(ls[k] == rest[k - 1]);
            }
        }
    }
}

proof fn lemma_byte_len_increasing(s: Seq<char>, a: int, b: int)
    requires
        0 <= a < b <= s.len(),
    ensures
        byte_len(s.take(a)) < byte_len(s.take(b)),
    decreases b - a,
{
    assert(s.take(b) =~= s.take(b - 1).push(s[b - 1]));
    lemma_byte_len_push(s.take(b - 1), s[b - 1]);
    if a < b - 1 {
        lemma_byte_len_increasing(s, a, b - 1);
    }
}

/// Tiling: the tokens of `s` cover its bytes `[0, len)` in order, each token
/// nonempty, each starting where the one before it ends.
pub proof fn lemma_tiling(s: Seq<char>)
    ensures
        (tokens_of(s).len() == 0) == (s.len() == 0),
        tokens_of(s).len() > 0 ==> tokens_of(s)[0].start == 0 && tokens_of(s).last().end
            == byte_len(s),
        forall|k: int|
            0 <= k < tokens_of(s).len() ==> (#[trigger] tokens_of(s)[k]).start < tokens_of(s)[k].end,
        forall|j: int, k: int|
            #![trigger tokens_of(s)[j], tokens_of(s)[k]]
            0 <= j && k == j + 1 && k < tokens_of(s).len() ==> tokens_of(s)[j].end
                == tokens_of(s)[k].start,
{
    lemma_lex_from(s, 0);
    let ls = lexemes(s);
    let ts = tokens_of(s);
    assert forall|k: int| 0 <= k < ts.len() implies (#[trigger] ts[k]).start < ts[k].end by {
        lemma_byte_len_increasing(s, ls[k].start as int, ls[k].end as int);
    }
    assert forall|j: int, k: int| 0 <= j && k == j + 1 && k < ts.len() implies #[trigger] ts[j].end
        == #[trigger] ts[k].start by {
        assert(ls[j].end == ls[k].start);
    }
    if ts.len() > 0 {
        assert(s.take(0) =~= Seq::<char>::empty());
        assert(s.take(s.len() as int) =~= s);
        assert(ts.last() == token_of(s, ls.last()));
    }
}

/// The texts of `ts`, one after another.
pub open spec fn concat_values(ts: Seq<TokenView>) -> Seq<char>
    decreases ts.len(),
{
    if ts.len() == 0 {
        seq![]
    } else {
        ts[0].value + concat_values(ts.drop_first())
    }
}

proof fn lemma_round_trip_from(s: Seq<char>, i: nat)
    requires
        i <= s.len(),
    ensures
        concat_values(lex_from(s, i).map_values(|l: Lexeme| token_of(s, l))) == s.subrange(
            i as int,
            s.len() as int,
        ),
    decreases s.len() - i,
{
    let f = |l: Lexeme| token_of(s, l);
    if i < s.len() {
        let m = munch(s.subrange(i as int, s.len() as int));
        let end: nat = if i + m.1 <= s.len() { i + m.1 } else { s.len() };
        lemma_round_trip_from(s, end);
        lemma_lex_from(s, i);
        let ts = lex_from(s, i).map_values(f);
        assert(ts.drop_first() =~= lex_from(s, end).map_values(f));
        assert(s.subrange(i as int, s.len() as int) =~= s.subrange(i as int, end as int)
            + s.subrange(end as int, s.len() as int));
    } else {
        assert(lex_from(s, i).map_values(f) =~= Seq::<TokenView>::empty());
        assert(s.subrange(i as int, s.len() as int) =~= Seq::<char>::empty());
    }
}

/// Round trip: the texts of the tokens of `s`, in order, make up `s`.
pub proof fn lemma_round_trip(s: Seq<char>)
    ensures
        concat_values(tokens_of(s)) == s,
{
    lemma_round_trip_from(s, 0);
    assert(s.subrange(0, s.len() as int) =~= s);
}

/// Tokenizing is a function of the input: two runs on equal inputs give equal
/// token streams.
pub proof fn lemma_deterministic(a: Seq<char>, b: Seq<char>)
    requires
        a == b,
    ensures
        tokens_of(a) == tokens_of(b),
        tokens_without_whitespace(a) == tokens_without_whitespace(b),
{
}

/// Skipping whitespace drops only whitespace: every token that
/// `tokens_without_whitespace` leaves out is a run of spaces, tabs, newlines
/// and form feeds.
pub proof fn lemma_skipped_text_is_whitespace(s: Seq<char>)
    ensures
        tokens_without_whitespace(s) == tokens_of(s).filter(kept(true)),
        forall|k: int, j: int|
            0 <= k < tokens_of(s).len() && (#[trigger] tokens_of(s)[k]).kind == TokenKind::Whitespace
                && 0 <= j < tokens_of(s)[k].value.len() ==> is_space(#[trigger] tokens_of(s)[k].value[j]),
{
    lemma_lex_from(s, 0);
    let ls = lexemes(s);
    assert forall|k: int, j: int|
        0 <= k < tokens_of(s).len() && (#[trigger] tokens_of(s)[k]).kind == TokenKind::Whitespace
            && 0 <= j < tokens_of(s)[k].value.len() implies is_space(#[trigger] tokens_of(s)[k].value[j]) by {
        let l = ls[k];
        let w = s.subrange(l.start as int, s.len() as int);
        let n = (l.end - l.start) as nat;
        lemma_maximal_munch(w);
        let i = choose|i: int|
            0 <= i < RULE_COUNT && rule_kind(#[trigger] rule_table()[i]) == munch(w).0
                && accepts(rule_table()[i], w.take(munch(w).1 as int))
                && forall|j: int| 0 <= j < i ==> longest_match(#[trigger] rule_table()[j], w) < munch(w).1;
        assert(rule_table()[i] == Rule::Whitespace);
        assert(tokens_of(s)[k].value =~= w.take(n as int));
    }
}

/// Each token's text is exactly the part of the input's UTF-8 bytes that its
/// span `[start, end)` gives.
pub proof fn lemma_value_is_span(s: Seq<char>, k: int)
    requires
        0 <= k < tokens_of(s).len(),
    ensures
        tokens_of(s)[k].start <= tokens_of(s)[k].end <= byte_len(s),
        encode_utf8(tokens_of(s)[k].value) == encode_utf8(s).subrange(
            tokens_of(s)[k].start as int,
            tokens_of(s)[k].end as int,
        ),
{
    lemma_lex_from(s, 0);
    let l = lexemes(s)[k];
    let (a, b) = (l.start as int, l.end as int);
    let t = tokens_of(s)[k];
    assert(t.value == s.subrange(a, b));
    assert(s.take(b) =~= s.take(a) + s.subrange(a, b));
    assert(s =~= s.take(b) + s.skip(b));
    lemma_encode_concat(s.take(a), s.subrange(a, b));
    lemma_encode_concat(s.take(b), s.skip(b));
    assert(encode_utf8(s).subrange(t.start as int, t.end as int) =~= encode_utf8(s.subrange(a, b)));
}

} // verus!
