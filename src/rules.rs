//! The rule table: each lexical rule as the set of words it accepts, and a
//! matcher that finds the longest prefix a rule accepts.
//!
//! Numbers, quoted strings and escaped operators all produce `Literal`
//! tokens; `true`, `True`, `false` and `False` produce `Bool` tokens.
use vstd::prelude::*;

use crate::token::TokenKind;

verus! {

/// One lexical rule: a fixed token or a pattern, paired with the kind of
/// token it produces.
#[derive(Clone, Copy, Debug, PartialEq, Eq, Structural)]
pub enum Rule {
    Counter,
    Var,
    GroupOpen,
    GroupClose,
    Eq,
    NotEq,
    GreaterEq,
    LessEq,
    Less,
    Greater,
    Or,
    And,
    Number,
    Quoted,
    Escape,
    Whitespace,
    ArgSeparator,
    RegexLiteral,
    Bool,
}

/// Number of rules in the table.
pub const RULE_COUNT: usize = 19;

/// The rules in priority order: on a tie in length the earlier rule wins.
pub open spec fn rule_table() -> Seq<Rule> {
    seq![
        Rule::Counter,
        Rule::Var,
        Rule::GroupOpen,
        Rule::GroupClose,
        Rule::Eq,
        Rule::NotEq,
        Rule::GreaterEq,
        Rule::LessEq,
        Rule::Less,
        Rule::Greater,
        Rule::Or,
        Rule::And,
        Rule::Number,
        Rule::Quoted,
        Rule::Escape,
        Rule::Whitespace,
        Rule::ArgSeparator,
        Rule::RegexLiteral,
        Rule::Bool,
    ]
}

pub open spec fn is_alnum(c: char) -> bool {
    ('a' <= c && c <= 'z') || ('A' <= c && c <= 'Z') || ('0' <= c && c <= '9')
}

pub open spec fn is_digit(c: char) -> bool {
    '0' <= c && c <= '9'
}

/// Space, tab, newline or form feed.
pub open spec fn is_space(c: char) -> bool {
    c == ' ' || c == '\t' || c == '\n' || c == '\x0C'
}

/// `sigil` followed by one or more ASCII letters or digits.
pub open spec fn sigil_word(w: Seq<char>, sigil: char) -> bool {
    &&& w.len() >= 2
    &&& w[0] == sigil
    &&& forall|j: int| 1 <= j < w.len() ==> #[trigger] is_alnum(w[j])
}

/// Text between two `delim` characters, where a `delim` inside must be
/// written with a backslash in front of it.
pub open spec fn delimited(w: Seq<char>, delim: char) -> bool {
    &&& w.len() >= 2
    &&& w[0] == delim
    &&& w[w.len() - 1] == delim
    &&& forall|j: int|
        1 <= j < w.len() - 1 && #[trigger] w[j] == delim ==> j >= 2 && w[j - 1] == '\\'
}

/// The operator and grouping sequences that a backslash turns into a literal.
pub open spec fn escapable(o: Seq<char>) -> bool {
    ||| o == seq!['(']
    ||| o == seq![')']
    ||| o == seq!['=', '=']
    ||| o == seq!['!', '=']
    ||| o == seq!['>', '=']
    ||| o == seq!['<', '=']
    ||| o == seq!['<']
    ||| o == seq!['>']
    ||| o == seq!['|', '|']
    ||| o == seq!['&', '&']
}

/// The words that rule `r` accepts.
pub open spec fn accepts(r: Rule, w: Seq<char>) -> bool {
    match r {
        Rule::Counter => sigil_word(w, '%'),
        Rule::Var => sigil_word(w, '$'),
        Rule::GroupOpen => w == seq!['('],
        Rule::GroupClose => w == seq![')'],
        Rule::Eq => w == seq!['=', '='],
        Rule::NotEq => w == seq!['!', '='],
        Rule::GreaterEq => w == seq!['>', '='],
        Rule::LessEq => w == seq!['<', '='],
        Rule::Less => w == seq!['<'],
        Rule::Greater => w == seq!['>'],
        Rule::Or => w == seq!['|', '|'],
        Rule::And => w == seq!['&', '&'],
        Rule::Number => w.len() >= 1 && forall|j: int| 0 <= j < w.len() ==> #[trigger] is_digit(w[j]),
        Rule::Quoted => delimited(w, '\''),
        Rule::Escape => w.len() >= 2 && w[0] == '\\' && escapable(w.drop_first()),
        Rule::Whitespace => w.len() >= 1 && forall|j: int| 0 <= j < w.len() ==> #[trigger] is_space(w[j]),
        Rule::ArgSeparator => w == seq![','],
        Rule::RegexLiteral => delimited(w, '/'),
        Rule::Bool => {
            ||| w == seq!['t', 'r', 'u', 'e']
            ||| w == seq!['T', 'r', 'u', 'e']
            ||| w == seq!['f', 'a', 'l', 's', 'e']
            ||| w == seq!['F', 'a', 'l', 's', 'e']
        },
    }
}

/// The length of the longest prefix of `w`, at most `k` long, that `r`
/// accepts; 0 where there is none.
pub open spec fn longest_prefix(r: Rule, w: Seq<char>, k: nat) -> nat
    decreases k,
{
    if k == 0 {
        0
    } else if accepts(r, w.take(k as int)) {
        k
    } else {
        longest_prefix(r, w, (k - 1) as nat)
    }
}

/// The length of the longest prefix of `w` that `r` accepts; 0 where there is none.
pub open spec fn longest_match(r: Rule, w: Seq<char>) -> nat {
    longest_prefix(r, w, w.len())
}

/// The kind of token that rule `r` produces.
pub open spec fn rule_kind(r: Rule) -> TokenKind {
    match r {
        Rule::Counter => TokenKind::Counter,
        Rule::Var => TokenKind::Var,
        Rule::GroupOpen => TokenKind::GroupOpen,
        Rule::GroupClose => TokenKind::GroupClose,
        Rule::Eq => TokenKind::Eq,
        Rule::NotEq => TokenKind::NotEq,
        Rule::GreaterEq => TokenKind::GreaterEq,
        Rule::LessEq => TokenKind::LessEq,
        Rule::Less => TokenKind::Less,
        Rule::Greater => TokenKind::Greater,
        Rule::Or => TokenKind::Or,
        Rule::And => TokenKind::And,
        Rule::Number => TokenKind::Literal,
        Rule::Quoted => TokenKind::Literal,
        Rule::Escape => TokenKind::Literal,
        Rule::Whitespace => TokenKind::Whitespace,
        Rule::ArgSeparator => TokenKind::ArgSeparator,
        Rule::RegexLiteral => TokenKind::Regex,
        Rule::Bool => TokenKind::Bool,
    }
}

impl Rule {
    /// The kind of token this rule produces.
    pub fn kind(&self) -> (k: TokenKind)
        ensures
            k == rule_kind(*self),
    {
        match self {
            Rule::Counter => TokenKind::Counter,
            Rule::Var => TokenKind::Var,
            Rule::GroupOpen => TokenKind::GroupOpen,
            Rule::GroupClose => TokenKind::GroupClose,
            Rule::Eq => TokenKind::Eq,
            Rule::NotEq => TokenKind::NotEq,
            Rule::GreaterEq => TokenKind::GreaterEq,
            Rule::LessEq => TokenKind::LessEq,
            Rule::Less => TokenKind::Less,
            Rule::Greater => TokenKind::Greater,
            Rule::Or => TokenKind::Or,
            Rule::And => TokenKind::And,
            Rule::Number => TokenKind::Literal,
            Rule::Quoted => TokenKind::Literal,
            Rule::Escape => TokenKind::Literal,
            Rule::Whitespace => TokenKind::Whitespace,
            Rule::ArgSeparator => TokenKind::ArgSeparator,
            Rule::RegexLiteral => TokenKind::Regex,
            Rule::Bool => TokenKind::Bool,
        }
    }
}

/// The rule at position `i` of the table.
pub fn rule_at(i: usize) -> (r: Rule)
    requires
        i < RULE_COUNT,
    ensures
        r == rule_table()[i as int],
{
    match i {
        0 => Rule::Counter,
        1 => Rule::Var,
        2 => Rule::GroupOpen,
        3 => Rule::GroupClose,
        4 => Rule::Eq,
        5 => Rule::NotEq,
        6 => Rule::GreaterEq,
        7 => Rule::LessEq,
        8 => Rule::Less,
        9 => Rule::Greater,
        10 => Rule::Or,
        11 => Rule::And,
        12 => Rule::Number,
        13 => Rule::Quoted,
        14 => Rule::Escape,
        15 => Rule::Whitespace,
        16 => Rule::ArgSeparator,
        17 => Rule::RegexLiteral,
        _ => Rule::Bool,
    }
}

/// Where `n` is accepted (or 0) and nothing longer up to `k` is, `n` is the
/// longest accepted prefix up to `k`.
proof fn lemma_longest_prefix(r: Rule, w: Seq<char>, n: nat, k: nat)
    requires
        n <= k <= w.len(),
        n == 0 || accepts(r, w.take(n as int)),
        forall|m: nat| n < m <= k ==> !accepts(r, #[trigger] w.take(m as int)),
    ensures
        longest_prefix(r, w, k) == n,
    decreases k,
{
    if k > n {
        lemma_longest_prefix(r, w, n, (k - 1) as nat);
    }
}

/// `n` is the longest prefix of `w` that `r` accepts (0: none).
pub open spec fn is_longest(r: Rule, w: Seq<char>, n: nat) -> bool {
    &&& n <= w.len()
    &&& n == 0 || accepts(r, w.take(n as int))
    &&& forall|m: nat| n < m <= w.len() ==> !accepts(r, #[trigger] w.take(m as int))
}

/// A class of characters that a run of them is made of.
#[derive(Clone, Copy, Debug, PartialEq, Eq, Structural)]
pub enum CharClass {
    Alnum,
    Digit,
    Space,
}

pub open spec fn in_class(class: CharClass, c: char) -> bool {
    match class {
        CharClass::Alnum => is_alnum(c),
        CharClass::Digit => is_digit(c),
        CharClass::Space => is_space(c),
    }
}

fn char_in_class(class: CharClass, c: char) -> (b: bool)
    ensures
        b == in_class(class, c),
{
    match class {
        CharClass::Alnum => ('a' <= c && c <= 'z') || ('A' <= c && c <= 'Z') || ('0' <= c && c
            <= '9'),
        CharClass::Digit => '0' <= c && c <= '9',
        CharClass::Space => c == ' ' || c == '\t' || c == '\n' || c == '\x0C',
    }
}

/// The end of the run of characters of `class` that starts at `from`.
fn class_run(s: &Vec<char>, from: usize, class: CharClass) -> (end: usize)
    requires
        from <= s.len(),
    ensures
        from <= end <= s.len(),
        forall|j: int| from <= j < end ==> in_class(class, #[trigger] s@[j]),
        end < s.len() ==> !in_class(class, s@[end as int]),
{
    let mut end = from;
    while end < s.len() && char_in_class(class, s[end])
        invariant
            from <= end <= s.len(),
            forall|j: int| from <= j < end ==> in_class(class, #[trigger] s@[j]),
        decreases s.len() - end,
    {
        end = end + 1;
    }
    end
}

/// Longest match of a rule accepting `sigil` followed by letters and digits.
fn match_sigil_word(s: &Vec<char>, i: usize, r: Rule, sigil: char) -> (n: usize)
    requires
        i <= s.len(),
        r == Rule::Counter && sigil == '%' || r == Rule::Var && sigil == '$',
    ensures
        is_longest(r, s@.subrange(i as int, s.len() as int), n as nat),
{
    let ghost w = s@.subrange(i as int, s.len() as int);
    if i < s.len() && s[i] == sigil {
        let end = class_run(s, i + 1, CharClass::Alnum);
        let n: usize = if end > i + 1 { end - i } else { 0 };
        assert forall|m: nat| n < m <= w.len() implies !accepts(r, #[trigger] w.take(m as int)) by {
            let p: int = end - i;
            if p < m {
                assert(w.take(m as int)[p] == s@[end as int]);
            }
        }
        if n > 0 {
            assert forall|j: int| 1 <= j < w.take(n as int).len() implies #[trigger] is_alnum(
                w.take(n as int)[j],
            ) by {
                assert(w.take(n as int)[j] == s@[i + j]);
            }
        }
        n
    } else {
        assert forall|m: nat| 0 < m <= w.len() implies !accepts(r, #[trigger] w.take(m as int)) by {
            assert(w.take(m as int)[0] == s@[i as int]);
        }
        0
    }
}

/// Whether `pat` stands in `s` at position `i`.
fn starts_with(s: &Vec<char>, i: usize, pat: &[char]) -> (b: bool)
    requires
        i <= s.len(),
    ensures
        b == (i + pat@.len() <= s.len() && s@.subrange(i as int, i + pat@.len()) == pat@),
{
    if pat.len() > s.len() - i {
        return false;
    }
    let mut j: usize = 0;
    while j < pat.len()
        invariant
            i + pat@.len() <= s.len(),
            j <= pat@.len(),
            forall|k: int| 0 <= k < j ==> s@[i + k] == pat@[k],
        decreases pat.len() - j,
    {
        if s[i + j] != pat[j] {
            assert(s@.subrange(i as int, i + pat@.len())[j as int] != pat@[j as int]);
            return false;
        }
        j = j + 1;
    }
    assert(s@.subrange(i as int, i + pat@.len()) =~= pat@);
    true
}

/// Longest match of a rule that accepts exactly the one word `pat`.
fn match_fixed(s: &Vec<char>, i: usize, r: Rule, pat: &[char]) -> (n: usize)
    requires
        i <= s.len(),
        pat@.len() > 0,
        forall|w: Seq<char>| #[trigger] accepts(r, w) <==> w == pat@,
    ensures
        is_longest(r, s@.subrange(i as int, s.len() as int), n as nat),
{
    let ghost w = s@.subrange(i as int, s.len() as int);
    if starts_with(s, i, pat) {
        assert(w.take(pat@.len() as int) =~= pat@);
        pat.len()
    } else {
        assert forall|m: nat| 0 < m <= w.len() implies !accepts(r, #[trigger] w.take(m as int)) by {
            if w.take(m as int) == pat@ {
                assert(s@.subrange(i as int, i + pat@.len()) =~= w.take(m as int));
            }
        }
        0
    }
}

/// The rules of the single-word operators and parentheses: exactly the
/// words that a backslash may escape.
pub open spec fn is_operator_rule(r: Rule) -> bool {
    match r {
        Rule::GroupOpen | Rule::GroupClose | Rule::Eq | Rule::NotEq | Rule::GreaterEq
        | Rule::LessEq | Rule::Less | Rule::Greater | Rule::Or | Rule::And => true,
        _ => false,
    }
}

proof fn lemma_escapable_is_operator(o: Seq<char>)
    ensures
        escapable(o) <==> exists|r: Rule| is_operator_rule(r) && #[trigger] accepts(r, o),
{
    if escapable(o) {
        if o == seq!['('] {
            assert(accepts(Rule::GroupOpen, o));
        } else if o == seq![')'] {
            assert(accepts(Rule::GroupClose, o));
        } else if o == seq!['=', '='] {
            assert(accepts(Rule::Eq, o));
        } else if o == seq!['!', '='] {
            assert(accepts(Rule::NotEq, o));
        } else if o == seq!['>', '='] {
            assert(accepts(Rule::GreaterEq, o));
        } else if o == seq!['<', '='] {
            assert(accepts(Rule::LessEq, o));
        } else if o == seq!['<'] {
            assert(accepts(Rule::Less, o));
        } else if o == seq!['>'] {
            assert(accepts(Rule::Greater, o));
        } else if o == seq!['|', '|'] {
            assert(accepts(Rule::Or, o));
        } else {
            assert(accepts(Rule::And, o));
        }
    }
}

/// Longest match of the operator rule `r` at `i`.
fn match_operator(s: &Vec<char>, i: usize, r: Rule) -> (n: usize)
    requires
        i <= s.len(),
        is_operator_rule(r),
    ensures
        is_longest(r, s@.subrange(i as int, s.len() as int), n as nat),
        n <= 2,
{
    match r {
        Rule::GroupOpen => {
            let p: &[char] = &['('];
            assert(p@ =~= seq!['(']);
            match_fixed(s, i, r, p)
        },
        Rule::GroupClose => {
            let p: &[char] = &[')'];
            assert(p@ =~= seq![')']);
            match_fixed(s, i, r, p)
        },
        Rule::Eq => {
            let p: &[char] = &['=', '='];
            assert(p@ =~= seq!['=', '=']);
            match_fixed(s, i, r, p)
        },
        Rule::NotEq => {
            let p: &[char] = &['!', '='];
            assert(p@ =~= seq!['!', '=']);
            match_fixed(s, i, r, p)
        },
        Rule::GreaterEq => {
            let p: &[char] = &['>', '='];
            assert(p@ =~= seq!['>', '=']);
            match_fixed(s, i, r, p)
        },
        Rule::LessEq => {
            let p: &[char] = &['<', '='];
            assert(p@ =~= seq!['<', '=']);
            match_fixed(s, i, r, p)
        },
        Rule::Less => {
            let p: &[char] = &['<'];
            assert(p@ =~= seq!['<']);
            match_fixed(s, i, r, p)
        },
        Rule::Greater => {
            let p: &[char] = &['>'];
            assert(p@ =~= seq!['>']);
            match_fixed(s, i, r, p)
        },
        Rule::Or => {
            let p: &[char] = &['|', '|'];
            assert(p@ =~= seq!['|', '|']);
            match_fixed(s, i, r, p)
        },
        _ => {
            let p: &[char] = &['&', '&'];
            assert(p@ =~= seq!['&', '&']);
            match_fixed(s, i, r, p)
        },
    }
}

/// Longest match of the escape rule: a backslash and the longest operator after it.
fn match_escape(s: &Vec<char>, i: usize) -> (n: usize)
    requires
        i <= s.len(),
    ensures
        is_longest(Rule::Escape, s@.subrange(i as int, s.len() as int), n as nat),
{
    let ghost w = s@.subrange(i as int, s.len() as int);
    if i < s.len() && s[i] == '\\' {
        let ghost w1 = s@.subrange(i + 1, s.len() as int);
        let ops = [
            Rule::GroupOpen,
            Rule::GroupClose,
            Rule::Eq,
            Rule::NotEq,
            Rule::GreaterEq,
            Rule::LessEq,
            Rule::Less,
            Rule::Greater,
            Rule::Or,
            Rule::And,
        ];
        let mut best: usize = 0;
        let mut k: usize = 0;
        while k < 10
            invariant
                i < s.len(),
                w1 == s@.subrange(i + 1, s.len() as int),
                ops@ == seq![
                    Rule::GroupOpen,
                    Rule::GroupClose,
                    Rule::Eq,
                    Rule::NotEq,
                    Rule::GreaterEq,
                    Rule::LessEq,
                    Rule::Less,
                    Rule::Greater,
                    Rule::Or,
                    Rule::And,
                ],
                k <= 10,
                best <= w1.len(),
                best == 0 || exists|r: Rule| is_operator_rule(r) && #[trigger] accepts(r, w1.take(best as int)),
                forall|j: int, m: nat|
                    0 <= j < k && best < m <= w1.len() ==> !#[trigger] accepts(ops@[j], w1.take(m as int)),
            decreases 10 - k,
        {
            let r = ops[k];
            let n = match_operator(s, i + 1, r);
            if n > best {
                best = n;
            }
            k = k + 1;
        }
        assert forall|m: nat| best + 1 < m <= w.len() implies !accepts(Rule::Escape, #[trigger] w.take(m as int)) by {
            assert(w.take(m as int).drop_first() =~= w1.take(m - 1));
            lemma_escapable_is_operator(w1.take(m - 1));
            if escapable(w1.take(m - 1)) {
                let r = choose|r: Rule| is_operator_rule(r) && #[trigger] accepts(r, w1.take(m - 1));
                assert(exists|j: int| 0 <= j < 10 && ops@[j] == r);
            }
        }
        if best > 0 {
            proof {
                assert(w.take(best + 1).drop_first() =~= w1.take(best as int));
                lemma_escapable_is_operator(w1.take(best as int));
            }
            best + 1
        } else {
            assert(!accepts(Rule::Escape, w.take(1)));
            0
        }
    } else {
        assert forall|m: nat| 0 < m <= w.len() implies !accepts(Rule::Escape, #[trigger] w.take(m as int)) by {
            assert(w.take(m as int)[0] == s@[i as int]);
        }
        0
    }
}

/// Longest match of the keyword rule.
fn match_bool(s: &Vec<char>, i: usize) -> (n: usize)
    requires
        i <= s.len(),
    ensures
        is_longest(Rule::Bool, s@.subrange(i as int, s.len() as int), n as nat),
{
    let ghost w = s@.subrange(i as int, s.len() as int);
    let f1: &[char] = &['f', 'a', 'l', 's', 'e'];
    let f2: &[char] = &['F', 'a', 'l', 's', 'e'];
    let t1: &[char] = &['t', 'r', 'u', 'e'];
    let t2: &[char] = &['T', 'r', 'u', 'e'];
    assert(f1@ =~= seq!['f', 'a', 'l', 's', 'e']);
    assert(f2@ =~= seq!['F', 'a', 'l', 's', 'e']);
    assert(t1@ =~= seq!['t', 'r', 'u', 'e']);
    assert(t2@ =~= seq!['T', 'r', 'u', 'e']);
    let n: usize = if starts_with(s, i, f1) || starts_with(s, i, f2) {
        5
    } else if starts_with(s, i, t1) || starts_with(s, i, t2) {
        4
    } else {
        0
    };
    assert forall|m: nat| n < m <= w.len() implies !accepts(Rule::Bool, #[trigger] w.take(m as int)) by {
        if accepts(Rule::Bool, w.take(m as int)) {
            assert(s@.subrange(i as int, i + m) =~= w.take(m as int));
        }
    }
    if n > 0 {
        assert(s@.subrange(i as int, i + n) =~= w.take(n as int));
    }
    n
}

/// Longest match of a rule that accepts nonempty runs of `class`.
fn match_run(s: &Vec<char>, i: usize, r: Rule, class: CharClass) -> (n: usize)
    requires
        i <= s.len(),
        r == Rule::Number && class == CharClass::Digit || r == Rule::Whitespace && class
            == CharClass::Space,
    ensures
        is_longest(r, s@.subrange(i as int, s.len() as int), n as nat),
{
    let ghost w = s@.subrange(i as int, s.len() as int);
    let end = class_run(s, i, class);
    let n: usize = end - i;
    assert forall|m: nat| n < m <= w.len() implies !accepts(r, #[trigger] w.take(m as int)) by {
        assert(w.take(m as int)[n as int] == s@[end as int]);
    }
    if n > 0 {
        assert forall|j: int| 0 <= j < w.take(n as int).len() implies #[trigger] in_class(
            class,
            w.take(n as int)[j],
        ) by {
            assert(w.take(n as int)[j] == s@[i + j]);
        }
    }
    n
}

/// Longest match of a rule that accepts text between two `delim` characters.
fn match_delimited(s: &Vec<char>, i: usize, r: Rule, delim: char) -> (n: usize)
    requires
        i <= s.len(),
        r == Rule::Quoted && delim == '\'' || r == Rule::RegexLiteral && delim == '/',
    ensures
        is_longest(r, s@.subrange(i as int, s.len() as int), n as nat),
{
    let ghost w = s@.subrange(i as int, s.len() as int);
    if !(i < s.len() && s[i] == delim) {
        assert forall|m: nat| 0 < m <= w.len() implies !accepts(r, #[trigger] w.take(m as int)) by {
            assert(w.take(m as int)[0] == s@[i as int]);
        }
        return 0;
    }
    // `last` is one past the latest closing candidate seen so far.
    let mut last: usize = 0;
    let mut j: usize = i + 1;
    let mut open = true;
    while open && j < s.len()
        invariant
            i < s.len(),
            s@[i as int] == delim,
            i + 1 <= j <= s.len(),
            open ==> last == 0 || i + 2 <= last <= j,
            !open ==> j < s.len() && last == j + 1 && s@[j as int] == delim && !(j >= i + 2
                && s@[j - 1] == '\\'),
            last > 0 ==> last >= i + 2 && s@[last - 1] == delim,
            forall|q: int| i + 1 <= q < j && s@[q] == delim ==> q < last,
            forall|q: int|
                i + 1 <= q < j && #[trigger] s@[q] == delim ==> q >= i + 2 && s@[q - 1] == '\\',
        decreases s.len() - j + (if open { 1int } else { 0int }),
    {
        if s[j] == delim {
            last = j + 1;
            if !(j >= i + 2 && s[j - 1] == '\\') {
                open = false;
            }
        }
        if open {
            j = j + 1;
        }
    }
    let n: usize = if last == 0 { 0 } else { last - i };
    assert forall|m: nat| n < m <= w.len() implies !accepts(r, #[trigger] w.take(m as int)) by {
        let v = w.take(m as int);
        if accepts(r, v) {
            assert(v[m - 1] == s@[i + m - 1]);
            if !open {
                let p: int = j - i;
                assert(v[p] == s@[j as int]);
                assert(v[p - 1] == s@[j - 1]);
            }
        }
    }
    proof {
        if n > 0 {
            let v = w.take(n as int);
            assert(v[n - 1] == s@[last - 1]);
            assert forall|q: int| 1 <= q < v.len() - 1 && #[trigger] v[q] == delim implies q >= 2
                && v[q - 1] == '\\' by {
                assert(v[q] == s@[i + q]);
                assert(v[q - 1] == s@[i + q - 1]);
            }
        }
    }
    n
}

/// The length of the longest prefix of `s[i..]` that rule `r` accepts; 0
/// where there is none.
pub fn match_rule(r: Rule, s: &Vec<char>, i: usize) -> (n: usize)
    requires
        i <= s.len(),
    ensures
        n == longest_match(r, s@.subrange(i as int, s.len() as int)),
        n <= s.len() - i,
{
    let n = match r {
        Rule::Counter => match_sigil_word(s, i, r, '%'),
        Rule::Var => match_sigil_word(s, i, r, '$'),
        Rule::Number => match_run(s, i, r, CharClass::Digit),
        Rule::Whitespace => match_run(s, i, r, CharClass::Space),
        Rule::Quoted => match_delimited(s, i, r, '\''),
        Rule::RegexLiteral => match_delimited(s, i, r, '/'),
        Rule::Escape => match_escape(s, i),
        Rule::Bool => match_bool(s, i),
        Rule::ArgSeparator => {
            let p: &[char] = &[','];
            assert(p@ =~= seq![',']);
            match_fixed(s, i, r, p)
        },
        _ => match_operator(s, i, r),
    };
    proof {
        let w = s@.subrange(i as int, s.len() as int);
        lemma_longest_prefix(r, w, n as nat, w.len());
    }
    n
}

/// The length of the longest match of every rule of the table at position
/// `i` of `s`, in table order (0 where a rule does not match).
pub fn match_all(s: &Vec<char>, i: usize) -> (r: Vec<usize>)
    requires
        i <= s.len(),
    ensures
        r@.len() == RULE_COUNT,
        forall|k: int|
            0 <= k < RULE_COUNT ==> r@[k] == longest_match(
                #[trigger] rule_table()[k],
                s@.subrange(i as int, s.len() as int),
            ),
{
    let mut r: Vec<usize> = Vec::new();
    let mut k: usize = 0;
    while k < RULE_COUNT
        invariant
            i <= s.len(),
            k <= RULE_COUNT,
            r@.len() == k,
            forall|j: int|
                0 <= j < k ==> r@[j] == longest_match(
                    #[trigger] rule_table()[j],
                    s@.subrange(i as int, s.len() as int),
                ),
        decreases RULE_COUNT - k,
    {
        r.push(match_rule(rule_at(k), s, i));
        k = k + 1;
    }
    r
}

} // verus!
