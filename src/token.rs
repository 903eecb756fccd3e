//! Tokens and their kinds.
use vstd::prelude::*;
use vstd::string::StringSliceAdditionalSpecFns;
use vstd::utf8::{encode_scalar, encode_utf8, encode_utf8_first_scalar, is_char_boundary, pop_first_scalar};

verus! {

/// The lexical category of a token.
#[derive(Clone, Copy, Debug, PartialEq, Eq, Structural)]
pub enum TokenKind {
    Counter,
    Var,
    GroupOpen,
    GroupClose,
    ArgSeparator,
    Eq,
    NotEq,
    GreaterEq,
    LessEq,
    Less,
    Greater,
    Or,
    And,
    Literal,
    Whitespace,
    Regex,
    Bool,
    Error,
}

impl TokenKind {
    /// The stable name of this kind.
    pub fn name(&self) -> (r: &'static str)
        ensures
            r@ == kind_name(*self),
    {
        match self {
            TokenKind::Counter => "Counter",
            TokenKind::Var => "Var",
            TokenKind::GroupOpen => "GroupOpen",
            TokenKind::GroupClose => "GroupClose",
            TokenKind::ArgSeparator => "ArgSeparator",
            TokenKind::Eq => "Eq",
            TokenKind::NotEq => "NotEq",
            TokenKind::GreaterEq => "GreaterEq",
            TokenKind::LessEq => "LessEq",
            TokenKind::Less => "Less",
            TokenKind::Greater => "Greater",
            TokenKind::Or => "Or",
            TokenKind::And => "And",
            TokenKind::Literal => "Literal",
            TokenKind::Whitespace => "Whitespace",
            TokenKind::Regex => "Regex",
            TokenKind::Bool => "Bool",
            TokenKind::Error => "Error",
        }
    }
}

/// The stable name of each kind.
pub open spec fn kind_name(k: TokenKind) -> Seq<char> {
    match k {
        TokenKind::Counter => "Counter"@,
        TokenKind::Var => "Var"@,
        TokenKind::GroupOpen => "GroupOpen"@,
        TokenKind::GroupClose => "GroupClose"@,
        TokenKind::ArgSeparator => "ArgSeparator"@,
        TokenKind::Eq => "Eq"@,
        TokenKind::NotEq => "NotEq"@,
        TokenKind::GreaterEq => "GreaterEq"@,
        TokenKind::LessEq => "LessEq"@,
        TokenKind::Less => "Less"@,
        TokenKind::Greater => "Greater"@,
        TokenKind::Or => "Or"@,
        TokenKind::And => "And"@,
        TokenKind::Literal => "Literal"@,
        TokenKind::Whitespace => "Whitespace"@,
        TokenKind::Regex => "Regex"@,
        TokenKind::Bool => "Bool"@,
        TokenKind::Error => "Error"@,
    }
}

/// A token: its kind, the exact text it covers, and the half-open span of
/// UTF-8 byte offsets `[start, end)` of that text in the input.
#[derive(Debug)]
pub struct Token {
    pub kind: TokenKind,
    pub value: String,
    pub start: usize,
    pub end: usize,
}

/// What a token says, as mathematical values.
pub ghost struct TokenView {
    pub kind: TokenKind,
    pub value: Seq<char>,
    pub start: nat,
    pub end: nat,
}

impl View for Token {
    type V = TokenView;

    open spec fn view(&self) -> TokenView {
        TokenView { kind: self.kind, value: self.value@, start: self.start as nat, end: self.end as nat }
    }
}

/// The number of bytes that the UTF-8 encoding of `s` takes.
pub open spec fn byte_len(s: Seq<char>) -> nat {
    encode_utf8(s).len()
}

/// The number of bytes that the UTF-8 encoding of `c` takes.
pub open spec fn char_width(c: char) -> nat {
    encode_scalar(c as u32).len()
}

pub proof fn lemma_byte_len_push(s: Seq<char>, c: char)
    ensures
        byte_len(s.push(c)) == byte_len(s) + char_width(c),
    decreases s.len(),
{
    if s.len() == 0 {
        assert(s.push(c).drop_first() =~= s);
    } else {
        assert(s.push(c).drop_first() =~= s.drop_first().push(c));
        lemma_byte_len_push(s.drop_first(), c);
    }
}

/// A prefix takes no more bytes than the whole.
pub proof fn lemma_byte_len_prefix(s: Seq<char>, k: int)
    requires
        0 <= k <= s.len(),
    ensures
        byte_len(s.take(k)) <= byte_len(s),
    decreases s.len() - k,
{
    if k < s.len() {
        assert(s.take(k + 1) =~= s.take(k).push(s[k]));
        lemma_byte_len_push(s.take(k), s[k]);
        lemma_byte_len_prefix(s, k + 1);
    } else {
        assert(s.take(k) =~= s);
    }
}

/// The number of bytes that the UTF-8 encoding of `c` takes.
pub fn utf8_width(c: char) -> (n: usize)
    ensures
        n == char_width(c),
{
    proof {
        vstd::utf8::char_is_scalar(c);
    }
    let v = c as u32;
    if v <= 0x7F {
        1
    } else if v <= 0x7FF {
        2
    } else if v <= 0xFFFF {
        3
    } else {
        4
    }
}

/// Encoding distributes over concatenation.
pub proof fn lemma_encode_concat(a: Seq<char>, b: Seq<char>)
    ensures
        encode_utf8(a + b) == encode_utf8(a) + encode_utf8(b),
    decreases a.len(),
{
    if a.len() == 0 {
        assert(a + b =~= b);
        assert(encode_utf8(a) =~= Seq::<u8>::empty());
        assert(encode_utf8(a) + encode_utf8(b) =~= encode_utf8(b));
    } else {
        assert((a + b).drop_first() =~= a.drop_first() + b);
        lemma_encode_concat(a.drop_first(), b);
        assert(encode_utf8(a + b) =~= encode_utf8(a) + encode_utf8(b));
    }
}

/// The byte offset of every character position is a character boundary.
pub proof fn lemma_char_boundary(s: Seq<char>, k: int)
    requires
        0 <= k <= s.len(),
    ensures
        is_char_boundary(encode_utf8(s), byte_len(s.take(k)) as int),
    decreases s.len(),
{
    broadcast use vstd::utf8::encode_utf8_valid_utf8;

    if k > 0 {
        let rest = s.drop_first();
        encode_utf8_first_scalar(s);
        assert(s =~= seq![s[0]] + rest);
        assert(s.take(k).drop_first() =~= rest.take(k - 1));
        assert(pop_first_scalar(encode_utf8(s)) =~= encode_utf8(rest));
        lemma_byte_len_prefix(s, k);
        lemma_char_boundary(rest, k - 1);
    } else {
        assert(s.take(k) =~= Seq::<char>::empty());
    }
}

/// The text of `input` between character positions `a` and `b`, found by
/// their byte offsets.
pub(crate) fn text_between(input: &str, from: usize, to: usize, Ghost(a): Ghost<int>, Ghost(b): Ghost<int>) -> (r: String)
    requires
        0 <= a <= b <= input@.len(),
        from == byte_len(input@.take(a)),
        to == byte_len(input@.take(b)),
    ensures
        r@ == input@.subrange(a, b),
{
    let ghost s = input@;
    proof {
        lemma_char_boundary(s, b);
        lemma_encode_concat(s.take(b), s.skip(b));
        assert(s =~= s.take(b) + s.skip(b));
    }
    let (pre, _) = input.split_at(to);
    proof {
        assert(pre.spec_bytes() =~= encode_utf8(s.take(b)));
        vstd::utf8::encode_utf8_decode_utf8(pre@);
        vstd::utf8::encode_utf8_decode_utf8(s.take(b));
        assert(pre@ == s.take(b));
        assert(s.take(b).take(a) =~= s.take(a));
        lemma_char_boundary(s.take(b), a);
        lemma_encode_concat(s.take(a), s.subrange(a, b));
        assert(s.take(b) =~= s.take(a) + s.subrange(a, b));
    }
    let (_, mid) = pre.split_at(from);
    proof {
        assert(mid.spec_bytes() =~= encode_utf8(s.subrange(a, b)));
        vstd::utf8::encode_utf8_decode_utf8(mid@);
        vstd::utf8::encode_utf8_decode_utf8(s.subrange(a, b));
    }
    mid.to_owned()
}

} // verus!
