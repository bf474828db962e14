//! Lexical analysis: classifies the bytes of a declaration source into a
//! flat token sequence terminated by an end-of-file token, and a pre-filter
//! that extracts only the spans of a larger program text that hold a type
//! declaration.
//!
//! The lexer never fails: a byte it cannot classify becomes an
//! `Undefined` token, which the parser later filters out.
use vstd::prelude::*;

verus! {

/// A boolean connective between two type forms.
#[derive(Clone, Copy, PartialEq, Eq, Structural, Debug)]
pub enum Oper {
    And,
    Or,
}

/// Bracketing punctuation recognized inside a declaration.
#[derive(Clone, Copy, PartialEq, Eq, Structural, Debug)]
pub enum Punct {
    LBrace,
    RBrace,
    LBrack,
    RBrack,
    LPar,
    RPar,
    LAngleB,
    RAngleB,
}

/// A leaf type form carried by `Token::Type`: a primitive, a literal type,
/// a connective, punctuation, or a reference to a declared type by name.
#[derive(Clone, PartialEq, Debug)]
pub enum Type {
    Custom(Vec<u8>),
    Oper(Oper),
    StrLit(Vec<u8>),
    NumLit(Vec<u8>),
    Punct(Punct),
    True,
    False,
    Str,
    Num,
    Object,
    Boolean,
    Null,
    Undefined,
    Function,
    Symbol,
    BigInt,
    Any,
    Unknown,
}

/// The lexical unit produced by `tokenize`.
#[derive(Clone, PartialEq, Debug)]
pub enum Token {
    /// An identifier (a custom type name or, before disambiguation, a field name).
    Id(Vec<u8>),
    /// A number literal, held as its canonical decimal digits.
    Number(Vec<u8>),
    /// A quoted string literal, without its quotes.
    StrLit(Vec<u8>),
    /// A byte the lexer cannot classify.
    Undefined(u8),
    Type(Type),
    /// An identifier disambiguated into a field name by a following `:` or `?:`.
    Key(Vec<u8>),
    Interface,
    Colon,
    Eq,
    Dash,
    Slash,
    Comment,
    QM,
    EOE,
    EOF,
}

/// Mathematical image of `Type`.
pub enum TypeV {
    Custom(Seq<u8>),
    Oper(Oper),
    StrLit(Seq<u8>),
    NumLit(Seq<u8>),
    Punct(Punct),
    True,
    False,
    Str,
    Num,
    Object,
    Boolean,
    Null,
    Undefined,
    Function,
    Symbol,
    BigInt,
    Any,
    Unknown,
}

/// Mathematical image of `Token`.
pub enum TokenV {
    Id(Seq<u8>),
    Number(Seq<u8>),
    StrLit(Seq<u8>),
    Undefined(u8),
    Type(TypeV),
    Key(Seq<u8>),
    Interface,
    Colon,
    Eq,
    Dash,
    Slash,
    Comment,
    QM,
    EOE,
    EOF,
}

impl View for Type {
    type V = TypeV;

    open spec fn view(&self) -> TypeV {
        match self {
            Type::Custom(s) => TypeV::Custom(s@),
            Type::Oper(o) => TypeV::Oper(*o),
            Type::StrLit(s) => TypeV::StrLit(s@),
            Type::NumLit(s) => TypeV::NumLit(s@),
            Type::Punct(p) => TypeV::Punct(*p),
            Type::True => TypeV::True,
            Type::False => TypeV::False,
            Type::Str => TypeV::Str,
            Type::Num => TypeV::Num,
            Type::Object => TypeV::Object,
            Type::Boolean => TypeV::Boolean,
            Type::Null => TypeV::Null,
            Type::Undefined => TypeV::Undefined,
            Type::Function => TypeV::Function,
            Type::Symbol => TypeV::Symbol,
            Type::BigInt => TypeV::BigInt,
            Type::Any => TypeV::Any,
            Type::Unknown => TypeV::Unknown,
        }
    }
}

impl View for Token {
    type V = TokenV;

    open spec fn view(&self) -> TokenV {
        match self {
            Token::Id(s) => TokenV::Id(s@),
            Token::Number(s) => TokenV::Number(s@),
            Token::StrLit(s) => TokenV::StrLit(s@),
            Token::Undefined(b) => TokenV::Undefined(*b),
            Token::Type(t) => TokenV::Type(t@),
            Token::Key(s) => TokenV::Key(s@),
            Token::Interface => TokenV::Interface,
            Token::Colon => TokenV::Colon,
            Token::Eq => TokenV::Eq,
            Token::Dash => TokenV::Dash,
            Token::Slash => TokenV::Slash,
            Token::Comment => TokenV::Comment,
            Token::QM => TokenV::QM,
            Token::EOE => TokenV::EOE,
            Token::EOF => TokenV::EOF,
        }
    }
}

/// The token sequence a vector of tokens stands for.
pub open spec fn view_tokens(ts: Seq<Token>) -> Seq<TokenV> {
    ts.map_values(|t: Token| t@)
}

/// Whitespace and the NUL byte, which the lexer passes over.
pub open spec fn spec_is_skippable(b: u8) -> bool {
    b == '\0' as u8 || b == ' ' as u8 || b == '\t' as u8 || b == '\r' as u8 || b == '\n' as u8
}

/// Whether the lexer passes over this byte without producing a token.
pub fn is_skippable(b: &u8) -> (r: bool)
    ensures
        r == spec_is_skippable(*b),
{
    *b == '\0' as u8 || *b == ' ' as u8 || *b == '\t' as u8 || *b == '\r' as u8 || *b == '\n' as u8
}

/// A letter, when the byte is read as a character of the first 256 code
/// points: ASCII letters and the letters of the Latin-1 supplement block.
pub open spec fn spec_is_alpha(b: u8) -> bool {
    ('A' as u8 <= b && b <= 'Z' as u8) || ('a' as u8 <= b && b <= 'z' as u8) || b == 170 || b
        == 181 || b == 186 || (192 <= b && b <= 214) || (216 <= b && b <= 246) || 248 <= b
}

fn is_alpha(b: u8) -> (r: bool)
    ensures
        r == spec_is_alpha(b),
{
    ('A' as u8 <= b && b <= 'Z' as u8) || ('a' as u8 <= b && b <= 'z' as u8) || b == 170 || b
        == 181 || b == 186 || (192 <= b && b <= 214) || (216 <= b && b <= 246) || 248 <= b
}

/// An ASCII decimal digit.
pub open spec fn spec_is_digit(b: u8) -> bool {
    '0' as u8 <= b && b <= '9' as u8
}

fn is_digit(b: u8) -> (r: bool)
    ensures
        r == spec_is_digit(b),
{
    '0' as u8 <= b && b <= '9' as u8
}

/// A letter or a numeric character of the first 256 code points (digits,
/// superscripts and vulgar fractions included).
pub open spec fn spec_is_alnum(b: u8) -> bool {
    spec_is_alpha(b) || spec_is_digit(b) || b == 178 || b == 179 || b == 185 || b == 188 || b
        == 189 || b == 190
}

fn is_alnum(b: u8) -> (r: bool)
    ensures
        r == spec_is_alnum(b),
{
    is_alpha(b) || is_digit(b) || b == 178 || b == 179 || b == 185 || b == 188 || b == 189 || b
        == 190
}

/// A byte that may begin an identifier.
pub open spec fn spec_is_word_start(b: u8) -> bool {
    spec_is_alpha(b) || b == '_' as u8 || b == '$' as u8
}

/// A byte that may continue an identifier.
pub open spec fn spec_is_word_part(b: u8) -> bool {
    spec_is_alnum(b) || b == '_' as u8 || b == '$' as u8
}

fn is_word_part(b: u8) -> (r: bool)
    ensures
        r == spec_is_word_part(b),
{
    is_alnum(b) || b == '_' as u8 || b == '$' as u8
}

/// A byte that may continue a number literal.
pub open spec fn spec_is_number_part(b: u8) -> bool {
    spec_is_digit(b) || b == '_' as u8
}

fn is_number_part(b: u8) -> (r: bool)
    ensures
        r == spec_is_number_part(b),
{
    is_digit(b) || b == '_' as u8
}


/// The first position at or after `j` holding a line-feed byte, or the text's
/// length when the line never ends.
pub open spec fn spec_line_end(s: Seq<u8>, j: int) -> int
    decreases s.len() - j when j <= s.len()
{
    if j < 0 {
        spec_line_end(s, 0)
    } else if j >= s.len() || s[j] == '\n' as u8 {
        j
    } else {
        spec_line_end(s, j + 1)
    }
}

/// The position of the quote byte `q` that closes a literal whose contents
/// start at `j`: the first unescaped `q` at or after `j`, or the text's length.
pub open spec fn spec_lit_end(s: Seq<u8>, q: u8, j: int) -> int
    decreases s.len() - j when 1 <= j <= s.len()
{
    if j < 1 {
        spec_lit_end(s, q, 1)
    } else if j >= s.len() {
        s.len() as int
    } else if s[j] == q && s[j - 1] != '\\' as u8 {
        j
    } else {
        spec_lit_end(s, q, j + 1)
    }
}

/// The first position at or after `j` whose byte cannot continue an
/// identifier, or the text's length.
pub open spec fn spec_word_end(s: Seq<u8>, j: int) -> int
    decreases s.len() - j when j <= s.len()
{
    if j < 0 {
        spec_word_end(s, 0)
    } else if j >= s.len() || !spec_is_word_part(s[j]) {
        j
    } else {
        spec_word_end(s, j + 1)
    }
}

/// The first position at or after `j` whose byte cannot continue a number
/// literal, or the text's length.
pub open spec fn spec_num_end(s: Seq<u8>, j: int) -> int
    decreases s.len() - j when j <= s.len()
{
    if j < 0 {
        spec_num_end(s, 0)
    } else if j >= s.len() || !spec_is_number_part(s[j]) {
        j
    } else {
        spec_num_end(s, j + 1)
    }
}

/// The first position at or after `j` whose byte is not a letter, or the
/// text's length.
pub open spec fn spec_alpha_end(s: Seq<u8>, j: int) -> int
    decreases s.len() - j when j <= s.len()
{
    if j < 0 {
        spec_alpha_end(s, 0)
    } else if j >= s.len() || !spec_is_alpha(s[j]) {
        j
    } else {
        spec_alpha_end(s, j + 1)
    }
}

pub proof fn lemma_line_end_bounds(s: Seq<u8>, j: int)
    requires
        0 <= j <= s.len(),
    ensures
        j <= spec_line_end(s, j) <= s.len(),
    decreases s.len() - j,
{
    if j < s.len() && s[j] != '\n' as u8 {
        lemma_line_end_bounds(s, j + 1);
    }
}

pub proof fn lemma_lit_end_bounds(s: Seq<u8>, q: u8, j: int)
    requires
        1 <= j <= s.len(),
    ensures
        j <= spec_lit_end(s, q, j) <= s.len(),
    decreases s.len() - j,
{
    if j < s.len() && !(s[j] == q && s[j - 1] != '\\' as u8) {
        lemma_lit_end_bounds(s, q, j + 1);
    }
}

pub proof fn lemma_word_end_bounds(s: Seq<u8>, j: int)
    requires
        0 <= j <= s.len(),
    ensures
        j <= spec_word_end(s, j) <= s.len(),
    decreases s.len() - j,
{
    if j < s.len() && spec_is_word_part(s[j]) {
        lemma_word_end_bounds(s, j + 1);
    }
}

pub proof fn lemma_num_end_bounds(s: Seq<u8>, j: int)
    requires
        0 <= j <= s.len(),
    ensures
        j <= spec_num_end(s, j) <= s.len(),
    decreases s.len() - j,
{
    if j < s.len() && spec_is_number_part(s[j]) {
        lemma_num_end_bounds(s, j + 1);
    }
}

pub proof fn lemma_alpha_end_bounds(s: Seq<u8>, j: int)
    requires
        0 <= j <= s.len(),
    ensures
        j <= spec_alpha_end(s, j) <= s.len(),
    decreases s.len() - j,
{
    if j < s.len() && spec_is_alpha(s[j]) {
        lemma_alpha_end_bounds(s, j + 1);
    }
}

/// `d` with every underscore byte removed.
pub open spec fn spec_remove_underscores(d: Seq<u8>) -> Seq<u8>
    decreases d.len(),
{
    if d.len() == 0 {
        seq![]
    } else if d[0] == '_' as u8 {
        spec_remove_underscores(d.drop_first())
    } else {
        seq![d[0]] + spec_remove_underscores(d.drop_first())
    }
}

/// `d` with every leading zero digit removed.
pub open spec fn spec_strip_leading_zeros(d: Seq<u8>) -> Seq<u8>
    decreases d.len(),
{
    if d.len() > 0 && d[0] == '0' as u8 {
        spec_strip_leading_zeros(d.drop_first())
    } else {
        d
    }
}

/// The canonical decimal form of a lexed digit run: underscores removed,
/// leading zeros removed, and a run of nothing but zeros left as one zero.
pub open spec fn spec_normalize_number(d: Seq<u8>) -> Seq<u8> {
    let trimmed = spec_strip_leading_zeros(spec_remove_underscores(d));
    if trimmed.len() == 0 {
        seq!['0' as u8]
    } else {
        trimmed
    }
}

/// Are two byte vectors equal?
pub fn bytes_eq(a: &Vec<u8>, b: &Vec<u8>) -> (r: bool)
    ensures
        r == (a@ == b@),
{
    if a.len() != b.len() {
        return false;
    }
    let mut i: usize = 0;
    while i < a.len()
        invariant
            a@.len() == b@.len(),
            i <= a@.len(),
            forall|k: int| 0 <= k < i ==> a@[k] == b@[k],
        decreases a@.len() - i,
    {
        if a[i] != b[i] {
            return false;
        }
        i += 1;
    }
    proof {
        assert(a@ =~= b@);
    }
    true
}

/// A copy of `src[from..to]`.
pub fn vec_subrange(src: &Vec<u8>, from: usize, to: usize) -> (r: Vec<u8>)
    requires
        from <= to <= src@.len(),
    ensures
        r@ == src@.subrange(from as int, to as int),
{
    let mut r: Vec<u8> = Vec::new();
    let mut i: usize = from;
    while i < to
        invariant
            from <= i <= to <= src@.len(),
            r@ == src@.subrange(from as int, i as int),
        decreases to - i,
    {
        r.push(src[i]);
        proof {
            assert(src@.subrange(from as int, i + 1 as int) =~= src@.subrange(
                from as int,
                i as int,
            ).push(src@[i as int]));
        }
        i += 1;
    }
    r
}

/// The bytes of the keyword `interface`.
pub open spec fn kw_interface() -> Seq<u8> {
    seq!['i' as u8, 'n' as u8, 't' as u8, 'e' as u8, 'r' as u8, 'f' as u8, 'a' as u8, 'c' as u8, 'e' as u8]
}

/// The bytes of the keyword `true`.
pub open spec fn kw_true() -> Seq<u8> {
    seq!['t' as u8, 'r' as u8, 'u' as u8, 'e' as u8]
}

/// The bytes of the keyword `false`.
pub open spec fn kw_false() -> Seq<u8> {
    seq!['f' as u8, 'a' as u8, 'l' as u8, 's' as u8, 'e' as u8]
}

/// The bytes of the keyword `string`.
pub open spec fn kw_string() -> Seq<u8> {
    seq!['s' as u8, 't' as u8, 'r' as u8, 'i' as u8, 'n' as u8, 'g' as u8]
}

/// The bytes of the keyword `number`.
pub open spec fn kw_number() -> Seq<u8> {
    seq!['n' as u8, 'u' as u8, 'm' as u8, 'b' as u8, 'e' as u8, 'r' as u8]
}

/// The bytes of the keyword `object`.
pub open spec fn kw_object() -> Seq<u8> {
    seq!['o' as u8, 'b' as u8, 'j' as u8, 'e' as u8, 'c' as u8, 't' as u8]
}

/// The bytes of the keyword `boolean`.
pub open spec fn kw_boolean() -> Seq<u8> {
    seq!['b' as u8, 'o' as u8, 'o' as u8, 'l' as u8, 'e' as u8, 'a' as u8, 'n' as u8]
}

/// The bytes of the keyword `null`.
pub open spec fn kw_null() -> Seq<u8> {
    seq!['n' as u8, 'u' as u8, 'l' as u8, 'l' as u8]
}

/// The bytes of the keyword `undefined`.
pub open spec fn kw_undefined() -> Seq<u8> {
    seq!['u' as u8, 'n' as u8, 'd' as u8, 'e' as u8, 'f' as u8, 'i' as u8, 'n' as u8, 'e' as u8, 'd' as u8]
}

/// The bytes of the keyword `symbol`.
pub open spec fn kw_symbol() -> Seq<u8> {
    seq!['s' as u8, 'y' as u8, 'm' as u8, 'b' as u8, 'o' as u8, 'l' as u8]
}

/// The bytes of the keyword `bigint`.
pub open spec fn kw_bigint() -> Seq<u8> {
    seq!['b' as u8, 'i' as u8, 'g' as u8, 'i' as u8, 'n' as u8, 't' as u8]
}

/// The bytes of the keyword `any`.
pub open spec fn kw_any() -> Seq<u8> {
    seq!['a' as u8, 'n' as u8, 'y' as u8]
}

/// The bytes of the keyword `unknown`.
pub open spec fn kw_unknown() -> Seq<u8> {
    seq!['u' as u8, 'n' as u8, 'k' as u8, 'n' as u8, 'o' as u8, 'w' as u8, 'n' as u8]
}

/// The bytes of the keyword `Function`.
pub open spec fn kw_function() -> Seq<u8> {
    seq!['F' as u8, 'u' as u8, 'n' as u8, 'c' as u8, 't' as u8, 'i' as u8, 'o' as u8, 'n' as u8]
}

/// The token a completed identifier run stands for: a keyword or
/// primitive token on an exact match, an identifier otherwise.
pub open spec fn spec_classify_word(w: Seq<u8>) -> TokenV {
    if w == kw_interface() {
        TokenV::Interface
    }
    else if w == kw_true() {
        TokenV::Type(TypeV::True)
    }
    else if w == kw_false() {
        TokenV::Type(TypeV::False)
    }
    else if w == kw_string() {
        TokenV::Type(TypeV::Str)
    }
    else if w == kw_number() {
        TokenV::Type(TypeV::Num)
    }
    else if w == kw_object() {
        TokenV::Type(TypeV::Object)
    }
    else if w == kw_boolean() {
        TokenV::Type(TypeV::Boolean)
    }
    else if w == kw_null() {
        TokenV::Type(TypeV::Null)
    }
    else if w == kw_undefined() {
        TokenV::Type(TypeV::Undefined)
    }
    else if w == kw_symbol() {
        TokenV::Type(TypeV::Symbol)
    }
    else if w == kw_bigint() {
        TokenV::Type(TypeV::BigInt)
    }
    else if w == kw_any() {
        TokenV::Type(TypeV::Any)
    }
    else if w == kw_unknown() {
        TokenV::Type(TypeV::Unknown)
    }
    else if w == kw_function() {
        TokenV::Type(TypeV::Function)
    }
    else {
        TokenV::Id(w)
    }
}

/// Classifies a completed identifier run.
fn classify_word(w: Vec<u8>) -> (t: Token)
    ensures
        t@ == spec_classify_word(w@),
{
    if bytes_eq(&w, &vec!['i' as u8, 'n' as u8, 't' as u8, 'e' as u8, 'r' as u8, 'f' as u8, 'a' as u8, 'c' as u8, 'e' as u8]) {
        proof {
            assert(kw_interface() =~= w@);
        }
        Token::Interface
    }
    else if bytes_eq(&w, &vec!['t' as u8, 'r' as u8, 'u' as u8, 'e' as u8]) {
        proof {
            assert(kw_true() =~= w@);
        }
        Token::Type(Type::True)
    }
    else if bytes_eq(&w, &vec!['f' as u8, 'a' as u8, 'l' as u8, 's' as u8, 'e' as u8]) {
        proof {
            assert(kw_false() =~= w@);
        }
        Token::Type(Type::False)
    }
    else if bytes_eq(&w, &vec!['s' as u8, 't' as u8, 'r' as u8, 'i' as u8, 'n' as u8, 'g' as u8]) {
        proof {
            assert(kw_string() =~= w@);
        }
        Token::Type(Type::Str)
    }
    else if bytes_eq(&w, &vec!['n' as u8, 'u' as u8, 'm' as u8, 'b' as u8, 'e' as u8, 'r' as u8]) {
        proof {
            assert(kw_number() =~= w@);
        }
        Token::Type(Type::Num)
    }
    else if bytes_eq(&w, &vec!['o' as u8, 'b' as u8, 'j' as u8, 'e' as u8, 'c' as u8, 't' as u8]) {
        proof {
            assert(kw_object() =~= w@);
        }
        Token::Type(Type::Object)
    }
    else if bytes_eq(&w, &vec!['b' as u8, 'o' as u8, 'o' as u8, 'l' as u8, 'e' as u8, 'a' as u8, 'n' as u8]) {
        proof {
            assert(kw_boolean() =~= w@);
        }
        Token::Type(Type::Boolean)
    }
    else if bytes_eq(&w, &vec!['n' as u8, 'u' as u8, 'l' as u8, 'l' as u8]) {
        proof {
            assert(kw_null() =~= w@);
        }
        Token::Type(Type::Null)
    }
    else if bytes_eq(&w, &vec!['u' as u8, 'n' as u8, 'd' as u8, 'e' as u8, 'f' as u8, 'i' as u8, 'n' as u8, 'e' as u8, 'd' as u8]) {
        proof {
            assert(kw_undefined() =~= w@);
        }
        Token::Type(Type::Undefined)
    }
    else if bytes_eq(&w, &vec!['s' as u8, 'y' as u8, 'm' as u8, 'b' as u8, 'o' as u8, 'l' as u8]) {
        proof {
            assert(kw_symbol() =~= w@);
        }
        Token::Type(Type::Symbol)
    }
    else if bytes_eq(&w, &vec!['b' as u8, 'i' as u8, 'g' as u8, 'i' as u8, 'n' as u8, 't' as u8]) {
        proof {
            assert(kw_bigint() =~= w@);
        }
        Token::Type(Type::BigInt)
    }
    else if bytes_eq(&w, &vec!['a' as u8, 'n' as u8, 'y' as u8]) {
        proof {
            assert(kw_any() =~= w@);
        }
        Token::Type(Type::Any)
    }
    else if bytes_eq(&w, &vec!['u' as u8, 'n' as u8, 'k' as u8, 'n' as u8, 'o' as u8, 'w' as u8, 'n' as u8]) {
        proof {
            assert(kw_unknown() =~= w@);
        }
        Token::Type(Type::Unknown)
    }
    else if bytes_eq(&w, &vec!['F' as u8, 'u' as u8, 'n' as u8, 'c' as u8, 't' as u8, 'i' as u8, 'o' as u8, 'n' as u8]) {
        proof {
            assert(kw_function() =~= w@);
        }
        Token::Type(Type::Function)
    }
    else {
        Token::Id(w)
    }
}

fn line_end(s: &Vec<u8>, start: usize) -> (e: usize)
    requires
        start <= s@.len(),
    ensures
        e == spec_line_end(s@, start as int),
        start <= e <= s@.len(),
{
    let mut j = start;
    while j < s.len() && s[j] != '\n' as u8
        invariant
            start <= j <= s@.len(),
            spec_line_end(s@, start as int) == spec_line_end(s@, j as int),
        decreases s@.len() - j,
    {
        j += 1;
    }
    j
}

fn lit_end(s: &Vec<u8>, q: u8, start: usize) -> (e: usize)
    requires
        1 <= start <= s@.len(),
    ensures
        e == spec_lit_end(s@, q, start as int),
        start <= e <= s@.len(),
{
    let mut j = start;
    while j < s.len() && !(s[j] == q && s[j - 1] != '\\' as u8)
        invariant
            1 <= start <= j <= s@.len(),
            spec_lit_end(s@, q, start as int) == spec_lit_end(s@, q, j as int),
        decreases s@.len() - j,
    {
        j += 1;
    }
    j
}

fn word_end(s: &Vec<u8>, start: usize) -> (e: usize)
    requires
        start <= s@.len(),
    ensures
        e == spec_word_end(s@, start as int),
        start <= e <= s@.len(),
{
    let mut j = start;
    while j < s.len() && is_word_part(s[j])
        invariant
            start <= j <= s@.len(),
            spec_word_end(s@, start as int) == spec_word_end(s@, j as int),
        decreases s@.len() - j,
    {
        j += 1;
    }
    j
}

fn num_end(s: &Vec<u8>, start: usize) -> (e: usize)
    requires
        start <= s@.len(),
    ensures
        e == spec_num_end(s@, start as int),
        start <= e <= s@.len(),
{
    let mut j = start;
    while j < s.len() && is_number_part(s[j])
        invariant
            start <= j <= s@.len(),
            spec_num_end(s@, start as int) == spec_num_end(s@, j as int),
        decreases s@.len() - j,
    {
        j += 1;
    }
    j
}

fn alpha_end(s: &Vec<u8>, start: usize) -> (e: usize)
    requires
        start <= s@.len(),
    ensures
        e == spec_alpha_end(s@, start as int),
        start <= e <= s@.len(),
{
    let mut j = start;
    while j < s.len() && is_alpha(s[j])
        invariant
            start <= j <= s@.len(),
            spec_alpha_end(s@, start as int) == spec_alpha_end(s@, j as int),
        decreases s@.len() - j,
    {
        j += 1;
    }
    j
}

/// Brings a lexed digit run to canonical decimal form.
fn normalize_number(d: Vec<u8>) -> (r: Vec<u8>)
    ensures
        r@ == spec_normalize_number(d@),
{
    let mut digits: Vec<u8> = Vec::new();
    let mut i: usize = 0;
    proof {
        assert(d@.skip(0) =~= d@);
        assert(Seq::<u8>::empty() + spec_remove_underscores(d@) =~= spec_remove_underscores(d@));
    }
    while i < d.len()
        invariant
            i <= d@.len(),
            spec_remove_underscores(d@) == digits@ + spec_remove_underscores(
                d@.skip(i as int),
            ),
        decreases d@.len() - i,
    {
        proof {
            assert(d@.skip(i as int).drop_first() =~= d@.skip(i + 1));
            assert(d@.skip(i as int)[0] == d@[i as int]);
        }
        if d[i] != '_' as u8 {
            proof {
                assert(digits@ + spec_remove_underscores(d@.skip(i as int)) =~= digits@.push(
                    d@[i as int],
                ) + spec_remove_underscores(d@.skip(i + 1)));
            }
            digits.push(d[i]);
        }
        i += 1;
    }
    proof {
        assert(d@.skip(d@.len() as int) =~= Seq::<u8>::empty());
        assert(spec_remove_underscores(d@) =~= digits@);
    }
    let mut k: usize = 0;
    proof {
        assert(digits@.skip(0) =~= digits@);
    }
    while k < digits.len() && digits[k] == '0' as u8
        invariant
            k <= digits@.len(),
            spec_strip_leading_zeros(digits@) == spec_strip_leading_zeros(
                digits@.skip(k as int),
            ),
        decreases digits@.len() - k,
    {
        proof {
            assert(digits@.skip(k as int).drop_first() =~= digits@.skip(k + 1));
            assert(digits@.skip(k as int)[0] == digits@[k as int]);
        }
        k += 1;
    }
    if k == digits.len() {
        proof {
            assert(digits@.skip(k as int) =~= Seq::<u8>::empty());
        }
        vec!['0' as u8]
    } else {
        let r = vec_subrange(&digits, k, digits.len());
        proof {
            assert(digits@.skip(k as int) =~= digits@.subrange(
                k as int,
                digits@.len() as int,
            ));
        }
        r
    }
}

/// The tokens the lexer produces from position `i` on (the end-of-file
/// token excluded): a single left-to-right scan that skips whitespace,
/// consumes `//` line comments, reads quoted literals with escape
/// awareness, reads maximal identifier and digit runs, maps single
/// punctuation bytes to their tokens, and turns any other byte into an
/// `Undefined` token.
pub open spec fn spec_lex_from(s: Seq<u8>, i: int) -> Seq<TokenV>
    decreases s.len() - i when 0 <= i <= s.len() via spec_lex_from_dec
{
    let n = s.len() as int;
    if i >= n {
        seq![]
    } else {
        let c = s[i];
        if spec_is_skippable(c) {
            spec_lex_from(s, i + 1)
        } else if c == '/' as u8 {
            if i + 1 < n && s[i + 1] == '/' as u8 {
                let j = spec_line_end(s, i + 2);
                seq![TokenV::Comment] + spec_lex_from(s, if j + 1 <= n { j + 1 } else { n })
            } else {
                seq![TokenV::Slash] + spec_lex_from(s, i + 1)
            }
        } else if c == '"' as u8 {
            let e = spec_lit_end(s, '"' as u8, i + 1);
            seq![TokenV::StrLit(s.subrange(i + 1, e))] + spec_lex_from(
                s,
                if e + 1 <= n { e + 1 } else { n },
            )
        } else if c == '\'' as u8 {
            let e = spec_lit_end(s, '\'' as u8, i + 1);
            seq![TokenV::StrLit(s.subrange(i + 1, e))] + spec_lex_from(
                s,
                if e + 1 <= n { e + 1 } else { n },
            )
        } else if c == '&' as u8 {
            seq![TokenV::Type(TypeV::Oper(Oper::And))] + spec_lex_from(s, i + 1)
        } else if c == '|' as u8 {
            seq![TokenV::Type(TypeV::Oper(Oper::Or))] + spec_lex_from(s, i + 1)
        } else if c == '-' as u8 {
            seq![TokenV::Dash] + spec_lex_from(s, i + 1)
        } else if c == '<' as u8 {
            seq![TokenV::Type(TypeV::Punct(Punct::LAngleB))] + spec_lex_from(s, i + 1)
        } else if c == '>' as u8 {
            seq![TokenV::Type(TypeV::Punct(Punct::RAngleB))] + spec_lex_from(s, i + 1)
        } else if c == '(' as u8 {
            seq![TokenV::Type(TypeV::Punct(Punct::LPar))] + spec_lex_from(s, i + 1)
        } else if c == ')' as u8 {
            seq![TokenV::Type(TypeV::Punct(Punct::RPar))] + spec_lex_from(s, i + 1)
        } else if c == '[' as u8 {
            seq![TokenV::Type(TypeV::Punct(Punct::LBrack))] + spec_lex_from(s, i + 1)
        } else if c == ']' as u8 {
            seq![TokenV::Type(TypeV::Punct(Punct::RBrack))] + spec_lex_from(s, i + 1)
        } else if c == '{' as u8 {
            seq![TokenV::Type(TypeV::Punct(Punct::LBrace))] + spec_lex_from(s, i + 1)
        } else if c == '}' as u8 {
            seq![TokenV::Type(TypeV::Punct(Punct::RBrace))] + spec_lex_from(s, i + 1)
        } else if c == '=' as u8 {
            seq![TokenV::Eq] + spec_lex_from(s, i + 1)
        } else if c == ':' as u8 {
            seq![TokenV::Colon] + spec_lex_from(s, i + 1)
        } else if c == '?' as u8 {
            seq![TokenV::QM] + spec_lex_from(s, i + 1)
        } else if spec_is_word_start(c) {
            let e = spec_word_end(s, i);
            seq![spec_classify_word(s.subrange(i, e))] + spec_lex_from(s, e)
        } else if spec_is_digit(c) {
            let e = spec_num_end(s, i);
            seq![TokenV::Number(spec_normalize_number(s.subrange(i, e)))] + spec_lex_from(s, e)
        } else {
            seq![TokenV::Undefined(c)] + spec_lex_from(s, i + 1)
        }
    }
}

#[via_fn]
proof fn spec_lex_from_dec(s: Seq<u8>, i: int) {
    let n = s.len() as int;
    if 0 <= i < n {
        let c = s[i];
        if c == '/' as u8 && i + 1 < n && s[i + 1] == '/' as u8 {
            lemma_line_end_bounds(s, i + 2);
        }
        if c == '"' as u8 {
            lemma_lit_end_bounds(s, '"' as u8, i + 1);
        }
        if c == '\'' as u8 {
            lemma_lit_end_bounds(s, '\'' as u8, i + 1);
        }
        if spec_is_word_start(c) {
            lemma_word_end_bounds(s, i + 1);
            assert(spec_word_end(s, i) == spec_word_end(s, i + 1));
        }
        if spec_is_digit(c) {
            lemma_num_end_bounds(s, i + 1);
            assert(spec_num_end(s, i) == spec_num_end(s, i + 1));
        }
    }
}

/// The full token sequence of a source text: the scan's tokens followed by
/// the end-of-file token.
pub open spec fn spec_tokenize(s: Seq<u8>) -> Seq<TokenV> {
    spec_lex_from(s, 0) + seq![TokenV::EOF]
}

/// Lexes a source text into its token sequence. Never fails: every byte
/// is classified, an unrecognized one as an `Undefined` token.
pub fn tokenize(src: &Vec<u8>) -> (tokens: Vec<Token>)
    ensures
        view_tokens(tokens@) == spec_tokenize(src@),
{
    let n = src.len();
    let mut tokens: Vec<Token> = Vec::new();
    let mut i: usize = 0;
    while i < n
        invariant
            n == src@.len(),
            i <= n,
            view_tokens(tokens@) + spec_lex_from(src@, i as int) == spec_lex_from(src@, 0),
        decreases n - i,
    {
        let ghost prev = tokens@;
        let ghost previ = i as int;
        let c = src[i];
        if is_skippable(&c) {
            i += 1;
            proof {
                assert(view_tokens(prev) + spec_lex_from(src@, previ) =~= view_tokens(prev)
                    + spec_lex_from(src@, i as int));
            }
            continue;
        }
        let tok: Token;
        if c == '/' as u8 {
            if i + 1 < n && src[i + 1] == '/' as u8 {
                let j = line_end(src, i + 2);
                tok = Token::Comment;
                i = if j < n {
                    j + 1
                } else {
                    n
                };
            } else {
                tok = Token::Slash;
                i += 1;
            }
        } else if c == '"' as u8 || c == '\'' as u8 {
            let e = lit_end(src, c, i + 1);
            tok = Token::StrLit(vec_subrange(src, i + 1, e));
            i = if e < n {
                e + 1
            } else {
                n
            };
        } else if c == '&' as u8 {
            tok = Token::Type(Type::Oper(Oper::And));
            i += 1;
        } else if c == '|' as u8 {
            tok = Token::Type(Type::Oper(Oper::Or));
            i += 1;
        } else if c == '-' as u8 {
            tok = Token::Dash;
            i += 1;
        } else if c == '<' as u8 {
            tok = Token::Type(Type::Punct(Punct::LAngleB));
            i += 1;
        } else if c == '>' as u8 {
            tok = Token::Type(Type::Punct(Punct::RAngleB));
            i += 1;
        } else if c == '(' as u8 {
            tok = Token::Type(Type::Punct(Punct::LPar));
            i += 1;
        } else if c == ')' as u8 {
            tok = Token::Type(Type::Punct(Punct::RPar));
            i += 1;
        } else if c == '[' as u8 {
            tok = Token::Type(Type::Punct(Punct::LBrack));
            i += 1;
        } else if c == ']' as u8 {
            tok = Token::Type(Type::Punct(Punct::RBrack));
            i += 1;
        } else if c == '{' as u8 {
            tok = Token::Type(Type::Punct(Punct::LBrace));
            i += 1;
        } else if c == '}' as u8 {
            tok = Token::Type(Type::Punct(Punct::RBrace));
            i += 1;
        } else if c == '=' as u8 {
            tok = Token::Eq;
            i += 1;
        } else if c == ':' as u8 {
            tok = Token::Colon;
            i += 1;
        } else if c == '?' as u8 {
            tok = Token::QM;
            i += 1;
        } else if is_alpha(c) || c == '_' as u8 || c == '$' as u8 {
            let e = word_end(src, i);
            proof {
                assert(spec_word_end(src@, previ) == spec_word_end(src@, previ + 1));
            }
            tok = classify_word(vec_subrange(src, i, e));
            i = e;
        } else if is_digit(c) {
            let e = num_end(src, i);
            proof {
                assert(spec_num_end(src@, previ) == spec_num_end(src@, previ + 1));
            }
            tok = Token::Number(normalize_number(vec_subrange(src, i, e)));
            i = e;
        } else {
            tok = Token::Undefined(c);
            i += 1;
        }
        proof {
            assert(spec_lex_from(src@, previ) =~= seq![tok@] + spec_lex_from(src@, i as int));
            assert(view_tokens(prev.push(tok)) =~= view_tokens(prev) + seq![tok@]);
            assert(view_tokens(prev.push(tok)) + spec_lex_from(src@, i as int) =~= (view_tokens(
                prev,
            ) + spec_lex_from(src@, previ)));
        }
        tokens.push(tok);
    }
    proof {
        assert(view_tokens(tokens@) + spec_lex_from(src@, i as int) =~= view_tokens(tokens@));
    }
    let ghost prev = tokens@;
    tokens.push(Token::EOF);
    proof {
        assert(view_tokens(prev.push(Token::EOF)) =~= view_tokens(prev) + seq![TokenV::EOF]);
    }
    tokens
}

/// The quote-aware, comment-aware brace scan that finds the closing brace
/// of a declaration body: `Some` holds the position where the brace count
/// first returns to zero after an opening brace was seen; the scan fails
/// open when a stray closing brace appears first or the text ends.
pub open spec fn spec_brace_scan(s: Seq<u8>, k: int, count: int, first: bool) -> Option<int>
    decreases s.len() - k when 0 <= k <= s.len() via spec_brace_scan_dec
{
    let n = s.len() as int;
    if k >= n {
        None
    } else {
        let c = s[k];
        if c == '"' as u8 || c == '\'' as u8 || c == '`' as u8 {
            let e = spec_lit_end(s, c, k + 1);
            spec_brace_scan(
                s,
                if e + 1 <= n {
                    e + 1
                } else {
                    n
                },
                count,
                first,
            )
        } else if c == '{' as u8 {
            spec_brace_scan(s, k + 1, count + 1, true)
        } else if c == '}' as u8 {
            if count - 1 < 0 {
                None
            } else if first && count - 1 == 0 {
                Some(k)
            } else {
                spec_brace_scan(s, k + 1, count - 1, first)
            }
        } else {
            spec_brace_scan(s, k + 1, count, first)
        }
    }
}

#[via_fn]
proof fn spec_brace_scan_dec(s: Seq<u8>, k: int, count: int, first: bool) {
    let n = s.len() as int;
    if 0 <= k < n {
        let c = s[k];
        if c == '"' as u8 || c == '\'' as u8 || c == '`' as u8 {
            lemma_lit_end_bounds(s, c, k + 1);
        }
    }
}

pub proof fn lemma_brace_scan_bounds(s: Seq<u8>, k: int, count: int, first: bool)
    requires
        0 <= k <= s.len(),
        spec_brace_scan(s, k, count, first) is Some,
    ensures
        k <= spec_brace_scan(s, k, count, first).unwrap() < s.len(),
    decreases s.len() - k,
{
    let n = s.len() as int;
    if k < n {
        let c = s[k];
        if c == '"' as u8 || c == '\'' as u8 || c == '`' as u8 {
            lemma_lit_end_bounds(s, c, k + 1);
            let e = spec_lit_end(s, c, k + 1);
            lemma_brace_scan_bounds(
                s,
                if e + 1 <= n {
                    e + 1
                } else {
                    n
                },
                count,
                first,
            );
        } else if c == '{' as u8 {
            lemma_brace_scan_bounds(s, k + 1, count + 1, true);
        } else if c == '}' as u8 {
            if !(count - 1 < 0) && !(first && count - 1 == 0) {
                lemma_brace_scan_bounds(s, k + 1, count - 1, first);
            }
        } else {
            lemma_brace_scan_bounds(s, k + 1, count, first);
        }
    }
}

/// The concatenated declaration spans found from position `i` on: for
/// every `interface` keyword met outside string or comment context whose
/// body's closing brace is found, the whole span from the keyword through
/// that brace; a keyword with no matching close contributes nothing.
pub open spec fn spec_fi_from(s: Seq<u8>, i: int) -> Seq<u8>
    decreases s.len() - i when 0 <= i <= s.len() via spec_fi_from_dec
{
    let n = s.len() as int;
    if i + 1 >= n {
        seq![]
    } else {
        let c = s[i];
        if c == '"' as u8 || c == '\'' as u8 || c == '`' as u8 {
            let e = spec_lit_end(s, c, i + 1);
            spec_fi_from(
                s,
                if e + 1 <= n {
                    e + 1
                } else {
                    n
                },
            )
        } else if c == '/' as u8 {
            if s[i + 1] == '/' as u8 {
                let j = spec_line_end(s, i + 1);
                spec_fi_from(
                    s,
                    if j + 1 <= n {
                        j + 1
                    } else {
                        n
                    },
                )
            } else {
                spec_fi_from(s, i + 1)
            }
        } else if spec_is_alpha(c) {
            let e = spec_alpha_end(s, i + 1);
            if s.subrange(i, e) == kw_interface() {
                match spec_brace_scan(
                    s,
                    if e + 1 <= n {
                        e + 1
                    } else {
                        n
                    },
                    0,
                    false,
                ) {
                    Some(k) => s.subrange(i, k + 1) + spec_fi_from(s, k + 1),
                    None => spec_fi_from(s, i + 1),
                }
            } else {
                spec_fi_from(s, i + 1)
            }
        } else {
            spec_fi_from(s, i + 1)
        }
    }
}

#[via_fn]
proof fn spec_fi_from_dec(s: Seq<u8>, i: int) {
    let n = s.len() as int;
    if 0 <= i && i + 1 < n {
        let c = s[i];
        if c == '"' as u8 || c == '\'' as u8 || c == '`' as u8 {
            lemma_lit_end_bounds(s, c, i + 1);
        } else if c == '/' as u8 {
            lemma_line_end_bounds(s, i + 1);
        } else if spec_is_alpha(c) {
            lemma_alpha_end_bounds(s, i + 1);
            let e = spec_alpha_end(s, i + 1);
            let start = if e + 1 <= n {
                e + 1
            } else {
                n
            };
            if spec_brace_scan(s, start, 0, false) is Some {
                lemma_brace_scan_bounds(s, start, 0, false);
            }
        }
    }
}

/// The declaration spans of a program text, concatenated: the pre-filter
/// that lets the compiler ignore surrounding program text.
pub open spec fn spec_find_interfaces(s: Seq<u8>) -> Seq<u8> {
    spec_fi_from(s, 0)
}

fn brace_scan_exec(src: &Vec<u8>, start: usize) -> (r: Option<usize>)
    requires
        start <= src@.len(),
    ensures
        match r {
            Some(k) => spec_brace_scan(src@, start as int, 0, false) == Some(k as int) && start
                <= k < src@.len(),
            None => spec_brace_scan(src@, start as int, 0, false) is None,
        },
{
    let n = src.len();
    let mut k = start;
    let mut count: i128 = 0;
    let mut first = false;
    while k < n
        invariant
            start <= k <= n,
            n == src@.len(),
            -1 <= count <= (k - start) as i128,
            spec_brace_scan(src@, start as int, 0, false) == spec_brace_scan(
                src@,
                k as int,
                count as int,
                first,
            ),
        decreases n - k,
    {
        let c = src[k];
        if c == '"' as u8 || c == '\'' as u8 || c == '`' as u8 {
            let e = lit_end(src, c, k + 1);
            k = if e < n {
                e + 1
            } else {
                n
            };
        } else if c == '{' as u8 {
            count += 1;
            first = true;
            k += 1;
        } else if c == '}' as u8 {
            if count - 1 < 0 {
                return None;
            }
            if first && count == 1 {
                return Some(k);
            }
            count -= 1;
            k += 1;
        } else {
            k += 1;
        }
    }
    None
}

/// Extracts the declaration spans of a program text: scans for the
/// `interface` keyword outside string and comment context, then counts
/// braces, quote-aware, from the first opening brace after the keyword to
/// its match, and keeps exactly that span. A keyword whose body never
/// closes contributes nothing.
pub fn find_interfaces(src: &Vec<u8>) -> (r: Vec<u8>)
    ensures
        r@ == spec_find_interfaces(src@),
{
    let n = src.len();
    let mut out: Vec<u8> = Vec::new();
    let mut i: usize = 0;
    proof {
        assert(out@ =~= Seq::<u8>::empty());
        assert(Seq::<u8>::empty() + spec_fi_from(src@, 0) =~= spec_fi_from(src@, 0));
    }
    while n > 0 && i < n - 1
        invariant
            i <= n,
            n == src@.len(),
            out@ + spec_fi_from(src@, i as int) == spec_fi_from(src@, 0),
        decreases n - i,
    {
        let ghost before = out@;
        let ghost previ = i as int;
        let c = src[i];
        if c == '"' as u8 || c == '\'' as u8 || c == '`' as u8 {
            let e = lit_end(src, c, i + 1);
            i = if e < n {
                e + 1
            } else {
                n
            };
        } else if c == '/' as u8 {
            if src[i + 1] == '/' as u8 {
                let j = line_end(src, i + 1);
                i = if j < n {
                    j + 1
                } else {
                    n
                };
            } else {
                i += 1;
            }
        } else if is_alpha(c) {
            let e = alpha_end(src, i + 1);
            let word = vec_subrange(src, i, e);
            let kw = vec![
                'i' as u8,
                'n' as u8,
                't' as u8,
                'e' as u8,
                'r' as u8,
                'f' as u8,
                'a' as u8,
                'c' as u8,
                'e' as u8,
            ];
            proof {
                assert(kw@ =~= kw_interface());
            }
            if bytes_eq(&word, &kw) {
                let scan_start = if e < n {
                    e + 1
                } else {
                    n
                };
                match brace_scan_exec(src, scan_start) {
                    Some(k) => {
                        let span = vec_subrange(src, i, k + 1);
                        append_bytes(&mut out, &span);
                        proof {
                            assert(out@ =~= before + src@.subrange(previ, k + 1));
                        }
                        i = k + 1;
                    },
                    None => {
                        i += 1;
                    },
                }
            } else {
                i += 1;
            }
        } else {
            i += 1;
        }
        proof {
            assert(before + spec_fi_from(src@, previ) =~= out@ + spec_fi_from(src@, i as int));
        }
    }
    proof {
        assert(spec_fi_from(src@, i as int) =~= Seq::<u8>::empty());
        assert(out@ + Seq::<u8>::empty() =~= out@);
    }
    out
}

/// Appends a copy of `add` to `out`.
pub fn append_bytes(out: &mut Vec<u8>, add: &Vec<u8>)
    ensures
        final(out)@ == old(out)@ + add@,
{
    let mut i: usize = 0;
    while i < add.len()
        invariant
            i <= add@.len(),
            out@ == old(out)@ + add@.subrange(0, i as int),
        decreases add@.len() - i,
    {
        let ghost before = out@;
        out.push(add[i]);
        proof {
            assert(before.push(add@[i as int]) =~= old(out)@ + add@.subrange(0, i + 1));
        }
        i += 1;
    }
    proof {
        assert(old(out)@ + add@.subrange(0, add@.len() as int) =~= old(out)@ + add@);
    }
}

} // verus!
