//! The code generator: walks each canonical tree bottom-up into a flat
//! sequence of target-expression tokens addressed by a property path from
//! the guard function's parameter, renders that sequence to source text,
//! and wraps it in one exported function per declared type.
use vstd::prelude::*;

use crate::cmd::Extension;
use crate::lexer::{spec_is_digit, spec_is_word_part, spec_is_word_start, Type, TypeV};
use crate::parsers::{
    all_named, entries_view, entry_view, lemma_entries_view, lemma_values_view, size_val,
    size_vals, spec_name_of, value_view, values_view, Entry, EntryV, Generic, GenericV, Key, KeyV,
    Value, ValueV,
};
use crate::CompileError;

verus! {

/// The opening bracket of a numeric index.
pub open spec fn lit_bracket_open() -> Seq<u8> {
    seq!['[' as u8]
}

/// The closing bracket of a numeric index.
pub open spec fn lit_bracket_close() -> Seq<u8> {
    seq![']' as u8]
}

/// The opening of a bracket-indexed string key.
pub open spec fn lit_quoted_key_open() -> Seq<u8> {
    seq!['[' as u8, '"' as u8]
}

/// The closing of a bracket-indexed string key.
pub open spec fn lit_quoted_key_close() -> Seq<u8> {
    seq!['"' as u8, ']' as u8]
}

/// The dot before a plain-name segment.
pub open spec fn lit_dot() -> Seq<u8> {
    seq!['.' as u8]
}


broadcast use vstd::seq::axiom_seq_index_decreases, vstd::seq::axiom_seq_subrange_decreases;

/// The property-name path from the guard's parameter to a sub-value.
pub type Addr = Vec<Vec<u8>>;

/// The name a target type carries in a `typeof` comparison.
#[derive(Clone, Copy, PartialEq, Eq, Structural, Debug)]
pub enum JSType {
    Str,
    Num,
    Function,
    Boolean,
    Object,
    Undefined,
    Symbol,
    BigInt,
}

/// One abstract token of the emitted boolean expression.
#[derive(Clone, Debug)]
pub enum JSToken {
    /// A quoted string literal.
    StrLit(Vec<u8>),
    /// A bare identifier.
    Id(Vec<u8>),
    /// A property path rendered from the guard's parameter.
    Addr(Addr),
    /// A bare number.
    Number(Vec<u8>),
    /// An array test applied to a property path.
    ArrayIsArray(Addr),
    /// The own-key count of a property path.
    ObjectKeysLength(Addr),
    /// The length of a property path.
    AddrLength(Addr),
    JSType(JSType),
    EqEq,
    EqEqEq,
    NotEq,
    NotEqEq,
    In,
    And,
    Or,
    LPar,
    RPar,
    Typeof,
    True,
    False,
    Undefined,
    Null,
    /// Nothing: the placeholder an unresolved generic leaves behind.
    Empty,
}

/// Mathematical image of `JSToken`.
pub enum JSTokenV {
    StrLit(Seq<u8>),
    Id(Seq<u8>),
    Addr(Seq<Seq<u8>>),
    Number(Seq<u8>),
    ArrayIsArray(Seq<Seq<u8>>),
    ObjectKeysLength(Seq<Seq<u8>>),
    AddrLength(Seq<Seq<u8>>),
    JSType(JSType),
    EqEq,
    EqEqEq,
    NotEq,
    NotEqEq,
    In,
    And,
    Or,
    LPar,
    RPar,
    Typeof,
    True,
    False,
    Undefined,
    Null,
    Empty,
}

/// The path sequence an address vector stands for.
pub open spec fn addr_view(a: Seq<Vec<u8>>) -> Seq<Seq<u8>> {
    a.map_values(|seg: Vec<u8>| seg@)
}

impl View for JSToken {
    type V = JSTokenV;

    open spec fn view(&self) -> JSTokenV {
        match self {
            JSToken::StrLit(s) => JSTokenV::StrLit(s@),
            JSToken::Id(s) => JSTokenV::Id(s@),
            JSToken::Addr(a) => JSTokenV::Addr(addr_view(a@)),
            JSToken::Number(s) => JSTokenV::Number(s@),
            JSToken::ArrayIsArray(a) => JSTokenV::ArrayIsArray(addr_view(a@)),
            JSToken::ObjectKeysLength(a) => JSTokenV::ObjectKeysLength(addr_view(a@)),
            JSToken::AddrLength(a) => JSTokenV::AddrLength(addr_view(a@)),
            JSToken::JSType(t) => JSTokenV::JSType(*t),
            JSToken::EqEq => JSTokenV::EqEq,
            JSToken::EqEqEq => JSTokenV::EqEqEq,
            JSToken::NotEq => JSTokenV::NotEq,
            JSToken::NotEqEq => JSTokenV::NotEqEq,
            JSToken::In => JSTokenV::In,
            JSToken::And => JSTokenV::And,
            JSToken::Or => JSTokenV::Or,
            JSToken::LPar => JSTokenV::LPar,
            JSToken::RPar => JSTokenV::RPar,
            JSToken::Typeof => JSTokenV::Typeof,
            JSToken::True => JSTokenV::True,
            JSToken::False => JSTokenV::False,
            JSToken::Undefined => JSTokenV::Undefined,
            JSToken::Null => JSTokenV::Null,
            JSToken::Empty => JSTokenV::Empty,
        }
    }
}

/// The token sequence a vector of expression tokens stands for.
pub open spec fn js_tokens_view(ts: Seq<JSToken>) -> Seq<JSTokenV> {
    ts.map_values(|t: JSToken| t@)
}

/// The decimal digits of a number, most significant first.
pub open spec fn spec_dec(n: nat) -> Seq<u8>
    decreases n,
{
    if n < 10 {
        seq![('0' as u8 + n) as u8]
    } else {
        spec_dec(n / 10) + seq![('0' as u8 + n % 10) as u8]
    }
}

/// Writes a number in decimal.
pub fn usize_to_dec(n: usize) -> (r: Vec<u8>)
    ensures
        r@ == spec_dec(n as nat),
    decreases n,
{
    if n < 10 {
        let d: u8 = '0' as u8 + (n as u8);
        let r = vec![d];
        proof {
            assert(r@ =~= spec_dec(n as nat));
        }
        r
    } else {
        let mut r = usize_to_dec(n / 10);
        let d: u8 = '0' as u8 + ((n % 10) as u8);
        let ghost prev = r@;
        r.push(d);
        proof {
            assert(r@ =~= prev + seq![d]);
        }
        r
    }
}

/// Double quotes escaped with a backslash, unless one is already there;
/// `prev` carries the byte just before the rest of the text.
pub open spec fn spec_escape_dq_from(s: Seq<u8>, prev: u8) -> Seq<u8>
    decreases s.len(),
{
    if s.len() == 0 {
        seq![]
    } else if s[0] == '"' as u8 && prev != '\\' as u8 {
        seq!['\\' as u8, '"' as u8] + spec_escape_dq_from(s.drop_first(), s[0])
    } else {
        seq![s[0]] + spec_escape_dq_from(s.drop_first(), s[0])
    }
}

/// The text of a string with every unescaped double quote escaped.
pub open spec fn spec_escape_dq(s: Seq<u8>) -> Seq<u8> {
    spec_escape_dq_from(s, 0)
}

/// Escapes the double quotes of one string.
pub fn escape_double_q(s: &Vec<u8>) -> (r: Vec<u8>)
    ensures
        r@ == spec_escape_dq(s@),
{
    let mut out: Vec<u8> = Vec::new();
    let mut i: usize = 0;
    let mut prev: u8 = 0;
    proof {
        assert(s@.skip(0) =~= s@);
        assert(out@ =~= Seq::<u8>::empty());
    }
    while i < s.len()
        invariant
            i <= s@.len(),
            spec_escape_dq(s@) == out@ + spec_escape_dq_from(s@.skip(i as int), prev),
        decreases s@.len() - i,
    {
        let ghost before = out@;
        proof {
            assert(s@.skip(i as int)[0] == s@[i as int]);
            assert(s@.skip(i as int).drop_first() =~= s@.skip(i + 1));
        }
        let c = s[i];
        if c == '"' as u8 && prev != '\\' as u8 {
            out.push('\\' as u8);
            out.push('"' as u8);
            proof {
                assert(out@ =~= before + seq!['\\' as u8, '"' as u8]);
            }
        } else {
            out.push(c);
            proof {
                assert(out@ =~= before + seq![c]);
            }
        }
        prev = c;
        i += 1;
    }
    proof {
        assert(s@.skip(s@.len() as int) =~= Seq::<u8>::empty());
        assert(out@ + Seq::<u8>::empty() =~= out@);
    }
    out
}

/// A path segment made of decimal digits alone.
pub open spec fn spec_is_index_segment(seg: Seq<u8>) -> bool {
    seg.len() > 0 && forall|i: int| 0 <= i < seg.len() ==> spec_is_digit(#[trigger] seg[i])
}

/// A path segment shaped like a plain identifier.
pub open spec fn spec_is_ident_segment(seg: Seq<u8>) -> bool {
    seg.len() > 0 && spec_is_word_start(seg[0]) && forall|i: int|
        0 <= i < seg.len() ==> spec_is_word_part(#[trigger] seg[i])
}

/// One path segment after the first: a numeric index in brackets, a plain
/// name after a dot, and anything else as a bracket-indexed string key.
pub open spec fn spec_render_segment(seg: Seq<u8>) -> Seq<u8> {
    if spec_is_index_segment(seg) {
        lit_bracket_open() + seg + lit_bracket_close()
    } else if spec_is_ident_segment(seg) {
        lit_dot() + seg
    } else {
        lit_quoted_key_open() + spec_escape_dq(seg) + lit_quoted_key_close()
    }
}

/// The text of a property path: the first segment as a bare identifier,
/// each later segment per `spec_render_segment`.
pub open spec fn spec_render_addr_rest(a: Seq<Seq<u8>>, i: int) -> Seq<u8>
    decreases a.len() - i when 0 <= i <= a.len()
{
    if i >= a.len() {
        seq![]
    } else {
        spec_render_segment(a[i]) + spec_render_addr_rest(a, i + 1)
    }
}

pub open spec fn spec_render_addr(a: Seq<Seq<u8>>) -> Seq<u8> {
    if a.len() == 0 {
        seq![]
    } else {
        a[0] + spec_render_addr_rest(a, 1)
    }
}
/// The opening of the array test around a path.
pub open spec fn lit_array_test_open() -> Seq<u8> {
    seq!['A' as u8, 'r' as u8, 'r' as u8, 'a' as u8, 'y' as u8, '.' as u8, 'i' as u8, 's' as u8, 'A' as u8, 'r' as u8, 'r' as u8, 'a' as u8, 'y' as u8, '(' as u8]
}

/// The closing parenthesis of a call.
pub open spec fn lit_close_paren() -> Seq<u8> {
    seq![')' as u8]
}

pub open spec fn lit_dotlength() -> Seq<u8> {
    seq!['.' as u8, 'l' as u8, 'e' as u8, 'n' as u8, 'g' as u8, 't' as u8, 'h' as u8]
}

/// The opening of the own-key count of a path.
pub open spec fn lit_key_count_open() -> Seq<u8> {
    seq!['O' as u8, 'b' as u8, 'j' as u8, 'e' as u8, 'c' as u8, 't' as u8, '.' as u8, 'k' as u8, 'e' as u8, 'y' as u8, 's' as u8, '(' as u8]
}

/// The closing of the own-key count of a path.
pub open spec fn lit_key_count_close() -> Seq<u8> {
    seq![')' as u8, '.' as u8, 'l' as u8, 'e' as u8, 'n' as u8, 'g' as u8, 't' as u8, 'h' as u8]
}

/// The quoted type name a `typeof` comparison tests against.
pub open spec fn spec_jstype_text(t: JSType) -> Seq<u8> {
    match t {
        JSType::Str => seq!['"' as u8, 's' as u8, 't' as u8, 'r' as u8, 'i' as u8, 'n' as u8, 'g' as u8, '"' as u8],
        JSType::Num => seq!['"' as u8, 'n' as u8, 'u' as u8, 'm' as u8, 'b' as u8, 'e' as u8, 'r' as u8, '"' as u8],
        JSType::Function => seq!['"' as u8, 'f' as u8, 'u' as u8, 'n' as u8, 'c' as u8, 't' as u8, 'i' as u8, 'o' as u8, 'n' as u8, '"' as u8],
        JSType::Boolean => seq!['"' as u8, 'b' as u8, 'o' as u8, 'o' as u8, 'l' as u8, 'e' as u8, 'a' as u8, 'n' as u8, '"' as u8],
        JSType::Object => seq!['"' as u8, 'o' as u8, 'b' as u8, 'j' as u8, 'e' as u8, 'c' as u8, 't' as u8, '"' as u8],
        JSType::Undefined => seq!['"' as u8, 'u' as u8, 'n' as u8, 'd' as u8, 'e' as u8, 'f' as u8, 'i' as u8, 'n' as u8, 'e' as u8, 'd' as u8, '"' as u8],
        JSType::Symbol => seq!['"' as u8, 's' as u8, 'y' as u8, 'm' as u8, 'b' as u8, 'o' as u8, 'l' as u8, '"' as u8],
        JSType::BigInt => seq!['"' as u8, 'b' as u8, 'i' as u8, 'g' as u8, 'i' as u8, 'n' as u8, 't' as u8, '"' as u8],
    }
}

/// The source text of one expression token. String literals take
/// surrounding double quotes with embedded ones escaped; `typeof` carries
/// a trailing space and the membership test spaces on both sides, so that
/// plain concatenation of token texts yields well-formed source.
pub open spec fn spec_render_token(t: JSTokenV) -> Seq<u8> {
    match t {
        JSTokenV::StrLit(x) => seq!['"' as u8] + spec_escape_dq(x) + seq!['"' as u8],
        JSTokenV::Id(x) => x,
        JSTokenV::Addr(a) => spec_render_addr(a),
        JSTokenV::Number(x) => x,
        JSTokenV::ArrayIsArray(a) => lit_array_test_open() + spec_render_addr(a) + lit_close_paren(),
        JSTokenV::AddrLength(a) => spec_render_addr(a) + lit_dotlength(),
        JSTokenV::ObjectKeysLength(a) => lit_key_count_open() + spec_render_addr(a) + lit_key_count_close(),
        JSTokenV::JSType(ty) => spec_jstype_text(ty),
        JSTokenV::EqEq => seq!['=' as u8, '=' as u8],
        JSTokenV::EqEqEq => seq!['=' as u8, '=' as u8, '=' as u8],
        JSTokenV::NotEq => seq!['!' as u8, '=' as u8],
        JSTokenV::NotEqEq => seq!['!' as u8, '=' as u8, '=' as u8],
        JSTokenV::In => seq![' ' as u8, 'i' as u8, 'n' as u8, ' ' as u8],
        JSTokenV::And => seq!['&' as u8, '&' as u8],
        JSTokenV::Or => seq!['|' as u8, '|' as u8],
        JSTokenV::LPar => seq!['(' as u8],
        JSTokenV::RPar => seq![')' as u8],
        JSTokenV::Typeof => seq!['t' as u8, 'y' as u8, 'p' as u8, 'e' as u8, 'o' as u8, 'f' as u8, ' ' as u8],
        JSTokenV::True => seq!['t' as u8, 'r' as u8, 'u' as u8, 'e' as u8],
        JSTokenV::False => seq!['f' as u8, 'a' as u8, 'l' as u8, 's' as u8, 'e' as u8],
        JSTokenV::Undefined => seq!['u' as u8, 'n' as u8, 'd' as u8, 'e' as u8, 'f' as u8, 'i' as u8, 'n' as u8, 'e' as u8, 'd' as u8],
        JSTokenV::Null => seq!['n' as u8, 'u' as u8, 'l' as u8, 'l' as u8],
        JSTokenV::Empty => seq![],
    }
}

/// The source text of a token sequence: plain concatenation.
pub open spec fn spec_render_tokens(ts: Seq<JSTokenV>) -> Seq<u8>
    decreases ts.len(),
{
    if ts.len() == 0 {
        seq![]
    } else {
        spec_render_token(ts[0]) + spec_render_tokens(ts.drop_first())
    }
}

fn is_index_segment(seg: &Vec<u8>) -> (r: bool)
    ensures
        r == spec_is_index_segment(seg@),
{
    if seg.len() == 0 {
        return false;
    }
    let mut i: usize = 0;
    while i < seg.len()
        invariant
            i <= seg@.len(),
            forall|k: int| 0 <= k < i ==> spec_is_digit(#[trigger] seg@[k]),
        decreases seg@.len() - i,
    {
        if !('0' as u8 <= seg[i] && seg[i] <= '9' as u8) {
            return false;
        }
        i += 1;
    }
    true
}

fn is_word_part_exec(b: u8) -> (r: bool)
    ensures
        r == spec_is_word_part(b),
{
    let alpha = ('A' as u8 <= b && b <= 'Z' as u8) || ('a' as u8 <= b && b <= 'z' as u8) || b
        == 170 || b == 181 || b == 186 || (192 <= b && b <= 214) || (216 <= b && b <= 246) || 248
        <= b;
    let digit = '0' as u8 <= b && b <= '9' as u8;
    alpha || digit || b == 178 || b == 179 || b == 185 || b == 188 || b == 189 || b == 190 || b
        == '_' as u8 || b == '$' as u8
}

fn is_ident_segment(seg: &Vec<u8>) -> (r: bool)
    ensures
        r == spec_is_ident_segment(seg@),
{
    if seg.len() == 0 {
        return false;
    }
    let b0 = seg[0];
    let start = (('A' as u8 <= b0 && b0 <= 'Z' as u8) || ('a' as u8 <= b0 && b0 <= 'z' as u8) || b0
        == 170 || b0 == 181 || b0 == 186 || (192 <= b0 && b0 <= 214) || (216 <= b0 && b0 <= 246)
        || 248 <= b0) || b0 == '_' as u8 || b0 == '$' as u8;
    if !start {
        return false;
    }
    let mut i: usize = 0;
    while i < seg.len()
        invariant
            i <= seg@.len(),
            forall|k: int| 0 <= k < i ==> spec_is_word_part(#[trigger] seg@[k]),
        decreases seg@.len() - i,
    {
        if !is_word_part_exec(seg[i]) {
            return false;
        }
        i += 1;
    }
    true
}

/// Writes a property path: the first segment bare, a numeric index in
/// brackets, a plain name after a dot, anything else as a quoted key.
pub fn addr_to_string(addr: &Addr) -> (r: Vec<u8>)
    ensures
        r@ == spec_render_addr(addr_view(addr@)),
{
    let ghost av = addr_view(addr@);
    let mut out: Vec<u8> = Vec::new();
    if addr.len() == 0 {
        proof {
            assert(out@ =~= spec_render_addr(av));
        }
        return out;
    }
    crate::lexer::append_bytes(&mut out, &addr[0]);
    proof {
        assert(out@ =~= av[0]);
    }
    let mut i: usize = 1;
    while i < addr.len()
        invariant
            1 <= i <= addr@.len(),
            av == addr_view(addr@),
            av.len() == addr@.len(),
            av.len() >= 1,
            out@ + spec_render_addr_rest(av, i as int) == spec_render_addr(av),
        decreases addr@.len() - i,
    {
        let ghost before = out@;
        let seg = &addr[i];
        proof {
            assert(av[i as int] == seg@);
        }
        if is_index_segment(seg) {
            out.push('[' as u8);
            crate::lexer::append_bytes(&mut out, seg);
            out.push(']' as u8);
            proof {
                assert(out@ =~= before + (lit_bracket_open() + seg@ + lit_bracket_close()));
            }
        } else if is_ident_segment(seg) {
            out.push('.' as u8);
            crate::lexer::append_bytes(&mut out, seg);
            proof {
                assert(out@ =~= before + (lit_dot() + seg@));
            }
        } else {
            out.push('[' as u8);
            out.push('"' as u8);
            let esc = escape_double_q(seg);
            crate::lexer::append_bytes(&mut out, &esc);
            out.push('"' as u8);
            out.push(']' as u8);
            proof {
                assert(out@ =~= before + (lit_quoted_key_open() + spec_escape_dq(seg@)
                    + lit_quoted_key_close()));
            }
        }
        proof {
            assert(out@ + spec_render_addr_rest(av, i + 1) =~= before + spec_render_addr_rest(
                av,
                i as int,
            ));
        }
        i += 1;
    }
    proof {
        assert(spec_render_addr_rest(av, av.len() as int) =~= Seq::<u8>::empty());
        assert(out@ + Seq::<u8>::empty() =~= out@);
    }
    out
}

fn render_token(t: &JSToken) -> (r: Vec<u8>)
    ensures
        r@ == spec_render_token(t@),
{
    match t {
        JSToken::StrLit(x) => {
            let mut out: Vec<u8> = vec!['"' as u8];
            let esc = escape_double_q(x);
            crate::lexer::append_bytes(&mut out, &esc);
            out.push('"' as u8);
            proof {
                assert(out@ =~= seq!['"' as u8] + spec_escape_dq(x@) + seq!['"' as u8]);
            }
            out
        },
        JSToken::Id(x) => crate::parsers::copy_bytes(x),
        JSToken::Addr(a) => addr_to_string(a),
        JSToken::Number(x) => crate::parsers::copy_bytes(x),
        JSToken::ArrayIsArray(a) => {
            let mut out = vec!['A' as u8, 'r' as u8, 'r' as u8, 'a' as u8, 'y' as u8, '.' as u8, 'i' as u8, 's' as u8, 'A' as u8, 'r' as u8, 'r' as u8, 'a' as u8, 'y' as u8, '(' as u8];
            proof {
                assert(out@ =~= lit_array_test_open());
            }
            let rendered = addr_to_string(a);
            crate::lexer::append_bytes(&mut out, &rendered);
            out.push(')' as u8);
            proof {
                assert(out@ =~= lit_array_test_open() + spec_render_addr(addr_view(a@))
                    + lit_close_paren());
            }
            out
        },
        JSToken::AddrLength(a) => {
            let mut out = addr_to_string(a);
            let tail = vec!['.' as u8, 'l' as u8, 'e' as u8, 'n' as u8, 'g' as u8, 't' as u8, 'h' as u8];
            proof {
                assert(tail@ =~= lit_dotlength());
            }
            crate::lexer::append_bytes(&mut out, &tail);
            out
        },
        JSToken::ObjectKeysLength(a) => {
            let mut out = vec!['O' as u8, 'b' as u8, 'j' as u8, 'e' as u8, 'c' as u8, 't' as u8, '.' as u8, 'k' as u8, 'e' as u8, 'y' as u8, 's' as u8, '(' as u8];
            proof {
                assert(out@ =~= lit_key_count_open());
            }
            let rendered = addr_to_string(a);
            crate::lexer::append_bytes(&mut out, &rendered);
            let tail = vec![')' as u8, '.' as u8, 'l' as u8, 'e' as u8, 'n' as u8, 'g' as u8, 't' as u8, 'h' as u8];
            proof {
                assert(tail@ =~= lit_key_count_close());
            }
            crate::lexer::append_bytes(&mut out, &tail);
            out
        },
        JSToken::JSType(ty) => {
            let out: Vec<u8> = match ty {
                JSType::Str => vec!['"' as u8, 's' as u8, 't' as u8, 'r' as u8, 'i' as u8, 'n' as u8, 'g' as u8, '"' as u8],
                JSType::Num => vec!['"' as u8, 'n' as u8, 'u' as u8, 'm' as u8, 'b' as u8, 'e' as u8, 'r' as u8, '"' as u8],
                JSType::Function => vec!['"' as u8, 'f' as u8, 'u' as u8, 'n' as u8, 'c' as u8, 't' as u8, 'i' as u8, 'o' as u8, 'n' as u8, '"' as u8],
                JSType::Boolean => vec!['"' as u8, 'b' as u8, 'o' as u8, 'o' as u8, 'l' as u8, 'e' as u8, 'a' as u8, 'n' as u8, '"' as u8],
                JSType::Object => vec!['"' as u8, 'o' as u8, 'b' as u8, 'j' as u8, 'e' as u8, 'c' as u8, 't' as u8, '"' as u8],
                JSType::Undefined => vec!['"' as u8, 'u' as u8, 'n' as u8, 'd' as u8, 'e' as u8, 'f' as u8, 'i' as u8, 'n' as u8, 'e' as u8, 'd' as u8, '"' as u8],
                JSType::Symbol => vec!['"' as u8, 's' as u8, 'y' as u8, 'm' as u8, 'b' as u8, 'o' as u8, 'l' as u8, '"' as u8],
                JSType::BigInt => vec!['"' as u8, 'b' as u8, 'i' as u8, 'g' as u8, 'i' as u8, 'n' as u8, 't' as u8, '"' as u8],
            };
            proof {
                assert(out@ =~= spec_jstype_text(*ty));
            }
            out
        },
        JSToken::EqEq => {
            let out: Vec<u8> = vec!['=' as u8, '=' as u8];
            proof {
                assert(out@ =~= spec_render_token(JSTokenV::EqEq));
            }
            out
        },
        JSToken::EqEqEq => {
            let out: Vec<u8> = vec!['=' as u8, '=' as u8, '=' as u8];
            proof {
                assert(out@ =~= spec_render_token(JSTokenV::EqEqEq));
            }
            out
        },
        JSToken::NotEq => {
            let out: Vec<u8> = vec!['!' as u8, '=' as u8];
            proof {
                assert(out@ =~= spec_render_token(JSTokenV::NotEq));
            }
            out
        },
        JSToken::NotEqEq => {
            let out: Vec<u8> = vec!['!' as u8, '=' as u8, '=' as u8];
            proof {
                assert(out@ =~= spec_render_token(JSTokenV::NotEqEq));
            }
            out
        },
        JSToken::In => {
            let out: Vec<u8> = vec![' ' as u8, 'i' as u8, 'n' as u8, ' ' as u8];
            proof {
                assert(out@ =~= spec_render_token(JSTokenV::In));
            }
            out
        },
        JSToken::And => {
            let out: Vec<u8> = vec!['&' as u8, '&' as u8];
            proof {
                assert(out@ =~= spec_render_token(JSTokenV::And));
            }
            out
        },
        JSToken::Or => {
            let out: Vec<u8> = vec!['|' as u8, '|' as u8];
            proof {
                assert(out@ =~= spec_render_token(JSTokenV::Or));
            }
            out
        },
        JSToken::LPar => {
            let out: Vec<u8> = vec!['(' as u8];
            proof {
                assert(out@ =~= spec_render_token(JSTokenV::LPar));
            }
            out
        },
        JSToken::RPar => {
            let out: Vec<u8> = vec![')' as u8];
            proof {
                assert(out@ =~= spec_render_token(JSTokenV::RPar));
            }
            out
        },
        JSToken::Typeof => {
            let out: Vec<u8> = vec!['t' as u8, 'y' as u8, 'p' as u8, 'e' as u8, 'o' as u8, 'f' as u8, ' ' as u8];
            proof {
                assert(out@ =~= spec_render_token(JSTokenV::Typeof));
            }
            out
        },
        JSToken::True => {
            let out: Vec<u8> = vec!['t' as u8, 'r' as u8, 'u' as u8, 'e' as u8];
            proof {
                assert(out@ =~= spec_render_token(JSTokenV::True));
            }
            out
        },
        JSToken::False => {
            let out: Vec<u8> = vec!['f' as u8, 'a' as u8, 'l' as u8, 's' as u8, 'e' as u8];
            proof {
                assert(out@ =~= spec_render_token(JSTokenV::False));
            }
            out
        },
        JSToken::Undefined => {
            let out: Vec<u8> = vec!['u' as u8, 'n' as u8, 'd' as u8, 'e' as u8, 'f' as u8, 'i' as u8, 'n' as u8, 'e' as u8, 'd' as u8];
            proof {
                assert(out@ =~= spec_render_token(JSTokenV::Undefined));
            }
            out
        },
        JSToken::Null => {
            let out: Vec<u8> = vec!['n' as u8, 'u' as u8, 'l' as u8, 'l' as u8];
            proof {
                assert(out@ =~= spec_render_token(JSTokenV::Null));
            }
            out
        },
        JSToken::Empty => {
            let out: Vec<u8> = Vec::new();
            proof {
                assert(out@ =~= spec_render_token(JSTokenV::Empty));
            }
            out
        },
    }
}

/// Renders a token sequence to source text by plain concatenation.
pub fn js_tokens_to_string(tokens: &Vec<JSToken>) -> (r: Vec<u8>)
    ensures
        r@ == spec_render_tokens(js_tokens_view(tokens@)),
{
    let ghost tv = js_tokens_view(tokens@);
    let mut out: Vec<u8> = Vec::new();
    let mut i: usize = 0;
    proof {
        assert(tv.skip(0) =~= tv);
        assert(out@ =~= Seq::<u8>::empty());
    }
    while i < tokens.len()
        invariant
            i <= tokens@.len(),
            tv == js_tokens_view(tokens@),
            tv.len() == tokens@.len(),
            out@ + spec_render_tokens(tv.skip(i as int)) == spec_render_tokens(tv),
        decreases tokens@.len() - i,
    {
        let ghost before = out@;
        proof {
            assert(tv.skip(i as int)[0] == tv[i as int]);
            assert(tv.skip(i as int).drop_first() =~= tv.skip(i + 1));
            assert(tv[i as int] == tokens@[i as int]@);
        }
        let piece = render_token(&tokens[i]);
        crate::lexer::append_bytes(&mut out, &piece);
        proof {
            assert(out@ + spec_render_tokens(tv.skip(i + 1)) =~= before + spec_render_tokens(
                tv.skip(i as int),
            ));
        }
        i += 1;
    }
    proof {
        assert(tv.skip(tokens@.len() as int) =~= Seq::<JSTokenV>::empty());
        assert(out@ + Seq::<u8>::empty() =~= out@);
    }
    out
}

/// Well-formed for code generation: every binary-connective node holds
/// exactly two children, as folding leaves them.
pub open spec fn spec_wf_value(v: ValueV) -> bool
    decreases size_val(v), 0nat,
{
    match v {
        ValueV::Atom(_) => true,
        ValueV::Entry(e) => ((e.key == KeyV::Or || e.key == KeyV::And) ==> e.children.len() == 2)
            && spec_wf_values(e.children),
    }
}

pub open spec fn spec_wf_values(s: Seq<ValueV>) -> bool
    decreases size_vals(s), 1nat via spec_wf_values_dec
{
    if s.len() == 0 {
        true
    } else {
        spec_wf_value(s[0]) && spec_wf_values(s.drop_first())
    }
}

#[via_fn]
proof fn spec_wf_values_dec(s: Seq<ValueV>) {
    if s.len() > 0 {
        crate::parsers::lemma_size_val_pos(s[0]);
        crate::parsers::lemma_size_vals_head(s);
    }
}

pub proof fn lemma_wf_values_index(s: Seq<ValueV>)
    ensures
        spec_wf_values(s) ==> forall|i: int|
            0 <= i < s.len() ==> spec_wf_value(#[trigger] s[i]),
    decreases s.len(),
{
    if s.len() > 0 {
        lemma_wf_values_index(s.drop_first());
        if spec_wf_values(s) {
            assert forall|i: int| 0 <= i < s.len() implies spec_wf_value(#[trigger] s[i]) by {
                if i > 0 {
                    assert(s.drop_first()[i - 1] == s[i]);
                }
            }
        }
    }
}

/// A whole tree well-formed for code generation.
pub open spec fn spec_wf_entry(e: EntryV) -> bool {
    spec_wf_values(e.children)
}

/// The `typeof <addr> === "<name>"` token form.
pub open spec fn spec_typeof_tokens(addr: Seq<Seq<u8>>, t: JSType) -> Seq<JSTokenV> {
    seq![JSTokenV::Typeof, JSTokenV::Addr(addr), JSTokenV::EqEqEq, JSTokenV::JSType(t)]
}

/// The expression tokens one tree value contributes, addressed at `addr`:
/// the token forms of the emission table, one row per node shape and one
/// per leaf atom.
pub open spec fn spec_to_js(v: ValueV, addr: Seq<Seq<u8>>) -> Seq<JSTokenV>
    decreases size_val(v), 0nat via spec_to_js_dec
{
    match v {
        ValueV::Entry(e) => match e.key {
            KeyV::Name(n) => seq![
                JSTokenV::And,
                JSTokenV::StrLit(n),
                JSTokenV::In,
                JSTokenV::Addr(addr),
                JSTokenV::And,
            ] + spec_to_js_concat(e.children, addr.push(n)),
            KeyV::Optional(n) => seq![
                JSTokenV::And,
                JSTokenV::LPar,
                JSTokenV::LPar,
                JSTokenV::StrLit(n),
                JSTokenV::In,
                JSTokenV::Addr(addr),
                JSTokenV::EqEqEq,
                JSTokenV::False,
                JSTokenV::RPar,
                JSTokenV::Or,
                JSTokenV::LPar,
                JSTokenV::StrLit(n),
                JSTokenV::In,
                JSTokenV::Addr(addr),
                JSTokenV::And,
            ] + spec_to_js_concat(e.children, addr.push(n)) + seq![JSTokenV::RPar, JSTokenV::RPar],
            KeyV::Generic(GenericV::Custom(_)) => seq![JSTokenV::Empty],
            KeyV::Generic(GenericV::Array) => seq![
                JSTokenV::LPar,
                JSTokenV::ArrayIsArray(addr),
                JSTokenV::And,
            ] + spec_to_js_concat(e.children, addr.push(spec_dec(0))) + seq![JSTokenV::RPar],
            KeyV::Or => {
                if e.children.len() == 2 {
                    seq![JSTokenV::LPar] + spec_to_js(e.children[0], addr) + seq![JSTokenV::Or]
                        + spec_to_js(e.children[1], addr) + seq![JSTokenV::RPar]
                } else {
                    seq![JSTokenV::Empty]
                }
            },
            KeyV::And => {
                if e.children.len() == 2 {
                    seq![JSTokenV::LPar] + spec_to_js(e.children[0], addr) + seq![JSTokenV::And]
                        + spec_to_js(e.children[1], addr) + seq![JSTokenV::RPar]
                } else {
                    seq![JSTokenV::Empty]
                }
            },
            KeyV::Anon => seq![
                JSTokenV::LPar,
                JSTokenV::Typeof,
                JSTokenV::Addr(addr),
                JSTokenV::EqEqEq,
                JSTokenV::JSType(JSType::Object),
                JSTokenV::And,
                JSTokenV::Addr(addr),
                JSTokenV::NotEqEq,
                JSTokenV::Null,
                JSTokenV::And,
                JSTokenV::ObjectKeysLength(addr),
                JSTokenV::EqEqEq,
                JSTokenV::Number(spec_dec(e.children.len())),
            ] + spec_to_js_concat(e.children, addr) + seq![JSTokenV::RPar],
            KeyV::Paren => spec_to_js_concat(e.children, addr),
            KeyV::Tuple => seq![
                JSTokenV::LPar,
                JSTokenV::ArrayIsArray(addr),
                JSTokenV::And,
                JSTokenV::AddrLength(addr),
                JSTokenV::EqEqEq,
                JSTokenV::Number(spec_dec(e.children.len())),
                JSTokenV::And,
            ] + spec_to_js_tuple(e.children, addr, 0) + seq![JSTokenV::RPar],
        },
        ValueV::Atom(t) => match t {
            TypeV::Num => spec_typeof_tokens(addr, JSType::Num),
            TypeV::Str => spec_typeof_tokens(addr, JSType::Str),
            TypeV::Object => spec_typeof_tokens(addr, JSType::Object),
            TypeV::Boolean => spec_typeof_tokens(addr, JSType::Boolean),
            TypeV::Undefined => spec_typeof_tokens(addr, JSType::Undefined),
            TypeV::Function => spec_typeof_tokens(addr, JSType::Function),
            TypeV::Symbol => spec_typeof_tokens(addr, JSType::Symbol),
            TypeV::BigInt => spec_typeof_tokens(addr, JSType::BigInt),
            TypeV::False => seq![JSTokenV::Addr(addr), JSTokenV::EqEqEq, JSTokenV::False],
            TypeV::True => seq![JSTokenV::Addr(addr), JSTokenV::EqEqEq, JSTokenV::True],
            TypeV::Null => seq![JSTokenV::Addr(addr), JSTokenV::EqEqEq, JSTokenV::Null],
            TypeV::Any => seq![JSTokenV::True],
            TypeV::Unknown => seq![JSTokenV::True],
            TypeV::StrLit(x) => seq![JSTokenV::Addr(addr), JSTokenV::EqEqEq, JSTokenV::StrLit(x)],
            TypeV::NumLit(x) => seq![JSTokenV::Addr(addr), JSTokenV::EqEqEq, JSTokenV::Number(x)],
            TypeV::Custom(_) => spec_typeof_tokens(addr, JSType::Object),
            TypeV::Oper(_) => seq![JSTokenV::Empty],
            TypeV::Punct(_) => seq![JSTokenV::Empty],
        },
    }
}

/// The concatenated tokens of a child sequence, all at one address.
pub open spec fn spec_to_js_concat(s: Seq<ValueV>, addr: Seq<Seq<u8>>) -> Seq<JSTokenV>
    decreases size_vals(s), 1nat via spec_to_js_concat_dec
{
    if s.len() == 0 {
        seq![]
    } else {
        spec_to_js(s[0], addr) + spec_to_js_concat(s.drop_first(), addr)
    }
}

/// The tokens of a tuple's elements, each at its own index address, with
/// a conjunction between every two elements.
pub open spec fn spec_to_js_tuple(s: Seq<ValueV>, addr: Seq<Seq<u8>>, idx: nat) -> Seq<JSTokenV>
    decreases size_vals(s), 1nat via spec_to_js_tuple_dec
{
    if s.len() == 0 {
        seq![]
    } else if s.len() == 1 {
        spec_to_js(s[0], addr.push(spec_dec(idx)))
    } else {
        spec_to_js(s[0], addr.push(spec_dec(idx))) + seq![JSTokenV::And] + spec_to_js_tuple(
            s.drop_first(),
            addr,
            idx + 1,
        )
    }
}

#[via_fn]
proof fn spec_to_js_dec(v: ValueV, addr: Seq<Seq<u8>>) {
    match v {
        ValueV::Entry(e) => {
            if (e.key == KeyV::Or || e.key == KeyV::And) && e.children.len() == 2 {
                crate::parsers::lemma_size_vals_index(e.children, 0);
                crate::parsers::lemma_size_vals_index(e.children, 1);
            }
        },
        ValueV::Atom(_) => {},
    }
}

#[via_fn]
proof fn spec_to_js_concat_dec(s: Seq<ValueV>, addr: Seq<Seq<u8>>) {
    if s.len() > 0 {
        crate::parsers::lemma_size_val_pos(s[0]);
        crate::parsers::lemma_size_vals_head(s);
    }
}

#[via_fn]
proof fn spec_to_js_tuple_dec(s: Seq<ValueV>, addr: Seq<Seq<u8>>, idx: nat) {
    if s.len() > 0 {
        crate::parsers::lemma_size_val_pos(s[0]);
        crate::parsers::lemma_size_vals_head(s);
    }
}

/// An exact copy of a property path.
pub fn copy_addr(a: &Addr) -> (r: Addr)
    ensures
        addr_view(r@) == addr_view(a@),
{
    let mut r: Addr = Vec::new();
    let mut i: usize = 0;
    while i < a.len()
        invariant
            i <= a@.len(),
            r@.len() == i,
            forall|k: int| 0 <= k < i ==> (#[trigger] r@[k])@ == a@[k]@,
        decreases a@.len() - i,
    {
        r.push(crate::parsers::copy_bytes(&a[i]));
        i += 1;
    }
    proof {
        assert(addr_view(r@) =~= addr_view(a@));
    }
    r
}

/// A property path extended by one segment.
fn addr_push(a: &Addr, seg: Vec<u8>) -> (r: Addr)
    ensures
        addr_view(r@) == addr_view(a@).push(seg@),
{
    let mut r = copy_addr(a);
    let ghost segv = seg@;
    r.push(seg);
    proof {
        assert(addr_view(r@) =~= addr_view(a@).push(segv));
    }
    r
}

/// The `typeof <addr> === "<name>"` comparison.
pub fn typeof_token(addr: &Addr, js_type: JSType) -> (r: Vec<JSToken>)
    ensures
        js_tokens_view(r@) == spec_typeof_tokens(addr_view(addr@), js_type),
{
    let r = vec![
        JSToken::Typeof,
        JSToken::Addr(copy_addr(addr)),
        JSToken::EqEqEq,
        JSToken::JSType(js_type),
    ];
    proof {
        assert(js_tokens_view(r@) =~= spec_typeof_tokens(addr_view(addr@), js_type));
    }
    r
}

/// A strict equality between two tokens.
pub fn strict_eq(left: JSToken, right: JSToken) -> (r: Vec<JSToken>)
    ensures
        js_tokens_view(r@) == seq![left@, JSTokenV::EqEqEq, right@],
{
    let ghost lv = left@;
    let ghost rv = right@;
    let r = vec![left, JSToken::EqEqEq, right];
    proof {
        assert(js_tokens_view(r@) =~= seq![lv, JSTokenV::EqEqEq, rv]);
    }
    r
}

/// A loose inequality between two tokens.
pub fn loose_not_eq(left: JSToken, right: JSToken) -> (r: Vec<JSToken>)
    ensures
        js_tokens_view(r@) == seq![left@, JSTokenV::NotEq, right@],
{
    let ghost lv = left@;
    let ghost rv = right@;
    let r = vec![left, JSToken::NotEq, right];
    proof {
        assert(js_tokens_view(r@) =~= seq![lv, JSTokenV::NotEq, rv]);
    }
    r
}

/// The expression tokens one tree value contributes, addressed at `addr`.
pub fn to_js_token(value: &Value, addr: &Addr) -> (r: Vec<JSToken>)
    requires
        spec_wf_value(value@),
    ensures
        js_tokens_view(r@) == spec_to_js(value@, addr_view(addr@)),
    decreases size_val(value@), 0nat,
{
    let ghost av = addr_view(addr@);
    match value {
        Value::Entry(e) => {
            proof {
                lemma_values_view(e.value@);
            }
            match &e.key {
                Key::Name(n) => {
                    let mut out = vec![
                        JSToken::And,
                        JSToken::StrLit(crate::parsers::copy_bytes(n)),
                        JSToken::In,
                        JSToken::Addr(copy_addr(addr)),
                        JSToken::And,
                    ];
                    let ghost hv = js_tokens_view(out@);
                    proof {
                        assert(hv =~= seq![
                            JSTokenV::And,
                            JSTokenV::StrLit(n@),
                            JSTokenV::In,
                            JSTokenV::Addr(av),
                            JSTokenV::And,
                        ]);
                    }
                    let new_addr = addr_push(addr, crate::parsers::copy_bytes(n));
                    let mut kids = to_js_concat(&e.value, &new_addr);
                    let ghost kv = js_tokens_view(kids@);
                    out.append(&mut kids);
                    proof {
                        assert(js_tokens_view(out@) =~= hv + kv);
                    }
                    out
                },
                Key::Optional(n) => {
                    let mut out = vec![
                        JSToken::And,
                        JSToken::LPar,
                        JSToken::LPar,
                        JSToken::StrLit(crate::parsers::copy_bytes(n)),
                        JSToken::In,
                        JSToken::Addr(copy_addr(addr)),
                        JSToken::EqEqEq,
                        JSToken::False,
                        JSToken::RPar,
                        JSToken::Or,
                        JSToken::LPar,
                        JSToken::StrLit(crate::parsers::copy_bytes(n)),
                        JSToken::In,
                        JSToken::Addr(copy_addr(addr)),
                        JSToken::And,
                    ];
                    let ghost hv = js_tokens_view(out@);
                    proof {
                        assert(hv =~= seq![
                            JSTokenV::And,
                            JSTokenV::LPar,
                            JSTokenV::LPar,
                            JSTokenV::StrLit(n@),
                            JSTokenV::In,
                            JSTokenV::Addr(av),
                            JSTokenV::EqEqEq,
                            JSTokenV::False,
                            JSTokenV::RPar,
                            JSTokenV::Or,
                            JSTokenV::LPar,
                            JSTokenV::StrLit(n@),
                            JSTokenV::In,
                            JSTokenV::Addr(av),
                            JSTokenV::And,
                        ]);
                    }
                    let new_addr = addr_push(addr, crate::parsers::copy_bytes(n));
                    let mut kids = to_js_concat(&e.value, &new_addr);
                    let ghost kv = js_tokens_view(kids@);
                    out.append(&mut kids);
                    let ghost mid = js_tokens_view(out@);
                    proof {
                        assert(mid =~= hv + kv);
                    }
                    out.push(JSToken::RPar);
                    out.push(JSToken::RPar);
                    proof {
                        assert(js_tokens_view(out@) =~= (hv + kv) + seq![
                            JSTokenV::RPar,
                            JSTokenV::RPar,
                        ]);
                    }
                    out
                },
                Key::Generic(Generic::Custom(_)) => {
                    let out = vec![JSToken::Empty];
                    proof {
                        assert(js_tokens_view(out@) =~= seq![JSTokenV::Empty]);
                    }
                    out
                },
                Key::Generic(Generic::Array) => {
                    let mut out = vec![
                        JSToken::LPar,
                        JSToken::ArrayIsArray(copy_addr(addr)),
                        JSToken::And,
                    ];
                    let ghost hv = js_tokens_view(out@);
                    proof {
                        assert(hv =~= seq![
                            JSTokenV::LPar,
                            JSTokenV::ArrayIsArray(av),
                            JSTokenV::And,
                        ]);
                    }
                    let new_addr = addr_push(addr, usize_to_dec(0));
                    let mut kids = to_js_concat(&e.value, &new_addr);
                    let ghost kv = js_tokens_view(kids@);
                    out.append(&mut kids);
                    let ghost mid = js_tokens_view(out@);
                    proof {
                        assert(mid =~= hv + kv);
                    }
                    out.push(JSToken::RPar);
                    proof {
                        assert(js_tokens_view(out@) =~= (hv + kv) + seq![JSTokenV::RPar]);
                    }
                    out
                },
                Key::Or | Key::And => {
                    let is_or = matches!(&e.key, Key::Or);
                    proof {
                        lemma_wf_values_index(values_view(e.value@));
                        crate::parsers::lemma_size_vals_index(values_view(e.value@), 0);
                        crate::parsers::lemma_size_vals_index(values_view(e.value@), 1);
                    }
                    let mut out = vec![JSToken::LPar];
                    let ghost hv = js_tokens_view(out@);
                    proof {
                        assert(hv =~= seq![JSTokenV::LPar]);
                    }
                    let mut l = to_js_token(&e.value[0], addr);
                    let ghost lv = js_tokens_view(l@);
                    out.append(&mut l);
                    let ghost s1 = js_tokens_view(out@);
                    proof {
                        assert(s1 =~= hv + lv);
                    }
                    if is_or {
                        out.push(JSToken::Or);
                    } else {
                        out.push(JSToken::And);
                    }
                    let ghost s2 = js_tokens_view(out@);
                    proof {
                        assert(s2 =~= s1 + seq![if is_or {
                            JSTokenV::Or
                        } else {
                            JSTokenV::And
                        }]);
                    }
                    let mut rr = to_js_token(&e.value[1], addr);
                    let ghost rv = js_tokens_view(rr@);
                    out.append(&mut rr);
                    let ghost s3 = js_tokens_view(out@);
                    proof {
                        assert(s3 =~= s2 + rv);
                    }
                    out.push(JSToken::RPar);
                    proof {
                        assert(js_tokens_view(out@) =~= s3 + seq![JSTokenV::RPar]);
                    }
                    out
                },
                Key::Anon => {
                    let mut out = vec![
                        JSToken::LPar,
                        JSToken::Typeof,
                        JSToken::Addr(copy_addr(addr)),
                        JSToken::EqEqEq,
                        JSToken::JSType(JSType::Object),
                        JSToken::And,
                        JSToken::Addr(copy_addr(addr)),
                        JSToken::NotEqEq,
                        JSToken::Null,
                        JSToken::And,
                        JSToken::ObjectKeysLength(copy_addr(addr)),
                        JSToken::EqEqEq,
                        JSToken::Number(usize_to_dec(e.value.len())),
                    ];
                    let ghost hv = js_tokens_view(out@);
                    proof {
                        assert(hv =~= seq![
                            JSTokenV::LPar,
                            JSTokenV::Typeof,
                            JSTokenV::Addr(av),
                            JSTokenV::EqEqEq,
                            JSTokenV::JSType(JSType::Object),
                            JSTokenV::And,
                            JSTokenV::Addr(av),
                            JSTokenV::NotEqEq,
                            JSTokenV::Null,
                            JSTokenV::And,
                            JSTokenV::ObjectKeysLength(av),
                            JSTokenV::EqEqEq,
                            JSTokenV::Number(spec_dec(values_view(e.value@).len())),
                        ]);
                    }
                    let mut kids = to_js_concat(&e.value, addr);
                    let ghost kv = js_tokens_view(kids@);
                    out.append(&mut kids);
                    let ghost mid = js_tokens_view(out@);
                    proof {
                        assert(mid =~= hv + kv);
                    }
                    out.push(JSToken::RPar);
                    proof {
                        assert(js_tokens_view(out@) =~= (hv + kv) + seq![JSTokenV::RPar]);
                    }
                    out
                },
                Key::Paren => to_js_concat(&e.value, addr),
                Key::Tuple => {
                    let mut out = vec![
                        JSToken::LPar,
                        JSToken::ArrayIsArray(copy_addr(addr)),
                        JSToken::And,
                        JSToken::AddrLength(copy_addr(addr)),
                        JSToken::EqEqEq,
                        JSToken::Number(usize_to_dec(e.value.len())),
                        JSToken::And,
                    ];
                    let ghost hv = js_tokens_view(out@);
                    proof {
                        assert(hv =~= seq![
                            JSTokenV::LPar,
                            JSTokenV::ArrayIsArray(av),
                            JSTokenV::And,
                            JSTokenV::AddrLength(av),
                            JSTokenV::EqEqEq,
                            JSTokenV::Number(spec_dec(values_view(e.value@).len())),
                            JSTokenV::And,
                        ]);
                    }
                    let mut kids = to_js_tuple(&e.value, addr, 0);
                    let ghost kv = js_tokens_view(kids@);
                    out.append(&mut kids);
                    let ghost mid = js_tokens_view(out@);
                    proof {
                        assert(mid =~= hv + kv);
                    }
                    out.push(JSToken::RPar);
                    proof {
                        assert(js_tokens_view(out@) =~= (hv + kv) + seq![JSTokenV::RPar]);
                    }
                    out
                },
            }
        },
        Value::Type(t) => {
            match t {
                Type::Num => typeof_token(addr, JSType::Num),
                Type::Str => typeof_token(addr, JSType::Str),
                Type::Object => typeof_token(addr, JSType::Object),
                Type::Boolean => typeof_token(addr, JSType::Boolean),
                Type::Undefined => typeof_token(addr, JSType::Undefined),
                Type::Function => typeof_token(addr, JSType::Function),
                Type::Symbol => typeof_token(addr, JSType::Symbol),
                Type::BigInt => typeof_token(addr, JSType::BigInt),
                Type::False => strict_eq(JSToken::Addr(copy_addr(addr)), JSToken::False),
                Type::True => strict_eq(JSToken::Addr(copy_addr(addr)), JSToken::True),
                Type::Null => strict_eq(JSToken::Addr(copy_addr(addr)), JSToken::Null),
                Type::Any => {
                    let out = vec![JSToken::True];
                    proof {
                        assert(js_tokens_view(out@) =~= seq![JSTokenV::True]);
                    }
                    out
                },
                Type::Unknown => {
                    let out = vec![JSToken::True];
                    proof {
                        assert(js_tokens_view(out@) =~= seq![JSTokenV::True]);
                    }
                    out
                },
                Type::StrLit(x) => strict_eq(
                    JSToken::Addr(copy_addr(addr)),
                    JSToken::StrLit(crate::parsers::copy_bytes(x)),
                ),
                Type::NumLit(x) => strict_eq(
                    JSToken::Addr(copy_addr(addr)),
                    JSToken::Number(crate::parsers::copy_bytes(x)),
                ),
                Type::Custom(_) => typeof_token(addr, JSType::Object),
                Type::Oper(_) => {
                    let out = vec![JSToken::Empty];
                    proof {
                        assert(js_tokens_view(out@) =~= seq![JSTokenV::Empty]);
                    }
                    out
                },
                Type::Punct(_) => {
                    let out = vec![JSToken::Empty];
                    proof {
                        assert(js_tokens_view(out@) =~= seq![JSTokenV::Empty]);
                    }
                    out
                },
            }
        },
    }
}

/// The concatenated tokens of a child sequence, all at one address.
fn to_js_concat(vs: &Vec<Value>, addr: &Addr) -> (r: Vec<JSToken>)
    requires
        spec_wf_values(values_view(vs@)),
    ensures
        js_tokens_view(r@) == spec_to_js_concat(values_view(vs@), addr_view(addr@)),
    decreases size_vals(values_view(vs@)), 1nat,
{
    let ghost sv = values_view(vs@);
    let ghost av = addr_view(addr@);
    proof {
        lemma_values_view(vs@);
        lemma_wf_values_index(sv);
    }
    let mut out: Vec<JSToken> = Vec::new();
    let mut i: usize = 0;
    proof {
        assert(js_tokens_view(out@) =~= Seq::<JSTokenV>::empty());
        assert(sv.skip(0) =~= sv);
    }
    while i < vs.len()
        invariant
            i <= vs@.len(),
            sv == values_view(vs@),
            av == addr_view(addr@),
            sv.len() == vs@.len(),
            forall|k: int| 0 <= k < vs@.len() ==> sv[k] == value_view(vs@[k]),
            forall|k: int| 0 <= k < vs@.len() ==> spec_wf_value(#[trigger] sv[k]),
            js_tokens_view(out@) + spec_to_js_concat(sv.skip(i as int), av) == spec_to_js_concat(
                sv,
                av,
            ),
        decreases vs@.len() - i,
    {
        let ghost before = js_tokens_view(out@);
        proof {
            assert(sv.skip(i as int)[0] == sv[i as int]);
            assert(sv.skip(i as int).drop_first() =~= sv.skip(i + 1));
            crate::parsers::lemma_size_vals_index(sv, i as int);
            crate::parsers::lemma_size_vals_subrange(sv, i as int, sv.len() as int);
            assert(sv.skip(i as int) =~= sv.subrange(i as int, sv.len() as int));
        }
        let mut piece = to_js_token(&vs[i], addr);
        let ghost pv = js_tokens_view(piece@);
        out.append(&mut piece);
        proof {
            assert(js_tokens_view(out@) =~= before + pv);
            assert(js_tokens_view(out@) + spec_to_js_concat(sv.skip(i + 1), av) =~= before
                + spec_to_js_concat(sv.skip(i as int), av));
        }
        i += 1;
    }
    proof {
        assert(sv.skip(vs@.len() as int) =~= Seq::<ValueV>::empty());
        assert(js_tokens_view(out@) + Seq::<JSTokenV>::empty() =~= js_tokens_view(out@));
    }
    out
}

/// The tokens of a tuple's elements, conjunctions between them.
fn to_js_tuple(vs: &Vec<Value>, addr: &Addr, first_idx: usize) -> (r: Vec<JSToken>)
    requires
        spec_wf_values(values_view(vs@)),
        first_idx + vs@.len() <= usize::MAX,
    ensures
        js_tokens_view(r@) == spec_to_js_tuple(
            values_view(vs@),
            addr_view(addr@),
            first_idx as nat,
        ),
    decreases size_vals(values_view(vs@)), 1nat,
{
    let ghost sv = values_view(vs@);
    let ghost av = addr_view(addr@);
    proof {
        lemma_values_view(vs@);
        lemma_wf_values_index(sv);
    }
    let mut out: Vec<JSToken> = Vec::new();
    let mut i: usize = 0;
    proof {
        assert(sv.skip(0) =~= sv);
        assert(js_tokens_view(out@) =~= Seq::<JSTokenV>::empty());
        assert(Seq::<JSTokenV>::empty() + spec_to_js_tuple(sv, av, first_idx as nat)
            =~= spec_to_js_tuple(sv, av, first_idx as nat));
    }
    while i < vs.len()
        invariant
            i <= vs@.len(),
            sv == values_view(vs@),
            av == addr_view(addr@),
            sv.len() == vs@.len(),
            first_idx + vs@.len() <= usize::MAX,
            forall|k: int| 0 <= k < vs@.len() ==> sv[k] == value_view(vs@[k]),
            forall|k: int| 0 <= k < vs@.len() ==> spec_wf_value(#[trigger] sv[k]),
            js_tokens_view(out@) + spec_to_js_tuple(sv.skip(i as int), av, (first_idx + i) as nat)
                == spec_to_js_tuple(sv, av, first_idx as nat),
        decreases vs@.len() - i,
    {
        let ghost before = js_tokens_view(out@);
        proof {
            assert(sv.skip(i as int)[0] == sv[i as int]);
            assert(sv.skip(i as int).drop_first() =~= sv.skip(i + 1));
            crate::parsers::lemma_size_vals_index(sv, i as int);
            crate::parsers::lemma_size_vals_subrange(sv, i as int, sv.len() as int);
            assert(sv.skip(i as int) =~= sv.subrange(i as int, sv.len() as int));
        }
        let item_addr = addr_push(addr, usize_to_dec(first_idx + i));
        let mut piece = to_js_token(&vs[i], &item_addr);
        let ghost pv = js_tokens_view(piece@);
        out.append(&mut piece);
        let ghost mid = js_tokens_view(out@);
        proof {
            assert(mid =~= before + pv);
        }
        if i + 1 < vs.len() {
            out.push(JSToken::And);
            proof {
                assert(js_tokens_view(out@) =~= mid + seq![JSTokenV::And]);
            }
        }
        proof {
            assert(js_tokens_view(out@) + spec_to_js_tuple(sv.skip(i + 1), av, (first_idx + i
                + 1) as nat) =~= before + spec_to_js_tuple(
                sv.skip(i as int),
                av,
                (first_idx + i) as nat,
            ));
        }
        i += 1;
    }
    proof {
        assert(sv.skip(vs@.len() as int) =~= Seq::<ValueV>::empty());
        assert(js_tokens_view(out@) + Seq::<JSTokenV>::empty() =~= js_tokens_view(out@));
    }
    out
}
/// The fixed text `typeof o==="object"&&o!==null&&Object.keys(o).length===`.
pub open spec fn lit_root_check() -> Seq<u8> {
    seq!['t' as u8, 'y' as u8, 'p' as u8, 'e' as u8, 'o' as u8, 'f' as u8, ' ' as u8, 'o' as u8, '=' as u8, '=' as u8, '=' as u8, '"' as u8, 'o' as u8, 'b' as u8, 'j' as u8, 'e' as u8, 'c' as u8, 't' as u8, '"' as u8, '&' as u8, '&' as u8, 'o' as u8, '!' as u8, '=' as u8, '=' as u8, 'n' as u8, 'u' as u8, 'l' as u8, 'l' as u8, '&' as u8, '&' as u8, 'O' as u8, 'b' as u8, 'j' as u8, 'e' as u8, 'c' as u8, 't' as u8, '.' as u8, 'k' as u8, 'e' as u8, 'y' as u8, 's' as u8, '(' as u8, 'o' as u8, ')' as u8, '.' as u8, 'l' as u8, 'e' as u8, 'n' as u8, 'g' as u8, 't' as u8, 'h' as u8, '=' as u8, '=' as u8, '=' as u8]
}

/// The fixed text `export function is`.
pub open spec fn lit_export_fn_is() -> Seq<u8> {
    seq!['e' as u8, 'x' as u8, 'p' as u8, 'o' as u8, 'r' as u8, 't' as u8, ' ' as u8, 'f' as u8, 'u' as u8, 'n' as u8, 'c' as u8, 't' as u8, 'i' as u8, 'o' as u8, 'n' as u8, ' ' as u8, 'i' as u8, 's' as u8]
}

/// The fixed text `(o){return(`.
pub open spec fn lit_js_params() -> Seq<u8> {
    seq!['(' as u8, 'o' as u8, ')' as u8, '{' as u8, 'r' as u8, 'e' as u8, 't' as u8, 'u' as u8, 'r' as u8, 'n' as u8, '(' as u8]
}

/// The fixed text `(o: unknown): o is `.
pub open spec fn lit_ts_params_a() -> Seq<u8> {
    seq!['(' as u8, 'o' as u8, ':' as u8, ' ' as u8, 'u' as u8, 'n' as u8, 'k' as u8, 'n' as u8, 'o' as u8, 'w' as u8, 'n' as u8, ')' as u8, ':' as u8, ' ' as u8, 'o' as u8, ' ' as u8, 'i' as u8, 's' as u8, ' ' as u8]
}

/// The fixed text `{return(`.
pub open spec fn lit_ts_params_b() -> Seq<u8> {
    seq!['{' as u8, 'r' as u8, 'e' as u8, 't' as u8, 'u' as u8, 'r' as u8, 'n' as u8, '(' as u8]
}

/// The fixed text `)}`.
pub open spec fn lit_close_fn() -> Seq<u8> {
    seq![')' as u8, '}' as u8]
}

pub proof fn lemma_render_concat(a: Seq<JSTokenV>, b: Seq<JSTokenV>)
    ensures
        spec_render_tokens(a + b) == spec_render_tokens(a) + spec_render_tokens(b),
    decreases a.len(),
{
    if a.len() == 0 {
        assert(a + b =~= b);
        assert(spec_render_tokens(a) =~= Seq::<u8>::empty());
        assert(Seq::<u8>::empty() + spec_render_tokens(b) =~= spec_render_tokens(b));
    } else {
        assert((a + b).drop_first() =~= a.drop_first() + b);
        lemma_render_concat(a.drop_first(), b);
        assert(spec_render_token((a + b)[0]) + (spec_render_tokens(a.drop_first())
            + spec_render_tokens(b)) =~= (spec_render_token(a[0]) + spec_render_tokens(
            a.drop_first(),
        )) + spec_render_tokens(b));
    }
}

/// The root guard text of one declared type: the object shape checks on
/// the parameter itself, the own-key count, then the field checks.
pub open spec fn spec_return_body(n: nat, checks: Seq<u8>) -> Seq<u8> {
    lit_root_check() + spec_dec(n) + checks
}

/// The full function text a declared type yields, in the flavour the
/// target mode selects; the declaration-only mode has no function form
/// and is refused before this point.
pub open spec fn spec_function_dec(name: Seq<u8>, body: Seq<u8>, ext: Extension) -> Seq<u8> {
    match ext {
        Extension::JS => lit_export_fn_is() + name + lit_js_params() + body + lit_close_fn(),
        Extension::TS | Extension::DTS => lit_export_fn_is() + name + lit_ts_params_a() + name
            + lit_ts_params_b() + body + lit_close_fn(),
    }
}

/// The root address: the guard function's parameter.
pub open spec fn spec_root_addr() -> Seq<Seq<u8>> {
    seq![seq!['o' as u8]]
}

/// One declared type's emitted text, a line feed after it.
pub open spec fn spec_emit_one(t: EntryV, ext: Extension) -> Seq<u8> {
    spec_function_dec(
        spec_name_of(t),
        spec_return_body(
            t.children.len(),
            spec_render_tokens(spec_to_js_concat(t.children, spec_root_addr())),
        ),
        ext,
    ) + seq!['\n' as u8]
}

/// All declared types' emitted text, one blank line between functions.
pub open spec fn spec_emit_all(ts: Seq<EntryV>, ext: Extension) -> Seq<u8>
    decreases ts.len(),
{
    if ts.len() == 0 {
        Seq::<u8>::empty()
    } else if ts.len() == 1 {
        spec_emit_one(ts[0], ext)
    } else {
        spec_emit_one(ts[0], ext) + seq!['\n' as u8] + spec_emit_all(ts.drop_first(), ext)
    }
}

/// Every tree well-formed for code generation.
pub open spec fn spec_wf_entries(ts: Seq<EntryV>) -> bool {
    forall|i: int| 0 <= i < ts.len() ==> spec_wf_entry(#[trigger] ts[i])
}

/// The whole back end: refuses the declaration-only target, a tree with
/// no declared name, and a malformed connective node; otherwise emits one
/// exported guard function per declared type, in order, each followed by
/// a blank line.
pub open spec fn spec_generate(ts: Seq<EntryV>, ext: Extension) -> Result<Seq<u8>, CompileError> {
    if ext == Extension::DTS {
        Err(CompileError::AnnotatedOnlyTarget)
    } else if !all_named(ts) {
        Err(CompileError::UnnamedDeclaration)
    } else if !spec_wf_entries(ts) {
        Err(CompileError::MalformedConnective)
    } else {
        Ok(spec_emit_all(ts, ext))
    }
}

fn wf_value_check(v: &Value) -> (r: bool)
    ensures
        r == spec_wf_value(v@),
    decreases size_val(v@), 0nat,
{
    match v {
        Value::Type(_) => true,
        Value::Entry(e) => {
            proof {
                lemma_values_view(e.value@);
            }
            let conn = matches!(&e.key, Key::Or) || matches!(&e.key, Key::And);
            if conn && e.value.len() != 2 {
                return false;
            }
            wf_values_check(&e.value)
        },
    }
}

fn wf_values_check(vs: &Vec<Value>) -> (r: bool)
    ensures
        r == spec_wf_values(values_view(vs@)),
    decreases size_vals(values_view(vs@)), 1nat,
{
    let ghost sv = values_view(vs@);
    proof {
        lemma_values_view(vs@);
    }
    let mut i: usize = 0;
    proof {
        assert(sv.skip(0) =~= sv);
    }
    while i < vs.len()
        invariant
            i <= vs@.len(),
            sv == values_view(vs@),
            sv.len() == vs@.len(),
            forall|k: int| 0 <= k < vs@.len() ==> sv[k] == value_view(vs@[k]),
            spec_wf_values(sv) == spec_wf_values(sv.skip(i as int)),
        decreases vs@.len() - i,
    {
        proof {
            assert(sv.skip(i as int)[0] == sv[i as int]);
            assert(sv.skip(i as int).drop_first() =~= sv.skip(i + 1));
            crate::parsers::lemma_size_vals_index(sv, i as int);
            crate::parsers::lemma_size_vals_subrange(sv, i as int, sv.len() as int);
            assert(sv.skip(i as int) =~= sv.subrange(i as int, sv.len() as int));
        }
        if !wf_value_check(&vs[i]) {
            return false;
        }
        i += 1;
    }
    proof {
        assert(sv.skip(vs@.len() as int) =~= Seq::<ValueV>::empty());
    }
    true
}

/// Writes the root guard text of one declared type.
pub fn return_body(entries_len: usize, checks: Vec<u8>) -> (r: Vec<u8>)
    ensures
        r@ == spec_return_body(entries_len as nat, checks@),
{
    let mut out: Vec<u8> = vec!['t' as u8, 'y' as u8, 'p' as u8, 'e' as u8, 'o' as u8, 'f' as u8, ' ' as u8, 'o' as u8, '=' as u8, '=' as u8, '=' as u8, '"' as u8, 'o' as u8, 'b' as u8, 'j' as u8, 'e' as u8, 'c' as u8, 't' as u8, '"' as u8, '&' as u8, '&' as u8, 'o' as u8, '!' as u8, '=' as u8, '=' as u8, 'n' as u8, 'u' as u8, 'l' as u8, 'l' as u8, '&' as u8, '&' as u8, 'O' as u8, 'b' as u8, 'j' as u8, 'e' as u8, 'c' as u8, 't' as u8, '.' as u8, 'k' as u8, 'e' as u8, 'y' as u8, 's' as u8, '(' as u8, 'o' as u8, ')' as u8, '.' as u8, 'l' as u8, 'e' as u8, 'n' as u8, 'g' as u8, 't' as u8, 'h' as u8, '=' as u8, '=' as u8, '=' as u8];
    proof {
        assert(out@ =~= lit_root_check());
    }
    let num = usize_to_dec(entries_len);
    crate::lexer::append_bytes(&mut out, &num);
    crate::lexer::append_bytes(&mut out, &checks);
    out
}

/// Writes the full function text of one declared type.
pub fn function_dec(name: &Vec<u8>, body: Vec<u8>, extension: Extension) -> (r: Vec<u8>)
    ensures
        r@ == spec_function_dec(name@, body@, extension),
{
    let mut out: Vec<u8> = vec!['e' as u8, 'x' as u8, 'p' as u8, 'o' as u8, 'r' as u8, 't' as u8, ' ' as u8, 'f' as u8, 'u' as u8, 'n' as u8, 'c' as u8, 't' as u8, 'i' as u8, 'o' as u8, 'n' as u8, ' ' as u8, 'i' as u8, 's' as u8];
    proof {
        assert(out@ =~= lit_export_fn_is());
    }
    crate::lexer::append_bytes(&mut out, name);
    match extension {
        Extension::JS => {
            let params = vec!['(' as u8, 'o' as u8, ')' as u8, '{' as u8, 'r' as u8, 'e' as u8, 't' as u8, 'u' as u8, 'r' as u8, 'n' as u8, '(' as u8];
            proof {
                assert(params@ =~= lit_js_params());
            }
            crate::lexer::append_bytes(&mut out, &params);
        },
        Extension::TS | Extension::DTS => {
            let pa = vec!['(' as u8, 'o' as u8, ':' as u8, ' ' as u8, 'u' as u8, 'n' as u8, 'k' as u8, 'n' as u8, 'o' as u8, 'w' as u8, 'n' as u8, ')' as u8, ':' as u8, ' ' as u8, 'o' as u8, ' ' as u8, 'i' as u8, 's' as u8, ' ' as u8];
            proof {
                assert(pa@ =~= lit_ts_params_a());
            }
            crate::lexer::append_bytes(&mut out, &pa);
            crate::lexer::append_bytes(&mut out, name);
            let pb = vec!['{' as u8, 'r' as u8, 'e' as u8, 't' as u8, 'u' as u8, 'r' as u8, 'n' as u8, '(' as u8];
            proof {
                assert(pb@ =~= lit_ts_params_b());
            }
            crate::lexer::append_bytes(&mut out, &pb);
        },
    }
    crate::lexer::append_bytes(&mut out, &body);
    let close = vec![')' as u8, '}' as u8];
    proof {
        assert(close@ =~= lit_close_fn());
    }
    crate::lexer::append_bytes(&mut out, &close);
    out
}

/// Emits one exported guard function per declared type, in order, each
/// followed by a blank line. Fails on the declaration-only target, on a
/// tree with no declared name, and on a malformed connective node.
pub fn interfaces_to_js_string(interfaces: &Vec<Entry>, extension: Extension) -> (r: Result<
    Vec<u8>,
    CompileError,
>)
    ensures
        match r {
            Ok(text) => spec_generate(entries_view(interfaces@), extension) == Ok::<
                _,
                CompileError,
            >(text@),
            Err(e) => spec_generate(entries_view(interfaces@), extension) == Err::<Seq<u8>, _>(e),
        },
{
    let ghost ev = entries_view(interfaces@);
    proof {
        lemma_entries_view(interfaces@);
    }
    if matches!(extension, Extension::DTS) {
        return Err(CompileError::AnnotatedOnlyTarget);
    }
    proof {
        assert(extension != Extension::DTS);
    }
    let mut q: usize = 0;
    while q < interfaces.len()
        invariant
            q <= interfaces@.len(),
            ev == entries_view(interfaces@),
            ev.len() == interfaces@.len(),
            extension != Extension::DTS,
            forall|k: int| 0 <= k < interfaces@.len() ==> ev[k] == entry_view(interfaces@[k]),
            forall|k: int| 0 <= k < q ==> (#[trigger] ev[k]).key matches KeyV::Name(_),
        decreases interfaces@.len() - q,
    {
        if !matches!(&interfaces[q].key, Key::Name(_)) {
            proof {
                assert(!(ev[q as int].key matches KeyV::Name(_)));
                assert(!all_named(ev));
            }
            return Err(CompileError::UnnamedDeclaration);
        }
        q += 1;
    }
    proof {
        assert(all_named(ev));
    }
    let mut w: usize = 0;
    while w < interfaces.len()
        invariant
            w <= interfaces@.len(),
            ev == entries_view(interfaces@),
            ev.len() == interfaces@.len(),
            extension != Extension::DTS,
            all_named(ev),
            forall|k: int| 0 <= k < interfaces@.len() ==> ev[k] == entry_view(interfaces@[k]),
            forall|k: int| 0 <= k < w ==> spec_wf_entry(#[trigger] ev[k]),
        decreases interfaces@.len() - w,
    {
        if !wf_values_check(&interfaces[w].value) {
            proof {
                assert(!spec_wf_entry(ev[w as int]));
                assert(!spec_wf_entries(ev));
            }
            return Err(CompileError::MalformedConnective);
        }
        w += 1;
    }
    proof {
        assert(spec_wf_entries(ev));
    }
    let mut out: Vec<u8> = Vec::new();
    let mut i: usize = 0;
    proof {
        assert(out@ =~= Seq::<u8>::empty());
        assert(ev.skip(0) =~= ev);
        assert(Seq::<u8>::empty() + spec_emit_all(ev.skip(0), extension) =~= spec_emit_all(
            ev,
            extension,
        ));
    }
    while i < interfaces.len()
        invariant
            i <= interfaces@.len(),
            ev == entries_view(interfaces@),
            ev.len() == interfaces@.len(),
            forall|k: int| 0 <= k < interfaces@.len() ==> ev[k] == entry_view(interfaces@[k]),
            forall|k: int| 0 <= k < interfaces@.len() ==> (#[trigger] ev[k]).key matches
                KeyV::Name(_),
            forall|k: int| 0 <= k < interfaces@.len() ==> spec_wf_entry(#[trigger] ev[k]),
            !(extension matches Extension::DTS),
            out@ + spec_emit_all(ev.skip(i as int), extension) == spec_emit_all(ev, extension),
        decreases interfaces@.len() - i,
    {
        let ghost before = out@;
        let ghost cur = ev.skip(i as int);
        proof {
            assert(cur[0] == ev[i as int]);
            assert(cur.drop_first() =~= ev.skip(i + 1));
        }
        let iface = &interfaces[i];
        let name = match &iface.key {
            Key::Name(nm) => crate::parsers::copy_bytes(nm),
            _ => {
                proof {
                    assert(false);
                }
                Vec::new()
            },
        };
        // the field checks, every child addressed from the parameter
        let mut checks: Vec<u8> = Vec::new();
        let root: Addr = vec![vec!['o' as u8]];
        proof {
            assert(root@.len() == 1 && root@[0]@ == seq!['o' as u8]);
            assert(addr_view(root@) =~= spec_root_addr());
            lemma_values_view(iface.value@);
            assert(checks@ =~= Seq::<u8>::empty());
            assert(values_view(iface.value@).skip(0) =~= values_view(iface.value@));
        }
        let ghost kids = values_view(iface.value@);
        proof {
            lemma_wf_values_index(kids);
        }
        let mut c: usize = 0;
        while c < iface.value.len()
            invariant
                c <= iface.value@.len(),
                kids == values_view(iface.value@),
                kids.len() == iface.value@.len(),
                forall|k: int| 0 <= k < iface.value@.len() ==> kids[k] == value_view(
                    iface.value@[k],
                ),
                forall|k: int| 0 <= k < kids.len() ==> spec_wf_value(#[trigger] kids[k]),
                addr_view(root@) == spec_root_addr(),
                checks@ + spec_render_tokens(spec_to_js_concat(kids.skip(c as int), spec_root_addr()))
                    == spec_render_tokens(spec_to_js_concat(kids, spec_root_addr())),
            decreases iface.value@.len() - c,
        {
            let ghost cb = checks@;
            proof {
                assert(kids.skip(c as int)[0] == kids[c as int]);
                assert(kids.skip(c as int).drop_first() =~= kids.skip(c + 1));
            }
            let toks = to_js_token(&iface.value[c], &root);
            let piece = js_tokens_to_string(&toks);
            crate::lexer::append_bytes(&mut checks, &piece);
            proof {
                lemma_render_concat(
                    spec_to_js(kids[c as int], spec_root_addr()),
                    spec_to_js_concat(kids.skip(c + 1), spec_root_addr()),
                );
                assert(checks@ + spec_render_tokens(spec_to_js_concat(kids.skip(c + 1), spec_root_addr()))
                    =~= cb + spec_render_tokens(spec_to_js_concat(kids.skip(c as int), spec_root_addr())));
            }
            c += 1;
        }
        proof {
            assert(kids.skip(iface.value@.len() as int) =~= Seq::<ValueV>::empty());
            assert(spec_render_tokens(spec_to_js_concat(
                Seq::<ValueV>::empty(),
                spec_root_addr(),
            )) =~= Seq::<u8>::empty());
            assert(checks@ + Seq::<u8>::empty() =~= checks@);
        }
        let body = return_body(iface.value.len(), checks);
        let func = function_dec(&name, body, extension);
        crate::lexer::append_bytes(&mut out, &func);
        out.push('\n' as u8);
        if i + 1 < interfaces.len() {
            out.push('\n' as u8);
            proof {
                assert(out@ =~= before + (spec_emit_one(cur[0], extension) + seq!['\n' as u8]));
            }
        } else {
            proof {
                assert(cur.len() == 1);
                assert(out@ =~= before + spec_emit_one(cur[0], extension));
            }
        }
        proof {
            assert(out@ + spec_emit_all(ev.skip(i + 1), extension) =~= before + spec_emit_all(
                cur,
                extension,
            ));
        }
        i += 1;
    }
    proof {
        assert(ev.skip(interfaces@.len() as int) =~= Seq::<EntryV>::empty());
        assert(out@ + Seq::<u8>::empty() =~= out@);
    }
    Ok(out)
}

/// Escaping touches nothing in text made of identifier bytes: none of
/// them is a double quote.
pub proof fn lemma_escape_ident(f: Seq<u8>, prev: u8)
    requires
        forall|i: int| 0 <= i < f.len() ==> spec_is_word_part(#[trigger] f[i]),
    ensures
        spec_escape_dq_from(f, prev) == f,
    decreases f.len(),
{
    if f.len() > 0 {
        assert(f[0] != '"' as u8);
        lemma_escape_ident(f.drop_first(), f[0]);
        assert(seq![f[0]] + f.drop_first() =~= f);
    } else {
        assert(spec_escape_dq_from(f, prev) =~= f);
    }
}

/// The single-field guard text law: for every declared name and every
/// identifier-shaped field name, the whole back end emits, for the tree
/// of `interface I { f: number; }`, exactly the text of the emission
/// table with the two names spliced in.
#[verifier::rlimit(80)]
#[verifier::spinoff_prover]
pub proof fn lemma_single_field_exact_text(iname: Seq<u8>, f: Seq<u8>)
    requires
        spec_is_ident_segment(f),
    ensures
        spec_generate(
            seq![
                EntryV {
                    key: KeyV::Name(iname),
                    children: seq![
                        ValueV::Entry(
                            EntryV {
                                key: KeyV::Name(f),
                                children: seq![ValueV::Atom(TypeV::Num)],
                            },
                        ),
                    ],
                },
            ],
            Extension::JS,
        ) == Ok::<_, CompileError>(
            lit_export_fn_is() + iname + lit_js_params() + lit_root_check() + spec_dec(1) + seq![
                '&' as u8,
                '&' as u8,
                '"' as u8,
            ] + f + seq![
                '"' as u8,
                ' ' as u8,
                'i' as u8,
                'n' as u8,
                ' ' as u8,
                'o' as u8,
                '&' as u8,
                '&' as u8,
                't' as u8,
                'y' as u8,
                'p' as u8,
                'e' as u8,
                'o' as u8,
                'f' as u8,
                ' ' as u8,
                'o' as u8,
                '.' as u8,
            ] + f + seq![
                '=' as u8,
                '=' as u8,
                '=' as u8,
                '"' as u8,
                'n' as u8,
                'u' as u8,
                'm' as u8,
                'b' as u8,
                'e' as u8,
                'r' as u8,
                '"' as u8,
            ] + lit_close_fn() + seq!['\n' as u8],
        ),
{
    let field = ValueV::Entry(
        EntryV { key: KeyV::Name(f), children: seq![ValueV::Atom(TypeV::Num)] },
    );
    let tree = EntryV { key: KeyV::Name(iname), children: seq![field] };
    let ts = seq![tree];
    // the whole set is named and well-formed
    assert(all_named(ts));
    assert(spec_wf_values(seq![ValueV::Atom(TypeV::Num)])) by {
        assert(seq![ValueV::Atom(TypeV::Num)][0] == ValueV::Atom(TypeV::Num));
        assert(spec_wf_value(ValueV::Atom(TypeV::Num)));
        assert(seq![ValueV::Atom(TypeV::Num)].drop_first() =~= Seq::<ValueV>::empty());
        assert(spec_wf_values(Seq::<ValueV>::empty()));
    }
    assert(spec_wf_values(seq![field])) by {
        assert(seq![field][0] == field);
        assert(spec_wf_values(seq![ValueV::Atom(TypeV::Num)]));
        assert(spec_wf_value(field));
        assert(seq![field].drop_first() =~= Seq::<ValueV>::empty());
        assert(spec_wf_values(Seq::<ValueV>::empty()));
    }
    assert(spec_wf_entries(ts));
    // the tokens of the one field
    let root = spec_root_addr();
    let faddr = root.push(f);
    let inner = seq![ValueV::Atom(TypeV::Num)];
    assert(inner.drop_first() =~= Seq::<ValueV>::empty());
    assert(spec_to_js_concat(Seq::<ValueV>::empty(), faddr) =~= Seq::<JSTokenV>::empty());
    assert(inner[0] == ValueV::Atom(TypeV::Num));
    assert(spec_to_js(ValueV::Atom(TypeV::Num), faddr) =~= spec_typeof_tokens(faddr, JSType::Num));
    assert(spec_typeof_tokens(faddr, JSType::Num) + Seq::<JSTokenV>::empty()
        =~= spec_typeof_tokens(faddr, JSType::Num));
    assert(spec_to_js_concat(inner, faddr) =~= spec_typeof_tokens(faddr, JSType::Num));
    let field_tokens = seq![
        JSTokenV::And,
        JSTokenV::StrLit(f),
        JSTokenV::In,
        JSTokenV::Addr(root),
        JSTokenV::And,
    ] + spec_typeof_tokens(faddr, JSType::Num);
    assert(spec_to_js(field, root) =~= field_tokens);
    assert(seq![field].drop_first() =~= Seq::<ValueV>::empty());
    assert(spec_to_js_concat(Seq::<ValueV>::empty(), root) =~= Seq::<JSTokenV>::empty());
    assert(spec_to_js_concat(seq![field], root) =~= field_tokens);
    // the rendered field text
    lemma_escape_ident(f, 0);
    assert(spec_render_addr(root) =~= seq!['o' as u8]) by {
        assert(spec_render_addr_rest(root, 1) =~= Seq::<u8>::empty());
    }
    assert(!spec_is_index_segment(f)) by {
        assert(!crate::lexer::spec_is_digit(f[0]));
    }
    assert(spec_render_segment(f) =~= lit_dot() + f);
    assert(spec_render_addr_rest(faddr, 2) =~= Seq::<u8>::empty());
    assert(faddr[0] == seq!['o' as u8] && faddr[1] == f);
    assert(spec_render_addr(faddr) =~= seq!['o' as u8] + (lit_dot() + f));
    let checks = spec_render_tokens(field_tokens);
    assert(checks =~= seq!['&' as u8, '&' as u8, '"' as u8] + f + seq![
        '"' as u8,
        ' ' as u8,
        'i' as u8,
        'n' as u8,
        ' ' as u8,
        'o' as u8,
        '&' as u8,
        '&' as u8,
        't' as u8,
        'y' as u8,
        'p' as u8,
        'e' as u8,
        'o' as u8,
        'f' as u8,
        ' ' as u8,
        'o' as u8,
        '.' as u8,
    ] + f + seq![
        '=' as u8,
        '=' as u8,
        '=' as u8,
        '"' as u8,
        'n' as u8,
        'u' as u8,
        'm' as u8,
        'b' as u8,
        'e' as u8,
        'r' as u8,
        '"' as u8,
    ]) by {
        reveal_with_fuel(spec_render_tokens, 11);
        assert(field_tokens =~= seq![JSTokenV::And, JSTokenV::StrLit(f), JSTokenV::In, JSTokenV::Addr(root), JSTokenV::And, JSTokenV::Typeof, JSTokenV::Addr(faddr), JSTokenV::EqEqEq, JSTokenV::JSType(JSType::Num)]);
        assert(seq![JSTokenV::And, JSTokenV::StrLit(f), JSTokenV::In, JSTokenV::Addr(root), JSTokenV::And, JSTokenV::Typeof, JSTokenV::Addr(faddr), JSTokenV::EqEqEq, JSTokenV::JSType(JSType::Num)].drop_first() =~= seq![JSTokenV::StrLit(f), JSTokenV::In, JSTokenV::Addr(root), JSTokenV::And, JSTokenV::Typeof, JSTokenV::Addr(faddr), JSTokenV::EqEqEq, JSTokenV::JSType(JSType::Num)]);
        assert(seq![JSTokenV::StrLit(f), JSTokenV::In, JSTokenV::Addr(root), JSTokenV::And, JSTokenV::Typeof, JSTokenV::Addr(faddr), JSTokenV::EqEqEq, JSTokenV::JSType(JSType::Num)].drop_first() =~= seq![JSTokenV::In, JSTokenV::Addr(root), JSTokenV::And, JSTokenV::Typeof, JSTokenV::Addr(faddr), JSTokenV::EqEqEq, JSTokenV::JSType(JSType::Num)]);
        assert(seq![JSTokenV::In, JSTokenV::Addr(root), JSTokenV::And, JSTokenV::Typeof, JSTokenV::Addr(faddr), JSTokenV::EqEqEq, JSTokenV::JSType(JSType::Num)].drop_first() =~= seq![JSTokenV::Addr(root), JSTokenV::And, JSTokenV::Typeof, JSTokenV::Addr(faddr), JSTokenV::EqEqEq, JSTokenV::JSType(JSType::Num)]);
        assert(seq![JSTokenV::Addr(root), JSTokenV::And, JSTokenV::Typeof, JSTokenV::Addr(faddr), JSTokenV::EqEqEq, JSTokenV::JSType(JSType::Num)].drop_first() =~= seq![JSTokenV::And, JSTokenV::Typeof, JSTokenV::Addr(faddr), JSTokenV::EqEqEq, JSTokenV::JSType(JSType::Num)]);
        assert(seq![JSTokenV::And, JSTokenV::Typeof, JSTokenV::Addr(faddr), JSTokenV::EqEqEq, JSTokenV::JSType(JSType::Num)].drop_first() =~= seq![JSTokenV::Typeof, JSTokenV::Addr(faddr), JSTokenV::EqEqEq, JSTokenV::JSType(JSType::Num)]);
        assert(seq![JSTokenV::Typeof, JSTokenV::Addr(faddr), JSTokenV::EqEqEq, JSTokenV::JSType(JSType::Num)].drop_first() =~= seq![JSTokenV::Addr(faddr), JSTokenV::EqEqEq, JSTokenV::JSType(JSType::Num)]);
        assert(seq![JSTokenV::Addr(faddr), JSTokenV::EqEqEq, JSTokenV::JSType(JSType::Num)].drop_first() =~= seq![JSTokenV::EqEqEq, JSTokenV::JSType(JSType::Num)]);
        assert(seq![JSTokenV::EqEqEq, JSTokenV::JSType(JSType::Num)].drop_first() =~= seq![JSTokenV::JSType(JSType::Num)]);
        assert(seq![JSTokenV::JSType(JSType::Num)].drop_first() =~= Seq::<JSTokenV>::empty());
        assert(spec_render_tokens(Seq::<JSTokenV>::empty()) =~= Seq::<u8>::empty());
        assert(spec_render_token(JSTokenV::StrLit(f)) =~= seq!['"' as u8] + f + seq!['"' as u8]);
    }
    // the full function text
    assert(spec_emit_all(ts, Extension::JS) =~= spec_emit_one(tree, Extension::JS));
    assert(spec_emit_one(tree, Extension::JS) =~= lit_export_fn_is() + iname + lit_js_params()
        + (lit_root_check() + spec_dec(1) + checks) + lit_close_fn() + seq!['\n' as u8]);
    assert(spec_generate(ts, Extension::JS).unwrap() =~= lit_export_fn_is() + iname
        + lit_js_params() + lit_root_check() + spec_dec(1) + seq![
        '&' as u8,
        '&' as u8,
        '"' as u8,
    ] + f + seq![
        '"' as u8,
        ' ' as u8,
        'i' as u8,
        'n' as u8,
        ' ' as u8,
        'o' as u8,
        '&' as u8,
        '&' as u8,
        't' as u8,
        'y' as u8,
        'p' as u8,
        'e' as u8,
        'o' as u8,
        'f' as u8,
        ' ' as u8,
        'o' as u8,
        '.' as u8,
    ] + f + seq![
        '=' as u8,
        '=' as u8,
        '=' as u8,
        '"' as u8,
        'n' as u8,
        'u' as u8,
        'm' as u8,
        'b' as u8,
        'e' as u8,
        'r' as u8,
        '"' as u8,
    ] + lit_close_fn() + seq!['\n' as u8]);
}

} // verus!
