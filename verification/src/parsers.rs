//! The structural parser and the tree-rewrite passes.
//!
//! The parser turns the token stream into one tree per declared type with a
//! single explicit stack; the passes then resolve syntactic sugar — generic
//! arguments, tuples, array suffixes, parenthesized groups, the two boolean
//! connectives, named-type references, repeated declarations — into a
//! canonical tree that the code generator walks.
use vstd::prelude::*;

use crate::lexer::{bytes_eq, view_tokens, Oper, Punct, Token, TokenV, Type, TypeV};
use crate::CompileError;

verus! {

broadcast use vstd::seq::axiom_seq_index_decreases, vstd::seq::axiom_seq_subrange_decreases;

/// The head of a generic application: the recognized array former, or a
/// named generic that the code generator leaves unchecked.
#[derive(Clone, PartialEq, Debug)]
pub enum Generic {
    Custom(Vec<u8>),
    Array,
}

/// What a tree node stands for.
#[derive(Clone, PartialEq, Debug)]
pub enum Key {
    /// A required field, or at the top level a declared type.
    Name(Vec<u8>),
    /// An optional field.
    Optional(Vec<u8>),
    /// A generic application, `Array` included.
    Generic(Generic),
    /// A transparent parenthesized group.
    Paren,
    /// A disjunction of exactly two children.
    Or,
    /// A conjunction of exactly two children.
    And,
    /// An anonymous object literal.
    Anon,
    /// A fixed-length ordered sequence.
    Tuple,
}

/// A child of a tree node: a nested node or a leaf type atom.
#[derive(Debug)]
pub enum Value {
    Entry(Entry),
    Type(Type),
}

/// A tree node: a key and an ordered sequence of children.
#[derive(Debug)]
pub struct Entry {
    pub key: Key,
    pub value: Vec<Value>,
}

/// Mathematical image of `Generic`.
pub enum GenericV {
    Custom(Seq<u8>),
    Array,
}

/// Mathematical image of `Key`.
pub enum KeyV {
    Name(Seq<u8>),
    Optional(Seq<u8>),
    Generic(GenericV),
    Paren,
    Or,
    And,
    Anon,
    Tuple,
}

/// Mathematical image of `Value`.
pub enum ValueV {
    Entry(EntryV),
    Atom(TypeV),
}

/// Mathematical image of `Entry`.
pub struct EntryV {
    pub key: KeyV,
    pub children: Seq<ValueV>,
}

/// The image of a generic former.
pub open spec fn generic_view(g: Generic) -> GenericV {
    match g {
        Generic::Custom(s) => GenericV::Custom(s@),
        Generic::Array => GenericV::Array,
    }
}

/// The image of a node key.
pub open spec fn key_view(k: Key) -> KeyV {
    match k {
        Key::Name(s) => KeyV::Name(s@),
        Key::Optional(s) => KeyV::Optional(s@),
        Key::Generic(g) => KeyV::Generic(generic_view(g)),
        Key::Paren => KeyV::Paren,
        Key::Or => KeyV::Or,
        Key::And => KeyV::And,
        Key::Anon => KeyV::Anon,
        Key::Tuple => KeyV::Tuple,
    }
}

/// The image of a tree value.
pub open spec fn value_view(v: Value) -> ValueV
    decreases v,
{
    match v {
        Value::Entry(e) => ValueV::Entry(entry_view(e)),
        Value::Type(t) => ValueV::Atom(t@),
    }
}

/// The image of a tree node.
pub open spec fn entry_view(e: Entry) -> EntryV
    decreases e,
{
    EntryV { key: key_view(e.key), children: values_view(e.value@) }
}

/// The image of a child sequence.
pub open spec fn values_view(s: Seq<Value>) -> Seq<ValueV>
    decreases s,
{
    if s.len() == 0 {
        seq![]
    } else {
        seq![value_view(s[0])] + values_view(s.drop_first())
    }
}

/// The image of a sequence of trees.
pub open spec fn entries_view(s: Seq<Entry>) -> Seq<EntryV>
    decreases s,
{
    if s.len() == 0 {
        seq![]
    } else {
        seq![entry_view(s[0])] + entries_view(s.drop_first())
    }
}

impl View for Value {
    type V = ValueV;

    open spec fn view(&self) -> ValueV {
        value_view(*self)
    }
}

impl View for Entry {
    type V = EntryV;

    open spec fn view(&self) -> EntryV {
        entry_view(*self)
    }
}

/// A child sequence's image has its length and its elements' images.
pub broadcast proof fn lemma_values_view(s: Seq<Value>)
    ensures
        (#[trigger] values_view(s)).len() == s.len(),
        forall|i: int| 0 <= i < s.len() ==> values_view(s)[i] == value_view(s[i]),
    decreases s,
{
    if s.len() > 0 {
        lemma_values_view(s.drop_first());
    }
}

/// A tree sequence's image has its length and its elements' images.
pub broadcast proof fn lemma_entries_view(s: Seq<Entry>)
    ensures
        (#[trigger] entries_view(s)).len() == s.len(),
        forall|i: int| 0 <= i < s.len() ==> entries_view(s)[i] == entry_view(s[i]),
    decreases s,
{
    if s.len() > 0 {
        lemma_entries_view(s.drop_first());
    }
}

/// The number of nodes and atoms in a tree value.
pub open spec fn size_val(v: ValueV) -> nat
    decreases v,
{
    match v {
        ValueV::Atom(_) => 1,
        ValueV::Entry(e) => 1 + size_vals(e.children),
    }
}

/// The number of nodes and atoms under an ordered child sequence.
pub open spec fn size_vals(s: Seq<ValueV>) -> nat
    decreases s,
{
    if s.len() == 0 {
        0
    } else {
        size_val(s[0]) + size_vals(s.drop_first())
    }
}

pub proof fn lemma_size_vals_concat(a: Seq<ValueV>, b: Seq<ValueV>)
    ensures
        size_vals(a + b) == size_vals(a) + size_vals(b),
    decreases a,
{
    if a.len() == 0 {
        assert(a + b =~= b);
    } else {
        assert((a + b).drop_first() =~= a.drop_first() + b);
        lemma_size_vals_concat(a.drop_first(), b);
    }
}

pub proof fn lemma_size_vals_index(s: Seq<ValueV>, i: int)
    requires
        0 <= i < s.len(),
    ensures
        size_val(s[i]) <= size_vals(s),
    decreases s,
{
    if i > 0 {
        lemma_size_vals_index(s.drop_first(), i - 1);
    }
}

pub proof fn lemma_size_vals_subrange(s: Seq<ValueV>, i: int, j: int)
    requires
        0 <= i <= j <= s.len(),
    ensures
        size_vals(s.subrange(i, j)) <= size_vals(s),
{
    assert(s =~= s.subrange(0, i) + s.subrange(i, j) + s.subrange(j, s.len() as int));
    lemma_size_vals_concat(s.subrange(0, i) + s.subrange(i, j), s.subrange(j, s.len() as int));
    lemma_size_vals_concat(s.subrange(0, i), s.subrange(i, j));
}

/// An exact copy of a byte vector.
pub fn copy_bytes(v: &Vec<u8>) -> (r: Vec<u8>)
    ensures
        r@ == v@,
{
    let r = crate::lexer::vec_subrange(v, 0, v.len());
    proof {
        assert(v@.subrange(0, v@.len() as int) =~= v@);
    }
    r
}

/// An exact copy of a leaf type atom.
pub fn copy_type(t: &Type) -> (r: Type)
    ensures
        r@ == t@,
{
    match t {
        Type::Custom(s) => Type::Custom(copy_bytes(s)),
        Type::Oper(o) => Type::Oper(*o),
        Type::StrLit(s) => Type::StrLit(copy_bytes(s)),
        Type::NumLit(s) => Type::NumLit(copy_bytes(s)),
        Type::Punct(p) => Type::Punct(*p),
        Type::True => Type::True,
        Type::False => Type::False,
        Type::Str => Type::Str,
        Type::Num => Type::Num,
        Type::Object => Type::Object,
        Type::Boolean => Type::Boolean,
        Type::Null => Type::Null,
        Type::Undefined => Type::Undefined,
        Type::Function => Type::Function,
        Type::Symbol => Type::Symbol,
        Type::BigInt => Type::BigInt,
        Type::Any => Type::Any,
        Type::Unknown => Type::Unknown,
    }
}

/// An exact copy of a node key.
pub fn copy_key(k: &Key) -> (r: Key)
    ensures
        key_view(r) == key_view(*k),
{
    match k {
        Key::Name(s) => Key::Name(copy_bytes(s)),
        Key::Optional(s) => Key::Optional(copy_bytes(s)),
        Key::Generic(Generic::Custom(s)) => Key::Generic(Generic::Custom(copy_bytes(s))),
        Key::Generic(Generic::Array) => Key::Generic(Generic::Array),
        Key::Paren => Key::Paren,
        Key::Or => Key::Or,
        Key::And => Key::And,
        Key::Anon => Key::Anon,
        Key::Tuple => Key::Tuple,
    }
}

/// An exact copy of a tree value.
pub fn copy_value(v: &Value) -> (r: Value)
    ensures
        r@ == v@,
    decreases *v,
{
    match v {
        Value::Entry(e) => Value::Entry(copy_entry(e)),
        Value::Type(t) => Value::Type(copy_type(t)),
    }
}

/// An exact copy of a tree node.
pub fn copy_entry(e: &Entry) -> (r: Entry)
    ensures
        r@ == e@,
    decreases *e,
{
    let mut children: Vec<Value> = Vec::new();
    let mut i: usize = 0;
    while i < e.value.len()
        invariant
            i <= e.value@.len(),
            children@.len() == i,
            forall|k: int| 0 <= k < i ==> value_view(#[trigger] children@[k]) == value_view(
                e.value@[k],
            ),
        decreases e.value@.len() - i,
    {
        children.push(copy_value(&e.value[i]));
        i += 1;
    }
    proof {
        lemma_values_view(children@);
        lemma_values_view(e.value@);
        assert(values_view(children@) =~= values_view(e.value@));
    }
    Entry { key: copy_key(&e.key), value: children }
}

/// An exact copy of a sequence of trees.
pub fn copy_entries(es: &Vec<Entry>) -> (r: Vec<Entry>)
    ensures
        entries_view(r@) == entries_view(es@),
{
    let mut r: Vec<Entry> = Vec::new();
    let mut i: usize = 0;
    while i < es.len()
        invariant
            i <= es@.len(),
            r@.len() == i,
            forall|k: int| 0 <= k < i ==> entry_view(#[trigger] r@[k]) == entry_view(es@[k]),
        decreases es@.len() - i,
    {
        r.push(copy_entry(&es[i]));
        i += 1;
    }
    proof {
        lemma_entries_view(r@);
        lemma_entries_view(es@);
        assert(entries_view(r@) =~= entries_view(es@));
    }
    r
}

/// Is this token a boolean-connective atom?
pub open spec fn spec_is_conn(t: TokenV) -> bool {
    t matches TokenV::Type(TypeV::Oper(_))
}

/// The field name a token yields when it stands directly before `:` or
/// `?:`: identifiers and string literals keep their text, and a keyword or
/// primitive token is read as its own spelling; other tokens never become
/// field names.
pub open spec fn spec_key_candidate(t: TokenV) -> Option<Seq<u8>> {
    match t {
        TokenV::Id(s) => Some(s),
        TokenV::StrLit(s) => Some(s),
        TokenV::Interface => Some(crate::lexer::kw_interface()),
        TokenV::Type(tv) => match tv {
            TypeV::True => Some(crate::lexer::kw_true()),
            TypeV::False => Some(crate::lexer::kw_false()),
            TypeV::Str => Some(crate::lexer::kw_string()),
            TypeV::Num => Some(crate::lexer::kw_number()),
            TypeV::Object => Some(crate::lexer::kw_object()),
            TypeV::Boolean => Some(crate::lexer::kw_boolean()),
            TypeV::Null => Some(crate::lexer::kw_null()),
            TypeV::Undefined => Some(crate::lexer::kw_undefined()),
            TypeV::Symbol => Some(crate::lexer::kw_symbol()),
            TypeV::BigInt => Some(crate::lexer::kw_bigint()),
            TypeV::Any => Some(crate::lexer::kw_any()),
            TypeV::Unknown => Some(crate::lexer::kw_unknown()),
            TypeV::Function => Some(crate::lexer::kw_function()),
            _ => None,
        },
        _ => None,
    }
}

/// First pre-pass: a token standing directly before `:` or `?` that can
/// name a field is reclassified into a `Key` token, with an end-of-entry
/// marker spliced in just before it, so the previous field's value
/// collection ends exactly at the next field boundary. The last token is
/// never a candidate.
pub open spec fn spec_mark_keys(ts: Seq<TokenV>) -> Seq<TokenV>
    decreases ts.len(),
{
    if ts.len() == 0 {
        seq![]
    } else if ts.len() >= 2 && (ts[1] == TokenV::Colon || ts[1] == TokenV::QM) {
        match spec_key_candidate(ts[0]) {
            Some(name) => seq![TokenV::EOE, TokenV::Key(name)] + spec_mark_keys(ts.drop_first()),
            None => seq![ts[0]] + spec_mark_keys(ts.drop_first()),
        }
    } else {
        seq![ts[0]] + spec_mark_keys(ts.drop_first())
    }
}

/// Second pre-pass: the always-satisfied forms contribute no runtime check
/// and leave the stream before structural parsing.
pub open spec fn spec_drop_any_unknown(ts: Seq<TokenV>) -> Seq<TokenV>
    decreases ts.len(),
{
    if ts.len() == 0 {
        seq![]
    } else if ts[0] == TokenV::Type(TypeV::Any) || ts[0] == TokenV::Type(TypeV::Unknown) {
        spec_drop_any_unknown(ts.drop_first())
    } else {
        seq![ts[0]] + spec_drop_any_unknown(ts.drop_first())
    }
}

/// The connective-collapsing scan as it runs from any position after the
/// first: a connective directly followed by another connective is dropped.
pub open spec fn spec_scan_conn(ts: Seq<TokenV>) -> Seq<TokenV>
    decreases ts.len(),
{
    if ts.len() < 2 {
        ts
    } else if spec_is_conn(ts[0]) && spec_is_conn(ts[1]) {
        spec_scan_conn(ts.drop_first())
    } else {
        seq![ts[0]] + spec_scan_conn(ts.drop_first())
    }
}

/// Third pre-pass: collapses runs of adjacent connective tokens. A removal
/// at the very front steps the scan past the following token, which that
/// one time leaves a leading pair in place.
pub open spec fn spec_dedup_conn(ts: Seq<TokenV>) -> Seq<TokenV> {
    if ts.len() >= 2 && spec_is_conn(ts[0]) && spec_is_conn(ts[1]) {
        seq![ts[1]] + spec_scan_conn(ts.skip(2))
    } else {
        spec_scan_conn(ts)
    }
}

/// Fourth pre-pass: a digit token directly preceded by `-` becomes one
/// negative number-literal atom; any other digit token becomes a positive
/// number-literal atom.
pub open spec fn spec_number_lits(ts: Seq<TokenV>) -> Seq<TokenV>
    decreases ts.len(),
{
    if ts.len() == 0 {
        seq![]
    } else if ts.len() >= 2 && ts[0] == TokenV::Dash && (ts[1] matches TokenV::Number(_)) {
        match ts[1] {
            TokenV::Number(d) => seq![TokenV::Type(TypeV::NumLit(seq!['-' as u8] + d))]
                + spec_number_lits(ts.skip(2)),
            _ => seq![],
        }
    } else {
        match ts[0] {
            TokenV::Number(d) => seq![TokenV::Type(TypeV::NumLit(d))] + spec_number_lits(
                ts.drop_first(),
            ),
            _ => seq![ts[0]] + spec_number_lits(ts.drop_first()),
        }
    }
}

/// Fifth pre-pass: bytes the lexer could not classify are dropped.
pub open spec fn spec_drop_undefined(ts: Seq<TokenV>) -> Seq<TokenV>
    decreases ts.len(),
{
    if ts.len() == 0 {
        seq![]
    } else if ts[0] matches TokenV::Undefined(_) {
        spec_drop_undefined(ts.drop_first())
    } else {
        seq![ts[0]] + spec_drop_undefined(ts.drop_first())
    }
}

/// The run of end-of-entry markers at the front of the stream, skipped.
pub open spec fn spec_skip_eoes(ts: Seq<TokenV>) -> Seq<TokenV>
    decreases ts.len(),
{
    if ts.len() > 0 && ts[0] == TokenV::EOE {
        spec_skip_eoes(ts.drop_first())
    } else {
        ts
    }
}

pub proof fn lemma_skip_eoes_len(ts: Seq<TokenV>)
    ensures
        spec_skip_eoes(ts).len() <= ts.len(),
    decreases ts.len(),
{
    if ts.len() > 0 && ts[0] == TokenV::EOE {
        lemma_skip_eoes_len(ts.drop_first());
    }
}

/// Sixth pre-pass: an end-of-entry marker directly after an opening brace
/// is dropped (the brace itself opens the entry), and every closing brace
/// is doubled, so that even an empty object literal still closes its own
/// entry once the braces become end-of-entry markers.
pub open spec fn spec_normalize_braces(ts: Seq<TokenV>) -> Seq<TokenV>
    decreases ts.len() via spec_normalize_braces_dec
{
    if ts.len() == 0 {
        seq![]
    } else if ts[0] == TokenV::Type(TypeV::Punct(Punct::LBrace)) {
        seq![ts[0]] + spec_normalize_braces(spec_skip_eoes(ts.drop_first()))
    } else if ts[0] == TokenV::Type(TypeV::Punct(Punct::RBrace)) {
        seq![ts[0], ts[0]] + spec_normalize_braces(ts.drop_first())
    } else {
        seq![ts[0]] + spec_normalize_braces(ts.drop_first())
    }
}

#[via_fn]
proof fn spec_normalize_braces_dec(ts: Seq<TokenV>) {
    if ts.len() > 0 {
        lemma_skip_eoes_len(ts.drop_first());
    }
}

/// Seventh pre-pass: every closing brace becomes an end-of-entry marker.
pub open spec fn spec_rbrace_eoe(ts: Seq<TokenV>) -> Seq<TokenV> {
    ts.map_values(
        |t: TokenV|
            if t == TokenV::Type(TypeV::Punct(Punct::RBrace)) {
                TokenV::EOE
            } else {
                t
            },
    )
}

/// Closing one entry on the stack: the top entry becomes the last child of
/// the one below it; with fewer than two open entries nothing happens.
pub open spec fn spec_stack_remove(stack: Seq<EntryV>) -> Seq<EntryV> {
    if stack.len() < 2 {
        stack
    } else {
        let child = stack.last();
        let parent = stack[stack.len() - 2];
        stack.take(stack.len() - 2).push(
            EntryV { key: parent.key, children: parent.children.push(ValueV::Entry(child)) },
        )
    }
}

/// A leaf atom appended to the children of the topmost open entry.
pub open spec fn spec_push_atom(stack: Seq<EntryV>, atom: ValueV) -> Seq<EntryV> {
    let top = stack.last();
    stack.drop_last().push(EntryV { key: top.key, children: top.children.push(atom) })
}

/// The main structural parse: one pass over the prepared token stream with
/// an explicit stack of open entries. `interface` opens a declaration
/// (yielding the previous one, if complete), a key token opens a field
/// entry, an opening brace opens an anonymous object literal, an
/// end-of-entry marker closes the top entry into its parent, and leaf
/// forms are appended to the open entry's children. At the end exactly
/// one open tree must remain.
pub open spec fn spec_build(
    ts: Seq<TokenV>,
    i: int,
    stack: Seq<EntryV>,
    acc: Seq<EntryV>,
) -> Result<Seq<EntryV>, CompileError>
    decreases ts.len() - i when 0 <= i
{
    let n = ts.len() as int;
    if i >= n {
        if stack.len() == 1 {
            Ok(acc.push(stack[0]))
        } else {
            Err(CompileError::UnbalancedDeclaration)
        }
    } else {
        match ts[i] {
            TokenV::Interface => {
                if stack.len() >= 2 {
                    Err(CompileError::NestedInterface)
                } else if i + 1 < n && (ts[i + 1] matches TokenV::Id(_)) {
                    let name = match ts[i + 1] {
                        TokenV::Id(s) => s,
                        _ => seq![],
                    };
                    let acc2 = if stack.len() == 1 {
                        acc.push(stack[0])
                    } else {
                        acc
                    };
                    spec_build(
                        ts,
                        if i + 3 <= n {
                            i + 3
                        } else {
                            n
                        },
                        seq![EntryV { key: KeyV::Name(name), children: seq![] }],
                        acc2,
                    )
                } else {
                    Err(CompileError::MissingInterfaceName)
                }
            },
            TokenV::Key(name) => {
                if i + 1 < n && ts[i + 1] == TokenV::QM {
                    spec_build(
                        ts,
                        i + 2,
                        stack.push(EntryV { key: KeyV::Optional(name), children: seq![] }),
                        acc,
                    )
                } else {
                    spec_build(
                        ts,
                        i + 1,
                        stack.push(EntryV { key: KeyV::Name(name), children: seq![] }),
                        acc,
                    )
                }
            },
            TokenV::Type(TypeV::Punct(Punct::LBrace)) => spec_build(
                ts,
                i + 1,
                stack.push(EntryV { key: KeyV::Anon, children: seq![] }),
                acc,
            ),
            TokenV::EOE => spec_build(ts, i + 1, spec_stack_remove(stack), acc),
            TokenV::Type(t) => {
                if stack.len() == 0 {
                    Err(CompileError::ValueOutsideDeclaration)
                } else {
                    spec_build(ts, i + 1, spec_push_atom(stack, ValueV::Atom(t)), acc)
                }
            },
            TokenV::StrLit(s) => {
                if stack.len() == 0 {
                    Err(CompileError::ValueOutsideDeclaration)
                } else {
                    spec_build(ts, i + 1, spec_push_atom(stack, ValueV::Atom(TypeV::StrLit(s))), acc)
                }
            },
            TokenV::Id(s) => {
                if stack.len() == 0 {
                    Err(CompileError::ValueOutsideDeclaration)
                } else {
                    spec_build(ts, i + 1, spec_push_atom(stack, ValueV::Atom(TypeV::Custom(s))), acc)
                }
            },
            _ => spec_build(ts, i + 1, stack, acc),
        }
    }
}

/// The whole structural parser: the seven token pre-passes, then the
/// stack-driven parse, yielding one tree per declared type in declaration
/// order, or the first fatal grammar violation.
pub open spec fn spec_parse_interfaces(ts: Seq<TokenV>) -> Result<Seq<EntryV>, CompileError> {
    spec_build(
        spec_rbrace_eoe(
            spec_normalize_braces(
                spec_drop_undefined(
                    spec_number_lits(
                        spec_dedup_conn(spec_drop_any_unknown(spec_mark_keys(ts))),
                    ),
                ),
            ),
        ),
        0,
        seq![],
        seq![],
    )
}

/// An exact copy of a token.
pub fn copy_token(t: &Token) -> (r: Token)
    ensures
        r@ == t@,
{
    match t {
        Token::Id(s) => Token::Id(copy_bytes(s)),
        Token::Number(s) => Token::Number(copy_bytes(s)),
        Token::StrLit(s) => Token::StrLit(copy_bytes(s)),
        Token::Undefined(b) => Token::Undefined(*b),
        Token::Type(ty) => Token::Type(copy_type(ty)),
        Token::Key(s) => Token::Key(copy_bytes(s)),
        Token::Interface => Token::Interface,
        Token::Colon => Token::Colon,
        Token::Eq => Token::Eq,
        Token::Dash => Token::Dash,
        Token::Slash => Token::Slash,
        Token::Comment => Token::Comment,
        Token::QM => Token::QM,
        Token::EOE => Token::EOE,
        Token::EOF => Token::EOF,
    }
}

/// The field name this token would contribute before `:` or `?:`, if any.
fn key_name_of(t: &Token) -> (r: Option<Vec<u8>>)
    ensures
        match r {
            Some(n) => spec_key_candidate(t@) == Some(n@),
            None => spec_key_candidate(t@) is None,
        },
{
    match t {
        Token::Id(s) => Some(copy_bytes(s)),
        Token::StrLit(s) => Some(copy_bytes(s)),
        Token::Interface => {
            let n = vec!['i' as u8, 'n' as u8, 't' as u8, 'e' as u8, 'r' as u8, 'f' as u8, 'a' as u8, 'c' as u8, 'e' as u8];
            proof {
                assert(n@ =~= crate::lexer::kw_interface());
            }
            Some(n)
        },
        Token::Type(ty) => match ty {
            Type::True => {
                let n = vec!['t' as u8, 'r' as u8, 'u' as u8, 'e' as u8];
                proof {
                    assert(n@ =~= crate::lexer::kw_true());
                }
                Some(n)
            },
            Type::False => {
                let n = vec!['f' as u8, 'a' as u8, 'l' as u8, 's' as u8, 'e' as u8];
                proof {
                    assert(n@ =~= crate::lexer::kw_false());
                }
                Some(n)
            },
            Type::Str => {
                let n = vec!['s' as u8, 't' as u8, 'r' as u8, 'i' as u8, 'n' as u8, 'g' as u8];
                proof {
                    assert(n@ =~= crate::lexer::kw_string());
                }
                Some(n)
            },
            Type::Num => {
                let n = vec!['n' as u8, 'u' as u8, 'm' as u8, 'b' as u8, 'e' as u8, 'r' as u8];
                proof {
                    assert(n@ =~= crate::lexer::kw_number());
                }
                Some(n)
            },
            Type::Object => {
                let n = vec!['o' as u8, 'b' as u8, 'j' as u8, 'e' as u8, 'c' as u8, 't' as u8];
                proof {
                    assert(n@ =~= crate::lexer::kw_object());
                }
                Some(n)
            },
            Type::Boolean => {
                let n = vec!['b' as u8, 'o' as u8, 'o' as u8, 'l' as u8, 'e' as u8, 'a' as u8, 'n' as u8];
                proof {
                    assert(n@ =~= crate::lexer::kw_boolean());
                }
                Some(n)
            },
            Type::Null => {
                let n = vec!['n' as u8, 'u' as u8, 'l' as u8, 'l' as u8];
                proof {
                    assert(n@ =~= crate::lexer::kw_null());
                }
                Some(n)
            },
            Type::Undefined => {
                let n = vec!['u' as u8, 'n' as u8, 'd' as u8, 'e' as u8, 'f' as u8, 'i' as u8, 'n' as u8, 'e' as u8, 'd' as u8];
                proof {
                    assert(n@ =~= crate::lexer::kw_undefined());
                }
                Some(n)
            },
            Type::Symbol => {
                let n = vec!['s' as u8, 'y' as u8, 'm' as u8, 'b' as u8, 'o' as u8, 'l' as u8];
                proof {
                    assert(n@ =~= crate::lexer::kw_symbol());
                }
                Some(n)
            },
            Type::BigInt => {
                let n = vec!['b' as u8, 'i' as u8, 'g' as u8, 'i' as u8, 'n' as u8, 't' as u8];
                proof {
                    assert(n@ =~= crate::lexer::kw_bigint());
                }
                Some(n)
            },
            Type::Any => {
                let n = vec!['a' as u8, 'n' as u8, 'y' as u8];
                proof {
                    assert(n@ =~= crate::lexer::kw_any());
                }
                Some(n)
            },
            Type::Unknown => {
                let n = vec!['u' as u8, 'n' as u8, 'k' as u8, 'n' as u8, 'o' as u8, 'w' as u8, 'n' as u8];
                proof {
                    assert(n@ =~= crate::lexer::kw_unknown());
                }
                Some(n)
            },
            Type::Function => {
                let n = vec!['F' as u8, 'u' as u8, 'n' as u8, 'c' as u8, 't' as u8, 'i' as u8, 'o' as u8, 'n' as u8];
                proof {
                    assert(n@ =~= crate::lexer::kw_function());
                }
                Some(n)
            },
            _ => None,
        },
        _ => None,
    }
}

/// Is this token a boolean-connective atom?
fn is_conn_token(t: &Token) -> (r: bool)
    ensures
        r == spec_is_conn(t@),
{
    match t {
        Token::Type(Type::Oper(_)) => true,
        _ => false,
    }
}

fn mark_keys(ts: &Vec<Token>) -> (out: Vec<Token>)
    ensures
        view_tokens(out@) == spec_mark_keys(view_tokens(ts@)),
{
    let ghost full = view_tokens(ts@);
    let n = ts.len();
    let mut out: Vec<Token> = Vec::new();
    let mut i: usize = 0;
    proof {
        assert(full.skip(0) =~= full);
    }
    while i < n
        invariant
            n == ts@.len(),
            full == view_tokens(ts@),
            i <= n,
            spec_mark_keys(full) == view_tokens(out@) + spec_mark_keys(full.skip(i as int)),
        decreases n - i,
    {
        let ghost prev = out@;
        proof {
            assert(full.skip(i as int).drop_first() =~= full.skip(i + 1));
            assert(full.skip(i as int)[0] == full[i as int]);
            if i + 1 < n {
                assert(full.skip(i as int)[1] == full[i + 1]);
            }
        }
        let followed = i + 1 < n && (matches!(&ts[i + 1], Token::Colon) || matches!(
            &ts[i + 1],
            Token::QM,
        ));
        let mut reclassified = false;
        if followed {
            match key_name_of(&ts[i]) {
                Some(name) => {
                    out.push(Token::EOE);
                    out.push(Token::Key(name));
                    reclassified = true;
                },
                None => {},
            }
        }
        if !reclassified {
            out.push(copy_token(&ts[i]));
        }
        proof {
            assert(view_tokens(out@) =~= view_tokens(prev) + view_tokens(
                out@.skip(prev.len() as int),
            ));
            assert(view_tokens(prev) + spec_mark_keys(full.skip(i as int)) =~= view_tokens(out@)
                + spec_mark_keys(full.skip(i + 1)));
        }
        i += 1;
    }
    proof {
        assert(full.skip(n as int) =~= Seq::<TokenV>::empty());
        assert(spec_mark_keys(full) =~= view_tokens(out@));
    }
    out
}

fn drop_any_unknown(ts: &Vec<Token>) -> (out: Vec<Token>)
    ensures
        view_tokens(out@) == spec_drop_any_unknown(view_tokens(ts@)),
{
    let ghost full = view_tokens(ts@);
    let n = ts.len();
    let mut out: Vec<Token> = Vec::new();
    let mut i: usize = 0;
    proof {
        assert(full.skip(0) =~= full);
    }
    while i < n
        invariant
            n == ts@.len(),
            full == view_tokens(ts@),
            i <= n,
            spec_drop_any_unknown(full) == view_tokens(out@) + spec_drop_any_unknown(
                full.skip(i as int),
            ),
        decreases n - i,
    {
        let ghost prev = out@;
        proof {
            assert(full.skip(i as int).drop_first() =~= full.skip(i + 1));
            assert(full.skip(i as int)[0] == full[i as int]);
        }
        if !(matches!(&ts[i], Token::Type(Type::Any)) || matches!(&ts[i], Token::Type(Type::Unknown))) {
            out.push(copy_token(&ts[i]));
            proof {
                assert(view_tokens(prev.push(out@[prev.len() as int])) =~= view_tokens(prev)
                    + seq![full[i as int]]);
            }
        }
        proof {
            assert(view_tokens(prev) + spec_drop_any_unknown(full.skip(i as int))
                =~= view_tokens(out@) + spec_drop_any_unknown(full.skip(i + 1)));
        }
        i += 1;
    }
    proof {
        assert(full.skip(n as int) =~= Seq::<TokenV>::empty());
        assert(spec_drop_any_unknown(full) =~= view_tokens(out@));
    }
    out
}

fn dedup_conn(ts: &Vec<Token>) -> (out: Vec<Token>)
    ensures
        view_tokens(out@) == spec_dedup_conn(view_tokens(ts@)),
{
    let ghost full = view_tokens(ts@);
    let n = ts.len();
    let mut out: Vec<Token> = Vec::new();
    let mut i: usize = 0;
    if n >= 2 && is_conn_token(&ts[0]) && is_conn_token(&ts[1]) {
        out.push(copy_token(&ts[1]));
        i = 2;
        proof {
            assert(view_tokens(out@) =~= seq![full[1]]);
        }
    } else {
        proof {
            assert(full.skip(0) =~= full);
            assert(view_tokens(out@) =~= Seq::<TokenV>::empty());
        }
    }
    while i < n
        invariant
            n == ts@.len(),
            full == view_tokens(ts@),
            i <= n,
            spec_dedup_conn(full) == view_tokens(out@) + spec_scan_conn(full.skip(i as int)),
        decreases n - i,
    {
        let ghost prev = out@;
        proof {
            assert(full.skip(i as int).drop_first() =~= full.skip(i + 1));
            assert(full.skip(i as int)[0] == full[i as int]);
            if i + 1 < n {
                assert(full.skip(i as int)[1] == full[i + 1]);
            }
        }
        if i + 1 < n && is_conn_token(&ts[i]) && is_conn_token(&ts[i + 1]) {
            // dropped: a connective directly followed by another
        } else {
            out.push(copy_token(&ts[i]));
            proof {
                assert(view_tokens(out@) =~= view_tokens(prev) + seq![full[i as int]]);
            }
        }
        proof {
            assert(view_tokens(prev) + spec_scan_conn(full.skip(i as int)) =~= view_tokens(out@)
                + spec_scan_conn(full.skip(i + 1)));
        }
        i += 1;
    }
    proof {
        assert(full.skip(n as int) =~= Seq::<TokenV>::empty());
        assert(spec_dedup_conn(full) =~= view_tokens(out@));
    }
    out
}

fn number_lits(ts: &Vec<Token>) -> (out: Vec<Token>)
    ensures
        view_tokens(out@) == spec_number_lits(view_tokens(ts@)),
{
    let ghost full = view_tokens(ts@);
    let n = ts.len();
    let mut out: Vec<Token> = Vec::new();
    let mut i: usize = 0;
    proof {
        assert(full.skip(0) =~= full);
    }
    while i < n
        invariant
            n == ts@.len(),
            full == view_tokens(ts@),
            i <= n,
            spec_number_lits(full) == view_tokens(out@) + spec_number_lits(full.skip(i as int)),
        decreases n - i,
    {
        let ghost prev = out@;
        proof {
            assert(full.skip(i as int).drop_first() =~= full.skip(i + 1));
            assert(full.skip(i as int)[0] == full[i as int]);
            if i + 1 < n {
                assert(full.skip(i as int)[1] == full[i + 1]);
            }
        }
        let mut merged = false;
        if i + 1 < n && matches!(&ts[i], Token::Dash) {
            match &ts[i + 1] {
                Token::Number(d) => {
                    let ghost dv = d@;
                    let mut lit = vec!['-' as u8];
                    let mut digits = copy_bytes(d);
                    lit.append(&mut digits);
                    proof {
                        assert(lit@ =~= seq!['-' as u8] + dv);
                    }
                    let tok = Token::Type(Type::NumLit(lit));
                    let ghost tokv = tok@;
                    out.push(tok);
                    proof {
                        assert(full.skip(i as int).skip(2) =~= full.skip(i + 2));
                        assert(view_tokens(out@) =~= view_tokens(prev) + seq![tokv]);
                        assert(full[i + 1] == TokenV::Number(dv));
                        assert(spec_number_lits(full.skip(i as int)) == seq![tokv]
                            + spec_number_lits(full.skip(i + 2)));
                    }
                    merged = true;
                },
                _ => {},
            }
        }
        if merged {
            proof {
                assert(view_tokens(prev) + spec_number_lits(full.skip(i as int)) =~= view_tokens(
                    out@,
                ) + spec_number_lits(full.skip(i + 2)));
            }
            i += 2;
        } else {
            match &ts[i] {
                Token::Number(d) => {
                    out.push(Token::Type(Type::NumLit(copy_bytes(d))));
                },
                _ => {
                    out.push(copy_token(&ts[i]));
                },
            }
            proof {
                assert(view_tokens(out@) =~= view_tokens(prev) + view_tokens(
                    out@.skip(prev.len() as int),
                ));
                assert(view_tokens(prev) + spec_number_lits(full.skip(i as int)) =~= view_tokens(
                    out@,
                ) + spec_number_lits(full.skip(i + 1)));
            }
            i += 1;
        }
    }
    proof {
        assert(full.skip(n as int) =~= Seq::<TokenV>::empty());
        assert(spec_number_lits(full) =~= view_tokens(out@));
    }
    out
}

fn drop_undefined(ts: &Vec<Token>) -> (out: Vec<Token>)
    ensures
        view_tokens(out@) == spec_drop_undefined(view_tokens(ts@)),
{
    let ghost full = view_tokens(ts@);
    let n = ts.len();
    let mut out: Vec<Token> = Vec::new();
    let mut i: usize = 0;
    proof {
        assert(full.skip(0) =~= full);
    }
    while i < n
        invariant
            n == ts@.len(),
            full == view_tokens(ts@),
            i <= n,
            spec_drop_undefined(full) == view_tokens(out@) + spec_drop_undefined(
                full.skip(i as int),
            ),
        decreases n - i,
    {
        let ghost prev = out@;
        proof {
            assert(full.skip(i as int).drop_first() =~= full.skip(i + 1));
            assert(full.skip(i as int)[0] == full[i as int]);
        }
        if !matches!(&ts[i], Token::Undefined(_)) {
            out.push(copy_token(&ts[i]));
            proof {
                assert(view_tokens(out@) =~= view_tokens(prev) + seq![full[i as int]]);
            }
        }
        proof {
            assert(view_tokens(prev) + spec_drop_undefined(full.skip(i as int)) =~= view_tokens(
                out@,
            ) + spec_drop_undefined(full.skip(i + 1)));
        }
        i += 1;
    }
    proof {
        assert(full.skip(n as int) =~= Seq::<TokenV>::empty());
        assert(spec_drop_undefined(full) =~= view_tokens(out@));
    }
    out
}

fn normalize_braces(ts: &Vec<Token>) -> (out: Vec<Token>)
    ensures
        view_tokens(out@) == spec_normalize_braces(view_tokens(ts@)),
{
    let ghost full = view_tokens(ts@);
    let n = ts.len();
    let mut out: Vec<Token> = Vec::new();
    let mut i: usize = 0;
    proof {
        assert(full.skip(0) =~= full);
    }
    while i < n
        invariant
            n == ts@.len(),
            full == view_tokens(ts@),
            i <= n,
            spec_normalize_braces(full) == view_tokens(out@) + spec_normalize_braces(
                full.skip(i as int),
            ),
        decreases n - i,
    {
        let ghost prev = out@;
        proof {
            assert(full.skip(i as int).drop_first() =~= full.skip(i + 1));
            assert(full.skip(i as int)[0] == full[i as int]);
        }
        if matches!(&ts[i], Token::Type(Type::Punct(Punct::LBrace))) {
            out.push(copy_token(&ts[i]));
            let mut j = i + 1;
            while j < n && matches!(&ts[j], Token::EOE)
                invariant
                    n == ts@.len(),
                    full == view_tokens(ts@),
                    i + 1 <= j <= n,
                    spec_skip_eoes(full.skip(i + 1)) == spec_skip_eoes(full.skip(j as int)),
                decreases n - j,
            {
                proof {
                    assert(full.skip(j as int).drop_first() =~= full.skip(j + 1));
                    assert(full.skip(j as int)[0] == full[j as int]);
                }
                j += 1;
            }
            proof {
                if j < n {
                    assert(full.skip(j as int)[0] == full[j as int]);
                }
                assert(spec_skip_eoes(full.skip(j as int)) =~= full.skip(j as int));
                assert(view_tokens(out@) =~= view_tokens(prev) + seq![full[i as int]]);
            }
            i = j;
        } else if matches!(&ts[i], Token::Type(Type::Punct(Punct::RBrace))) {
            out.push(copy_token(&ts[i]));
            out.push(copy_token(&ts[i]));
            proof {
                assert(view_tokens(out@) =~= view_tokens(prev) + seq![
                    full[i as int],
                    full[i as int],
                ]);
                assert(view_tokens(prev) + spec_normalize_braces(full.skip(i as int))
                    =~= view_tokens(out@) + spec_normalize_braces(full.skip(i + 1)));
            }
            i += 1;
        } else {
            out.push(copy_token(&ts[i]));
            proof {
                assert(view_tokens(out@) =~= view_tokens(prev) + seq![full[i as int]]);
                assert(view_tokens(prev) + spec_normalize_braces(full.skip(i as int))
                    =~= view_tokens(out@) + spec_normalize_braces(full.skip(i + 1)));
            }
            i += 1;
        }
    }
    proof {
        assert(full.skip(n as int) =~= Seq::<TokenV>::empty());
        assert(spec_normalize_braces(full) =~= view_tokens(out@));
    }
    out
}

fn rbrace_eoe(ts: &Vec<Token>) -> (out: Vec<Token>)
    ensures
        view_tokens(out@) == spec_rbrace_eoe(view_tokens(ts@)),
{
    let ghost full = view_tokens(ts@);
    let n = ts.len();
    let mut out: Vec<Token> = Vec::new();
    let mut i: usize = 0;
    while i < n
        invariant
            n == ts@.len(),
            full == view_tokens(ts@),
            i <= n,
            out@.len() == i,
            forall|k: int|
                0 <= k < i ==> (#[trigger] out@[k])@ == (if full[k] == TokenV::Type(
                    TypeV::Punct(Punct::RBrace),
                ) {
                    TokenV::EOE
                } else {
                    full[k]
                }),
        decreases n - i,
    {
        if matches!(&ts[i], Token::Type(Type::Punct(Punct::RBrace))) {
            out.push(Token::EOE);
        } else {
            out.push(copy_token(&ts[i]));
        }
        i += 1;
    }
    proof {
        assert(view_tokens(out@) =~= spec_rbrace_eoe(full));
    }
    out
}

pub proof fn lemma_values_view_push(s: Seq<Value>, v: Value)
    ensures
        values_view(s.push(v)) == values_view(s).push(value_view(v)),
{
    lemma_values_view(s);
    lemma_values_view(s.push(v));
    assert(values_view(s.push(v)) =~= values_view(s).push(value_view(v)));
}

pub proof fn lemma_entries_view_push(s: Seq<Entry>, e: Entry)
    ensures
        entries_view(s.push(e)) == entries_view(s).push(entry_view(e)),
{
    lemma_entries_view(s);
    lemma_entries_view(s.push(e));
    assert(entries_view(s.push(e)) =~= entries_view(s).push(entry_view(e)));
}

/// Closes the topmost open entry into the one below it; with fewer than
/// two open entries the stack is left as it is.
fn stack_handle_remove(stack: &mut Vec<Entry>)
    ensures
        entries_view(final(stack)@) == spec_stack_remove(entries_view(old(stack)@)),
{
    proof {
        lemma_entries_view(stack@);
    }
    if stack.len() < 2 {
        return ;
    }
    let ghost os = entries_view(stack@);
    let child = stack.pop().unwrap();
    let mut parent = stack.pop().unwrap();
    let ghost pc = entry_view(parent).children;
    parent.value.push(Value::Entry(child));
    proof {
        lemma_values_view_push(parent.value@.drop_last(), Value::Entry(child));
        assert(parent.value@.drop_last() =~= old(stack)@[old(stack)@.len() - 2].value@);
        assert(entry_view(parent).children =~= pc.push(ValueV::Entry(os.last())));
    }
    stack.push(parent);
    proof {
        lemma_entries_view_push(old(stack)@.drop_last().drop_last(), parent);
        assert(entries_view(old(stack)@.drop_last().drop_last()) =~= os.take(os.len() - 2)) by {
            lemma_entries_view(old(stack)@.drop_last().drop_last());
            lemma_entries_view(old(stack)@);
        }
        assert(entries_view(stack@) =~= spec_stack_remove(os));
    }
}

/// Appends a leaf atom to the children of the topmost open entry.
fn add_type_value_to_last(stack: &mut Vec<Entry>, atom: &Type)
    requires
        old(stack)@.len() > 0,
    ensures
        entries_view(final(stack)@) == spec_push_atom(
            entries_view(old(stack)@),
            ValueV::Atom(atom@),
        ),
{
    proof {
        lemma_entries_view(stack@);
    }
    let ghost os = entries_view(stack@);
    let mut top = stack.pop().unwrap();
    let ghost tc = entry_view(top).children;
    top.value.push(Value::Type(copy_type(atom)));
    proof {
        lemma_values_view_push(top.value@.drop_last(), top.value@.last());
        assert(top.value@.drop_last() =~= old(stack)@.last().value@);
        assert(entry_view(top).children =~= tc.push(ValueV::Atom(atom@)));
    }
    stack.push(top);
    proof {
        lemma_entries_view_push(old(stack)@.drop_last(), top);
        assert(entries_view(old(stack)@.drop_last()) =~= os.drop_last()) by {
            lemma_entries_view(old(stack)@.drop_last());
            lemma_entries_view(old(stack)@);
        }
        assert(entries_view(stack@) =~= spec_push_atom(os, ValueV::Atom(atom@)));
    }
}

/// Parses a token stream into the ordered sequence of declared-type trees.
/// Fails, fatally for the whole run, when an `interface` keyword lacks a
/// name, when declarations nest, when a type form stands outside any
/// declaration, or when the input ends with more or fewer than one open
/// tree.
pub fn parse_interfaces(tokens: Vec<Token>) -> (r: Result<Vec<Entry>, CompileError>)
    ensures
        match r {
            Ok(v) => spec_parse_interfaces(view_tokens(tokens@)) == Ok::<_, CompileError>(
                entries_view(v@),
            ),
            Err(e) => spec_parse_interfaces(view_tokens(tokens@)) == Err::<Seq<EntryV>, _>(e),
        },
{
    let t1 = mark_keys(&tokens);
    let t2 = drop_any_unknown(&t1);
    let t3 = dedup_conn(&t2);
    let t4 = number_lits(&t3);
    let t5 = drop_undefined(&t4);
    let t6 = normalize_braces(&t5);
    let ts = rbrace_eoe(&t6);
    let ghost fullv = view_tokens(ts@);
    let n = ts.len();
    let mut stack: Vec<Entry> = Vec::new();
    let mut interfaces: Vec<Entry> = Vec::new();
    let mut i: usize = 0;
    proof {
        assert(entries_view(stack@) =~= Seq::<EntryV>::empty());
        assert(entries_view(interfaces@) =~= Seq::<EntryV>::empty());
    }
    while i < n
        invariant
            n == ts@.len(),
            fullv == view_tokens(ts@),
            i <= n,
            spec_parse_interfaces(view_tokens(tokens@)) == spec_build(
                fullv,
                i as int,
                entries_view(stack@),
                entries_view(interfaces@),
            ),
        decreases n - i,
    {
        let ghost previ = i as int;
        let ghost prev_stack = entries_view(stack@);
        let ghost prev_acc = entries_view(interfaces@);
        proof {
            lemma_entries_view(stack@);
            lemma_entries_view(interfaces@);
        }
        match &ts[i] {
            Token::Interface => {
                if stack.len() >= 2 {
                    return Err(CompileError::NestedInterface);
                }
                if i + 1 >= n {
                    return Err(CompileError::MissingInterfaceName);
                }
                match &ts[i + 1] {
                    Token::Id(s) => {
                        if stack.len() == 1 {
                            let done = stack.pop().unwrap();
                            proof {
                                lemma_entries_view_push(interfaces@, done);
                            }
                            interfaces.push(done);
                        }
                        let name = copy_bytes(s);
                        let entry = Entry { key: Key::Name(name), value: Vec::new() };
                        proof {
                            assert(values_view(entry.value@) =~= Seq::<ValueV>::empty());
                        }
                        stack.push(entry);
                        proof {
                            lemma_entries_view(stack@);
                            assert(entries_view(stack@) =~= seq![entry_view(stack@[0])]);
                        }
                        i = if n - i >= 3 {
                            i + 3
                        } else {
                            n
                        };
                        proof {
                            assert(spec_build(fullv, previ, prev_stack, prev_acc) == spec_build(
                                fullv,
                                i as int,
                                entries_view(stack@),
                                entries_view(interfaces@),
                            ));
                        }
                    },
                    _ => {
                        return Err(CompileError::MissingInterfaceName);
                    },
                }
            },
            Token::Key(s) => {
                let name = copy_bytes(s);
                let optional = i + 1 < n && matches!(&ts[i + 1], Token::QM);
                let entry = if optional {
                    Entry { key: Key::Optional(name), value: Vec::new() }
                } else {
                    Entry { key: Key::Name(name), value: Vec::new() }
                };
                proof {
                    assert(values_view(entry.value@) =~= Seq::<ValueV>::empty());
                }
                let ghost ev = entry_view(entry);
                let ghost sb = stack@;
                stack.push(entry);
                proof {
                    lemma_entries_view_push(sb, stack@.last());
                    assert(entries_view(stack@) == prev_stack.push(ev));
                }
                if optional {
                    i += 2;
                } else {
                    i += 1;
                }
                proof {
                    assert(spec_build(fullv, previ, prev_stack, prev_acc) == spec_build(
                        fullv,
                        i as int,
                        entries_view(stack@),
                        entries_view(interfaces@),
                    ));
                }
            },
            Token::Type(Type::Punct(Punct::LBrace)) => {
                let entry = Entry { key: Key::Anon, value: Vec::new() };
                proof {
                    assert(values_view(entry.value@) =~= Seq::<ValueV>::empty());
                }
                let ghost ev = entry_view(entry);
                let ghost sb = stack@;
                stack.push(entry);
                proof {
                    lemma_entries_view_push(sb, stack@.last());
                    assert(entries_view(stack@) == prev_stack.push(ev));
                }
                i += 1;
                proof {
                    assert(spec_build(fullv, previ, prev_stack, prev_acc) == spec_build(
                        fullv,
                        i as int,
                        entries_view(stack@),
                        entries_view(interfaces@),
                    ));
                }
            },
            Token::EOE => {
                stack_handle_remove(&mut stack);
                i += 1;
                proof {
                    assert(spec_build(fullv, previ, prev_stack, prev_acc) == spec_build(
                        fullv,
                        i as int,
                        entries_view(stack@),
                        entries_view(interfaces@),
                    ));
                }
            },
            Token::StrLit(sl) => {
                if stack.len() == 0 {
                    return Err(CompileError::ValueOutsideDeclaration);
                }
                let atom = Type::StrLit(copy_bytes(sl));
                add_type_value_to_last(&mut stack, &atom);
                i += 1;
                proof {
                    assert(spec_build(fullv, previ, prev_stack, prev_acc) == spec_build(
                        fullv,
                        i as int,
                        entries_view(stack@),
                        entries_view(interfaces@),
                    ));
                }
            },
            Token::Id(id) => {
                if stack.len() == 0 {
                    return Err(CompileError::ValueOutsideDeclaration);
                }
                let atom = Type::Custom(copy_bytes(id));
                add_type_value_to_last(&mut stack, &atom);
                i += 1;
                proof {
                    assert(spec_build(fullv, previ, prev_stack, prev_acc) == spec_build(
                        fullv,
                        i as int,
                        entries_view(stack@),
                        entries_view(interfaces@),
                    ));
                }
            },
            Token::Type(t) => {
                if stack.len() == 0 {
                    return Err(CompileError::ValueOutsideDeclaration);
                }
                add_type_value_to_last(&mut stack, t);
                i += 1;
                proof {
                    assert(spec_build(fullv, previ, prev_stack, prev_acc) == spec_build(
                        fullv,
                        i as int,
                        entries_view(stack@),
                        entries_view(interfaces@),
                    ));
                }
            },
            _ => {
                i += 1;
                proof {
                    assert(spec_build(fullv, previ, prev_stack, prev_acc) == spec_build(
                        fullv,
                        i as int,
                        entries_view(stack@),
                        entries_view(interfaces@),
                    ));
                }
            },
        }
    }
    if stack.len() == 1 {
        let ghost sv = entries_view(stack@);
        let ghost av = entries_view(interfaces@);
        proof {
            lemma_entries_view(stack@);
        }
        let done = stack.pop().unwrap();
        proof {
            lemma_entries_view_push(interfaces@, done);
        }
        interfaces.push(done);
        proof {
            assert(entries_view(interfaces@) == av.push(sv[0]));
            assert(spec_build(fullv, i as int, sv, av) == Ok::<_, CompileError>(av.push(sv[0])));
        }
        Ok(interfaces)
    } else {
        proof {
            lemma_entries_view(stack@);
        }
        Err(CompileError::UnbalancedDeclaration)
    }
}

/// The connective atom of an operator.
pub open spec fn conn_atom(op: Oper) -> ValueV {
    ValueV::Atom(TypeV::Oper(op))
}

/// The node key an operator folds into.
pub open spec fn key_of_op(op: Oper) -> KeyV {
    match op {
        Oper::And => KeyV::And,
        Oper::Or => KeyV::Or,
    }
}

/// The folding scan over one child sequence whose nested entries are
/// already folded: a connective at the very front or the very end is
/// dropped; any other connective folds the child before it and the child
/// after it into one binary node, which can itself stand to the left of
/// the next connective, so chains fold left-associatively.
pub open spec fn spec_fold_scan(op: Oper, out: Seq<ValueV>, rest: Seq<ValueV>) -> Seq<ValueV>
    decreases rest.len(),
{
    if rest.len() == 0 {
        out
    } else if rest[0] == conn_atom(op) {
        if out.len() == 0 {
            spec_fold_scan(op, out, rest.drop_first())
        } else if rest.len() == 1 {
            out
        } else {
            let node = ValueV::Entry(
                EntryV { key: key_of_op(op), children: seq![out.last(), rest[1]] },
            );
            spec_fold_scan(op, out.drop_last().push(node), rest.skip(2))
        }
    } else {
        spec_fold_scan(op, out.push(rest[0]), rest.drop_first())
    }
}

/// One child deep-folded: entries have the pass applied throughout, leaf
/// atoms are untouched.
pub open spec fn spec_fold_value(op: Oper, v: ValueV) -> ValueV
    decreases size_val(v), 0nat,
{
    match v {
        ValueV::Entry(e) => ValueV::Entry(
            EntryV { key: e.key, children: spec_fold_seq(op, e.children) },
        ),
        ValueV::Atom(_) => v,
    }
}

pub proof fn lemma_size_val_pos(v: ValueV)
    ensures
        size_val(v) >= 1,
{
    match v {
        ValueV::Atom(_) => {},
        ValueV::Entry(_) => {},
    }
}

/// Every child deep-folded, before the level's own scan runs.
pub open spec fn spec_fold_children(op: Oper, s: Seq<ValueV>) -> Seq<ValueV>
    decreases size_vals(s), 1nat via spec_fold_children_dec
{
    if s.len() == 0 {
        seq![]
    } else {
        seq![spec_fold_value(op, s[0])] + spec_fold_children(op, s.drop_first())
    }
}

/// A child sequence with one connective folded throughout: nested entries
/// first, then the level's own left-to-right scan.
pub open spec fn spec_fold_seq(op: Oper, s: Seq<ValueV>) -> Seq<ValueV>
    decreases size_vals(s), 2nat,
{
    spec_fold_scan(op, seq![], spec_fold_children(op, s))
}

/// A tree with one connective folded everywhere.
pub open spec fn spec_fold_entry(op: Oper, e: EntryV) -> EntryV {
    EntryV { key: e.key, children: spec_fold_seq(op, e.children) }
}

#[via_fn]
proof fn spec_fold_children_dec(op: Oper, s: Seq<ValueV>) {
    if s.len() > 0 {
        lemma_size_val_pos(s[0]);
    }
}

pub proof fn lemma_fold_children(op: Oper, s: Seq<ValueV>)
    ensures
        spec_fold_children(op, s).len() == s.len(),
        forall|i: int|
            0 <= i < s.len() ==> spec_fold_children(op, s)[i] == spec_fold_value(op, s[i]),
    decreases s,
{
    if s.len() > 0 {
        lemma_fold_children(op, s.drop_first());
    }
}

fn oper_key(op: Oper) -> (k: Key)
    ensures
        key_view(k) == key_of_op(op),
{
    match op {
        Oper::And => Key::And,
        Oper::Or => Key::Or,
    }
}

fn fold_value_exec(op: Oper, v: &Value) -> (r: Value)
    ensures
        r@ == spec_fold_value(op, v@),
    decreases size_val(v@), 0nat,
{
    match v {
        Value::Entry(e) => {
            let folded = fold_seq_exec(op, &e.value);
            Value::Entry(Entry { key: copy_key(&e.key), value: folded })
        },
        Value::Type(t) => Value::Type(copy_type(t)),
    }
}

fn fold_seq_exec(op: Oper, vs: &Vec<Value>) -> (r: Vec<Value>)
    ensures
        values_view(r@) == spec_fold_seq(op, values_view(vs@)),
    decreases size_vals(values_view(vs@)), 2nat,
{
    let ghost sv = values_view(vs@);
    proof {
        lemma_values_view(vs@);
    }
    // deep-fold every child first
    let mut deep: Vec<Value> = Vec::new();
    let mut i: usize = 0;
    while i < vs.len()
        invariant
            i <= vs@.len(),
            sv == values_view(vs@),
            sv.len() == vs@.len(),
            forall|k: int| 0 <= k < vs@.len() ==> sv[k] == value_view(vs@[k]),
            deep@.len() == i,
            forall|k: int| 0 <= k < i ==> value_view(#[trigger] deep@[k]) == spec_fold_value(
                op,
                sv[k],
            ),
        decreases vs@.len() - i,
    {
        proof {
            lemma_size_vals_index(sv, i as int);
        }
        deep.push(fold_value_exec(op, &vs[i]));
        i += 1;
    }
    let ghost deepv = values_view(deep@);
    proof {
        lemma_values_view(deep@);
        lemma_fold_children(op, sv);
        assert(deepv =~= spec_fold_children(op, sv));
    }
    // the level's own scan
    let mut out: Vec<Value> = Vec::new();
    let mut j: usize = 0;
    proof {
        assert(values_view(out@) =~= Seq::<ValueV>::empty());
        assert(deepv.skip(0) =~= deepv);
    }
    while j < deep.len()
        invariant
            j <= deep@.len(),
            deepv == values_view(deep@),
            deepv.len() == deep@.len(),
            forall|k: int| 0 <= k < deep@.len() ==> deepv[k] == value_view(deep@[k]),
            spec_fold_scan(op, values_view(out@), deepv.skip(j as int)) == spec_fold_scan(
                op,
                seq![],
                deepv,
            ),
        decreases deep@.len() - j,
    {
        let ghost prev_out = values_view(out@);
        proof {
            assert(deepv.skip(j as int)[0] == deepv[j as int]);
            assert(deepv.skip(j as int).drop_first() =~= deepv.skip(j + 1));
        }
        let is_this_conn = match &deep[j] {
            Value::Type(Type::Oper(o)) => matches!(op, Oper::And) == matches!(o, Oper::And),
            _ => false,
        };
        proof {
            assert(is_this_conn == (deepv[j as int] == conn_atom(op)));
        }
        if is_this_conn {
            if out.len() == 0 {
                proof {
                    lemma_values_view(out@);
                }
                j += 1;
            } else if j + 1 == deep.len() {
                proof {
                    lemma_values_view(out@);
                    assert(deepv.skip(j as int).len() == 1);
                }
                j += 1;
                proof {
                    assert(deepv.skip(j as int) =~= Seq::<ValueV>::empty());
                }
            } else {
                let ghost oldout = out@;
                proof {
                    lemma_values_view(oldout);
                    assert(deepv.skip(j as int).skip(2) =~= deepv.skip(j + 2));
                    assert(deepv.skip(j as int)[1] == deepv[j + 1]);
                }
                let prev = out.pop().unwrap();
                let ghost prevv = prev@;
                let nxt = copy_value(&deep[j + 1]);
                let ghost nxtv = nxt@;
                let kids = vec![prev, nxt];
                proof {
                    lemma_values_view(kids@);
                    assert(value_view(kids@[0]) == prevv);
                    assert(value_view(kids@[1]) == nxtv);
                    assert(values_view(kids@) =~= seq![prevv, nxtv]);
                    assert(prevv == prev_out.last());
                    assert(nxtv == deepv[j + 1]);
                }
                let node = Value::Entry(Entry { key: oper_key(op), value: kids });
                let ghost nodev = node@;
                proof {
                    assert(nodev == ValueV::Entry(
                        EntryV { key: key_of_op(op), children: seq![prevv, nxtv] },
                    ));
                }
                out.push(node);
                proof {
                    lemma_values_view(out@);
                    lemma_values_view(oldout.drop_last());
                    assert(out@ =~= oldout.drop_last().push(out@.last()));
                    assert(values_view(out@) =~= prev_out.drop_last().push(nodev));
                    assert(spec_fold_scan(op, prev_out, deepv.skip(j as int)) == spec_fold_scan(
                        op,
                        values_view(out@),
                        deepv.skip(j + 2),
                    ));
                }
                j += 2;
            }
        } else {
            let ghost oldout = out@;
            proof {
                lemma_values_view(oldout);
            }
            out.push(copy_value(&deep[j]));
            proof {
                lemma_values_view(out@);
                assert(values_view(out@) =~= prev_out.push(deepv[j as int]));
            }
            j += 1;
        }
    }
    proof {
        assert(deepv.skip(deep@.len() as int) =~= Seq::<ValueV>::empty());
    }
    out
}

/// Folds every conjunction connective, throughout the tree, into binary
/// `And` nodes; nested entries are folded before the level that holds them.
pub fn parse_and(entry: &mut Entry)
    ensures
        final(entry)@ == spec_fold_entry(Oper::And, old(entry)@),
{
    let folded = fold_seq_exec(Oper::And, &entry.value);
    entry.value = folded;
}

/// Folds every disjunction connective, throughout the tree, into binary
/// `Or` nodes; nested entries are folded before the level that holds them.
pub fn parse_or(entry: &mut Entry)
    ensures
        final(entry)@ == spec_fold_entry(Oper::Or, old(entry)@),
{
    let folded = fold_seq_exec(Oper::Or, &entry.value);
    entry.value = folded;
}

/// The atom form of a punctuation byte.
pub open spec fn punct_atom(p: Punct) -> ValueV {
    ValueV::Atom(TypeV::Punct(p))
}

/// The position of the closing punctuation that balances `depth` open
/// ones, scanning from `j`; `None` when the sequence ends first.
pub open spec fn spec_find_close(
    s: Seq<ValueV>,
    j: int,
    depth: int,
    open_p: Punct,
    close_p: Punct,
) -> Option<int>
    decreases s.len() - j when 0 <= j <= s.len()
{
    if j >= s.len() {
        None
    } else if s[j] == punct_atom(open_p) {
        spec_find_close(s, j + 1, depth + 1, open_p, close_p)
    } else if s[j] == punct_atom(close_p) {
        if depth == 1 {
            Some(j)
        } else {
            spec_find_close(s, j + 1, depth - 1, open_p, close_p)
        }
    } else {
        spec_find_close(s, j + 1, depth, open_p, close_p)
    }
}

pub proof fn lemma_find_close_bounds(
    s: Seq<ValueV>,
    j: int,
    depth: int,
    open_p: Punct,
    close_p: Punct,
)
    requires
        0 <= j <= s.len(),
        spec_find_close(s, j, depth, open_p, close_p) is Some,
    ensures
        j <= spec_find_close(s, j, depth, open_p, close_p).unwrap() < s.len(),
        s[spec_find_close(s, j, depth, open_p, close_p).unwrap()] == punct_atom(close_p),
    decreases s.len() - j,
{
    if j < s.len() {
        if s[j] == punct_atom(open_p) {
            lemma_find_close_bounds(s, j + 1, depth + 1, open_p, close_p);
        } else if s[j] == punct_atom(close_p) {
            if depth != 1 {
                lemma_find_close_bounds(s, j + 1, depth - 1, open_p, close_p);
            }
        } else {
            lemma_find_close_bounds(s, j + 1, depth, open_p, close_p);
        }
    }
}

pub proof fn lemma_size_vals_singleton(v: ValueV)
    ensures
        size_vals(seq![v]) == size_val(v),
{
    assert(seq![v].drop_first() =~= Seq::<ValueV>::empty());
    assert(size_vals(Seq::<ValueV>::empty()) == 0);
    assert(seq![v][0] == v);
}

pub proof fn lemma_size_vals_split3(s: Seq<ValueV>, a: int, b: int)
    requires
        0 <= a <= b <= s.len(),
    ensures
        size_vals(s) == size_vals(s.subrange(0, a)) + size_vals(s.subrange(a, b)) + size_vals(
            s.subrange(b, s.len() as int),
        ),
{
    assert(s =~= (s.subrange(0, a) + s.subrange(a, b)) + s.subrange(b, s.len() as int));
    lemma_size_vals_concat(s.subrange(0, a) + s.subrange(a, b), s.subrange(b, s.len() as int));
    lemma_size_vals_concat(s.subrange(0, a), s.subrange(a, b));
}

/// The bound used to justify recursing into a freshly built group: the
/// group node is strictly smaller than a sequence that still holds its
/// contents plus the two punctuation atoms around them.
pub proof fn lemma_group_smaller(s: Seq<ValueV>, j: int)
    requires
        0 <= 1 <= j < s.len(),
        size_val(s[0]) == 1,
        size_val(s[j]) == 1,
    ensures
        1 + size_vals(s.subrange(1, j)) < size_vals(s),
        size_vals(s.skip(j + 1)) < size_vals(s),
        size_vals(s.subrange(1, j)) < size_vals(s),
    decreases 0int,
{
    lemma_size_vals_split3(s, 1, j);
    assert(s.subrange(0, 1) =~= seq![s[0]]);
    lemma_size_vals_singleton(s[0]);
    lemma_size_vals_split3(s.subrange(j, s.len() as int), 1, 1);
    assert(s.subrange(j, s.len() as int).subrange(0, 1) =~= seq![s[j]]);
    lemma_size_vals_singleton(s[j]);
    assert(s.subrange(j, s.len() as int).subrange(
        1,
        s.subrange(j, s.len() as int).len() as int,
    ) =~= s.skip(j + 1));
    lemma_size_vals_split3(s, j, s.len() as int);
}

/// One child with every parenthesized group wrapped, throughout.
pub open spec fn spec_paren_value(v: ValueV) -> ValueV
    decreases size_val(v), 0nat,
{
    match v {
        ValueV::Entry(e) => ValueV::Entry(
            EntryV { key: e.key, children: spec_paren_seq(e.children) },
        ),
        ValueV::Atom(_) => v,
    }
}

/// A child sequence with every parenthesized span replaced by one
/// transparent `Paren` node over its raw contents, resolved from the
/// outside in; an opening parenthesis with no match is left in place.
pub open spec fn spec_paren_seq(s: Seq<ValueV>) -> Seq<ValueV>
    decreases size_vals(s), 1nat via spec_paren_seq_dec
{
    if s.len() == 0 {
        seq![]
    } else if s[0] == punct_atom(Punct::LPar) {
        match spec_find_close(s, 1, 1, Punct::LPar, Punct::RPar) {
            Some(j) => seq![
                spec_paren_value(
                    ValueV::Entry(EntryV { key: KeyV::Paren, children: s.subrange(1, j) }),
                ),
            ] + spec_paren_seq(s.skip(j + 1)),
            None => seq![s[0]] + spec_paren_seq(s.drop_first()),
        }
    } else {
        seq![spec_paren_value(s[0])] + spec_paren_seq(s.drop_first())
    }
}

#[via_fn]
proof fn spec_paren_seq_dec(s: Seq<ValueV>) {
    if s.len() > 0 {
        lemma_size_val_pos(s[0]);
        if s[0] == punct_atom(Punct::LPar) {
            let found = spec_find_close(s, 1, 1, Punct::LPar, Punct::RPar);
            if found is Some {
                let j = found.unwrap();
                lemma_find_close_bounds(s, 1, 1, Punct::LPar, Punct::RPar);
                lemma_group_smaller(s, j);
            }
        }
    }
}

/// A tree with every parenthesized group wrapped.
pub open spec fn spec_paren_entry(e: EntryV) -> EntryV {
    EntryV { key: e.key, children: spec_paren_seq(e.children) }
}

pub proof fn lemma_shift_find_close(
    s: Seq<ValueV>,
    base: int,
    j: int,
    depth: int,
    open_p: Punct,
    close_p: Punct,
)
    requires
        0 <= base <= j <= s.len(),
    ensures
        match spec_find_close(s.skip(base), j - base, depth, open_p, close_p) {
            Some(j2) => spec_find_close(s, j, depth, open_p, close_p) == Some(j2 + base),
            None => spec_find_close(s, j, depth, open_p, close_p) is None,
        },
    decreases s.len() - j,
{
    assert(s.skip(base).len() == s.len() - base);
    if j < s.len() {
        assert(s.skip(base)[j - base] == s[j]);
        if s[j] == punct_atom(open_p) {
            lemma_shift_find_close(s, base, j + 1, depth + 1, open_p, close_p);
        } else if s[j] == punct_atom(close_p) {
            if depth != 1 {
                lemma_shift_find_close(s, base, j + 1, depth - 1, open_p, close_p);
            }
        } else {
            lemma_shift_find_close(s, base, j + 1, depth, open_p, close_p);
        }
    }
}

fn punct_of(v: &Value) -> (r: Option<Punct>)
    ensures
        match r {
            Some(p) => value_view(*v) == punct_atom(p),
            None => forall|p: Punct| value_view(*v) != punct_atom(p),
        },
{
    match v {
        Value::Type(Type::Punct(p)) => Some(*p),
        _ => None,
    }
}

fn find_close_exec(vs: &Vec<Value>, start: usize, open_p: Punct, close_p: Punct) -> (r: Option<
    usize,
>)
    requires
        start <= vs@.len(),
    ensures
        match r {
            Some(j) => spec_find_close(values_view(vs@), start as int, 1, open_p, close_p)
                == Some(j as int) && start <= j < vs@.len(),
            None => spec_find_close(values_view(vs@), start as int, 1, open_p, close_p) is None,
        },
{
    let ghost sv = values_view(vs@);
    proof {
        lemma_values_view(vs@);
    }
    let mut j = start;
    let mut depth: u128 = 1;
    while j < vs.len()
        invariant
            start <= j <= vs@.len(),
            sv == values_view(vs@),
            sv.len() == vs@.len(),
            forall|k: int| 0 <= k < vs@.len() ==> sv[k] == value_view(vs@[k]),
            depth >= 1,
            depth <= 1 + (j - start),
            spec_find_close(sv, start as int, 1, open_p, close_p) == spec_find_close(
                sv,
                j as int,
                depth as int,
                open_p,
                close_p,
            ),
        decreases vs@.len() - j,
    {
        match punct_of(&vs[j]) {
            Some(p) => {
                if p == open_p {
                    depth += 1;
                } else if p == close_p {
                    if depth == 1 {
                        return Some(j);
                    }
                    depth -= 1;
                }
            },
            None => {},
        }
        j += 1;
    }
    None
}

/// Copies of the children in positions `from..to`.
pub fn copy_values_range(vs: &Vec<Value>, from: usize, to: usize) -> (r: Vec<Value>)
    requires
        from <= to <= vs@.len(),
    ensures
        values_view(r@) == values_view(vs@).subrange(from as int, to as int),
{
    proof {
        lemma_values_view(vs@);
    }
    let mut r: Vec<Value> = Vec::new();
    let mut i = from;
    while i < to
        invariant
            from <= i <= to <= vs@.len(),
            r@.len() == i - from,
            forall|k: int| 0 <= k < r@.len() ==> value_view(#[trigger] r@[k]) == value_view(
                vs@[from + k],
            ),
        decreases to - i,
    {
        r.push(copy_value(&vs[i]));
        i += 1;
    }
    proof {
        lemma_values_view(r@);
        lemma_values_view(vs@);
        assert(values_view(r@) =~= values_view(vs@).subrange(from as int, to as int));
    }
    r
}

fn paren_value_exec(v: &Value) -> (r: Value)
    ensures
        r@ == spec_paren_value(v@),
    decreases size_val(v@), 0nat,
{
    match v {
        Value::Entry(e) => {
            let grouped = paren_seq_exec(&e.value);
            Value::Entry(Entry { key: copy_key(&e.key), value: grouped })
        },
        Value::Type(t) => Value::Type(copy_type(t)),
    }
}

fn paren_seq_exec(vs: &Vec<Value>) -> (r: Vec<Value>)
    ensures
        values_view(r@) == spec_paren_seq(values_view(vs@)),
    decreases size_vals(values_view(vs@)), 1nat,
{
    let ghost sv = values_view(vs@);
    proof {
        lemma_values_view(vs@);
    }
    let mut out: Vec<Value> = Vec::new();
    let mut i: usize = 0;
    proof {
        assert(values_view(out@) =~= Seq::<ValueV>::empty());
        assert(sv.skip(0) =~= sv);
    }
    while i < vs.len()
        invariant
            i <= vs@.len(),
            sv == values_view(vs@),
            sv.len() == vs@.len(),
            forall|k: int| 0 <= k < vs@.len() ==> sv[k] == value_view(vs@[k]),
            spec_paren_seq(sv) == values_view(out@) + spec_paren_seq(sv.skip(i as int)),
            size_vals(sv.skip(i as int)) <= size_vals(sv),
        decreases vs@.len() - i,
    {
        let ghost prev_out = values_view(out@);
        let ghost cur = sv.skip(i as int);
        proof {
            lemma_values_view(out@);
            assert(cur[0] == sv[i as int]);
            assert(cur.drop_first() =~= sv.skip(i + 1));
        }
        let is_lpar = matches!(&vs[i], Value::Type(Type::Punct(Punct::LPar)));
        let mut handled = false;
        if is_lpar {
            // a match is sought relative to the suffix the model scans
            match find_close_exec(vs, i + 1, Punct::LPar, Punct::RPar) {
                Some(j) => {
                    proof {
                        lemma_shift_find_close(sv, i as int, i + 1, 1, Punct::LPar, Punct::RPar);
                        lemma_find_close_bounds(cur, 1, 1, Punct::LPar, Punct::RPar);
                        assert(cur.subrange(1, (j - i) as int) =~= sv.subrange(i + 1, j as int));
                        assert(cur.skip((j - i) + 1) =~= sv.skip(j + 1));
                        lemma_size_val_pos(cur[0]);
                        lemma_group_smaller(cur, (j - i) as int);
                        lemma_size_vals_subrange(sv, i as int, sv.len() as int);
                    }
                    let kids = copy_values_range(vs, i + 1, j);
                    let gv = Value::Entry(Entry { key: Key::Paren, value: kids });
                    proof {
                        assert(gv@ == ValueV::Entry(
                            EntryV { key: KeyV::Paren, children: cur.subrange(1, (j - i) as int) },
                        ));
                    }
                    let pv = paren_value_exec(&gv);
                    out.push(pv);
                    proof {
                        lemma_values_view(out@);
                        assert(values_view(out@) =~= prev_out.push(
                            spec_paren_value(
                                ValueV::Entry(
                                    EntryV {
                                        key: KeyV::Paren,
                                        children: cur.subrange(1, (j - i) as int),
                                    },
                                ),
                            ),
                        ));
                        assert(spec_paren_seq(cur) == seq![
                            spec_paren_value(
                                ValueV::Entry(
                                    EntryV {
                                        key: KeyV::Paren,
                                        children: cur.subrange(1, (j - i) as int),
                                    },
                                ),
                            ),
                        ] + spec_paren_seq(cur.skip((j - i) + 1)));
                        assert(values_view(out@) + spec_paren_seq(sv.skip(j + 1)) =~= prev_out
                            + spec_paren_seq(cur));
                        lemma_size_vals_subrange(sv, j + 1, sv.len() as int);
                        assert(sv.skip(j + 1) =~= sv.subrange(j + 1, sv.len() as int));
                    }
                    i = j + 1;
                    handled = true;
                },
                None => {
                    proof {
                        lemma_shift_find_close(sv, i as int, i + 1, 1, Punct::LPar, Punct::RPar);
                    }
                },
            }
        }
        if !handled {
            proof {
                lemma_size_vals_index(sv, i as int);
                lemma_size_vals_subrange(sv, i as int, sv.len() as int);
            }
            let pv = paren_value_exec(&vs[i]);
            out.push(pv);
            proof {
                lemma_values_view(out@);
                assert(values_view(out@) =~= prev_out.push(spec_paren_value(sv[i as int])));
                if sv[i as int] == punct_atom(Punct::LPar) {
                    assert(spec_paren_value(sv[i as int]) == sv[i as int]);
                    assert(spec_paren_seq(cur) == seq![cur[0]] + spec_paren_seq(cur.drop_first()));
                } else {
                    assert(spec_paren_seq(cur) == seq![spec_paren_value(cur[0])] + spec_paren_seq(
                        cur.drop_first(),
                    ));
                }
                assert(values_view(out@) + spec_paren_seq(sv.skip(i + 1)) =~= prev_out
                    + spec_paren_seq(cur));
                lemma_size_vals_subrange(sv, i + 1, sv.len() as int);
                assert(sv.skip(i + 1) =~= sv.subrange(i + 1, sv.len() as int));
            }
            i += 1;
        }
    }
    proof {
        assert(sv.skip(vs@.len() as int) =~= Seq::<ValueV>::empty());
    }
    out
}

/// Wraps every parenthesized group, throughout the tree, in a transparent
/// `Paren` node, outermost groups first; an opening parenthesis with no
/// match is left where it stands.
pub fn parse_parens(entry: &mut Entry)
    ensures
        final(entry)@ == spec_paren_entry(old(entry)@),
{
    let grouped = paren_seq_exec(&entry.value);
    entry.value = grouped;
}

/// One child with every tuple form grouped, throughout.
pub open spec fn spec_tuple_value(v: ValueV) -> Result<ValueV, CompileError>
    decreases size_val(v), 0nat,
{
    match v {
        ValueV::Entry(e) => match spec_tuple_seq(e.children) {
            Ok(c) => Ok(ValueV::Entry(EntryV { key: e.key, children: c })),
            Err(er) => Err(er),
        },
        ValueV::Atom(_) => Ok(v),
    }
}

/// A child sequence with every bracketed span that is not an array suffix
/// replaced by one `Tuple` node over its raw contents. An adjacent `[` `]`
/// pair is left for the array pass; an opening bracket with no match is
/// left in place, except at the very end of the sequence, where the
/// look-ahead the grammar requires is missing and the run fails.
pub open spec fn spec_tuple_seq(s: Seq<ValueV>) -> Result<Seq<ValueV>, CompileError>
    decreases size_vals(s), 1nat via spec_tuple_seq_dec
{
    if s.len() == 0 {
        Ok(seq![])
    } else if s[0] == punct_atom(Punct::LBrack) {
        if s.len() == 1 {
            Err(CompileError::UnmatchedBracket)
        } else if s[1] == punct_atom(Punct::RBrack) {
            match spec_tuple_seq(s.skip(2)) {
                Ok(r) => Ok(seq![s[0], s[1]] + r),
                Err(er) => Err(er),
            }
        } else {
            match spec_find_close(s, 1, 1, Punct::LBrack, Punct::RBrack) {
                Some(j) => match spec_tuple_value(
                    ValueV::Entry(EntryV { key: KeyV::Tuple, children: s.subrange(1, j) }),
                ) {
                    Ok(g) => match spec_tuple_seq(s.skip(j + 1)) {
                        Ok(r) => Ok(seq![g] + r),
                        Err(er) => Err(er),
                    },
                    Err(er) => Err(er),
                },
                None => match spec_tuple_seq(s.drop_first()) {
                    Ok(r) => Ok(seq![s[0]] + r),
                    Err(er) => Err(er),
                },
            }
        }
    } else {
        match spec_tuple_value(s[0]) {
            Ok(pv) => match spec_tuple_seq(s.drop_first()) {
                Ok(r) => Ok(seq![pv] + r),
                Err(er) => Err(er),
            },
            Err(er) => Err(er),
        }
    }
}

#[via_fn]
proof fn spec_tuple_seq_dec(s: Seq<ValueV>) {
    if s.len() > 0 {
        lemma_size_val_pos(s[0]);
        if s[0] == punct_atom(Punct::LBrack) && s.len() >= 2 {
            lemma_size_val_pos(s[1]);
            if s[1] == punct_atom(Punct::RBrack) {
                lemma_size_vals_split3(s, 2, s.len() as int);
                lemma_size_vals_split3(s.subrange(0, 2), 1, 2);
                assert(s.subrange(0, 2).subrange(1, 2) =~= seq![s[1]]);
                assert(s.subrange(0, 2).subrange(0, 1) =~= seq![s[0]]);
                lemma_size_vals_singleton(s[0]);
                lemma_size_vals_singleton(s[1]);
                assert(s.subrange(2, s.len() as int) =~= s.skip(2));
            } else {
                let found = spec_find_close(s, 1, 1, Punct::LBrack, Punct::RBrack);
                if found is Some {
                    let j = found.unwrap();
                    lemma_find_close_bounds(s, 1, 1, Punct::LBrack, Punct::RBrack);
                    lemma_group_smaller(s, j);
                }
            }
        }
    }
}

/// A tree with every tuple form grouped.
pub open spec fn spec_tuple_entry(e: EntryV) -> Result<EntryV, CompileError> {
    match spec_tuple_seq(e.children) {
        Ok(c) => Ok(EntryV { key: e.key, children: c }),
        Err(er) => Err(er),
    }
}

fn tuple_value_exec(v: &Value) -> (r: Result<Value, CompileError>)
    ensures
        match r {
            Ok(nv) => spec_tuple_value(v@) == Ok::<_, CompileError>(nv@),
            Err(e) => spec_tuple_value(v@) == Err::<ValueV, _>(e),
        },
    decreases size_val(v@), 0nat,
{
    match v {
        Value::Entry(e) => {
            match tuple_seq_exec(&e.value) {
                Ok(c) => Ok(Value::Entry(Entry { key: copy_key(&e.key), value: c })),
                Err(er) => Err(er),
            }
        },
        Value::Type(t) => Ok(Value::Type(copy_type(t))),
    }
}

fn tuple_seq_exec(vs: &Vec<Value>) -> (r: Result<Vec<Value>, CompileError>)
    ensures
        match r {
            Ok(nv) => spec_tuple_seq(values_view(vs@)) == Ok::<_, CompileError>(values_view(nv@)),
            Err(e) => spec_tuple_seq(values_view(vs@)) == Err::<Seq<ValueV>, _>(e),
        },
    decreases size_vals(values_view(vs@)), 1nat,
{
    let ghost sv = values_view(vs@);
    proof {
        lemma_values_view(vs@);
    }
    let mut out: Vec<Value> = Vec::new();
    let mut i: usize = 0;
    proof {
        assert(values_view(out@) =~= Seq::<ValueV>::empty());
        assert(sv.skip(0) =~= sv);
    }
    while i < vs.len()
        invariant
            i <= vs@.len(),
            sv == values_view(vs@),
            sv.len() == vs@.len(),
            forall|k: int| 0 <= k < vs@.len() ==> sv[k] == value_view(vs@[k]),
            size_vals(sv.skip(i as int)) <= size_vals(sv),
            spec_tuple_seq(sv) == (match spec_tuple_seq(sv.skip(i as int)) {
                Ok(r) => Ok::<Seq<ValueV>, CompileError>(values_view(out@) + r),
                Err(e) => Err(e),
            }),
        decreases vs@.len() - i,
    {
        let ghost prev_out = values_view(out@);
        let ghost cur = sv.skip(i as int);
        proof {
            lemma_values_view(out@);
            assert(cur[0] == sv[i as int]);
            assert(cur.drop_first() =~= sv.skip(i + 1));
            if i + 1 < vs@.len() {
                assert(cur[1] == sv[i + 1]);
            }
        }
        let is_lbrack = matches!(&vs[i], Value::Type(Type::Punct(Punct::LBrack)));
        if is_lbrack {
            if i + 1 == vs.len() {
                return Err(CompileError::UnmatchedBracket);
            }
            if matches!(&vs[i + 1], Value::Type(Type::Punct(Punct::RBrack))) {
                out.push(copy_value(&vs[i]));
                out.push(copy_value(&vs[i + 1]));
                proof {
                    lemma_values_view(out@);
                    assert(values_view(out@) =~= prev_out + seq![cur[0], cur[1]]);
                    assert(cur.skip(2) =~= sv.skip(i + 2));
                    lemma_size_vals_subrange(sv, i + 2, sv.len() as int);
                    assert(sv.skip(i + 2) =~= sv.subrange(i + 2, sv.len() as int));
                    match spec_tuple_seq(sv.skip(i + 2)) {
                        Ok(rr) => {
                            assert(values_view(out@) + rr =~= prev_out + (seq![cur[0], cur[1]]
                                + rr));
                        },
                        Err(_) => {},
                    }
                }
                i += 2;
                continue ;
            }
            match find_close_exec(vs, i + 1, Punct::LBrack, Punct::RBrack) {
                Some(j) => {
                    proof {
                        lemma_shift_find_close(sv, i as int, i + 1, 1, Punct::LBrack, Punct::RBrack);
                        lemma_find_close_bounds(cur, 1, 1, Punct::LBrack, Punct::RBrack);
                        assert(cur.subrange(1, (j - i) as int) =~= sv.subrange(i + 1, j as int));
                        assert(cur.skip((j - i) + 1) =~= sv.skip(j + 1));
                        lemma_size_val_pos(cur[0]);
                        lemma_group_smaller(cur, (j - i) as int);
                        lemma_size_vals_subrange(sv, i as int, sv.len() as int);
                    }
                    let kids = copy_values_range(vs, i + 1, j);
                    let gv = Value::Entry(Entry { key: Key::Tuple, value: kids });
                    proof {
                        assert(gv@ == ValueV::Entry(
                            EntryV { key: KeyV::Tuple, children: cur.subrange(1, (j - i) as int) },
                        ));
                    }
                    match tuple_value_exec(&gv) {
                        Ok(pv) => {
                            let ghost pvv = pv@;
                            out.push(pv);
                            proof {
                                lemma_values_view(out@);
                                assert(values_view(out@) =~= prev_out.push(pvv));
                                lemma_size_vals_subrange(sv, j + 1, sv.len() as int);
                                assert(sv.skip(j + 1) =~= sv.subrange(j + 1, sv.len() as int));
                                match spec_tuple_seq(sv.skip(j + 1)) {
                                    Ok(rr) => {
                                        assert(values_view(out@) + rr =~= prev_out + (seq![pvv]
                                            + rr));
                                    },
                                    Err(_) => {},
                                }
                            }
                            i = j + 1;
                        },
                        Err(er) => {
                            return Err(er);
                        },
                    }
                },
                None => {
                    proof {
                        lemma_shift_find_close(sv, i as int, i + 1, 1, Punct::LBrack, Punct::RBrack);
                        lemma_size_vals_subrange(sv, i + 1, sv.len() as int);
                        assert(sv.skip(i + 1) =~= sv.subrange(i + 1, sv.len() as int));
                    }
                    out.push(copy_value(&vs[i]));
                    proof {
                        lemma_values_view(out@);
                        assert(values_view(out@) =~= prev_out.push(cur[0]));
                        match spec_tuple_seq(sv.skip(i + 1)) {
                            Ok(rr) => {
                                assert(values_view(out@) + rr =~= prev_out + (seq![cur[0]] + rr));
                            },
                            Err(_) => {},
                        }
                    }
                    i += 1;
                },
            }
        } else {
            proof {
                lemma_size_vals_index(sv, i as int);
                lemma_size_vals_subrange(sv, i as int, sv.len() as int);
            }
            match tuple_value_exec(&vs[i]) {
                Ok(pv) => {
                    let ghost pvv = pv@;
                    out.push(pv);
                    proof {
                        lemma_values_view(out@);
                        assert(values_view(out@) =~= prev_out.push(pvv));
                        lemma_size_vals_subrange(sv, i + 1, sv.len() as int);
                        assert(sv.skip(i + 1) =~= sv.subrange(i + 1, sv.len() as int));
                        match spec_tuple_seq(sv.skip(i + 1)) {
                            Ok(rr) => {
                                assert(values_view(out@) + rr =~= prev_out + (seq![pvv] + rr));
                            },
                            Err(_) => {},
                        }
                    }
                    i += 1;
                },
                Err(er) => {
                    return Err(er);
                },
            }
        }
    }
    proof {
        assert(sv.skip(vs@.len() as int) =~= Seq::<ValueV>::empty());
    }
    Ok(out)
}

/// Groups every bracketed tuple form, throughout the tree, into a `Tuple`
/// node over its raw contents; adjacent `[` `]` pairs are left for the
/// array-suffix pass. Fails when an opening bracket stands at the very
/// end of a child sequence.
pub fn parse_tuples(entry: &mut Entry) -> (r: Result<(), CompileError>)
    ensures
        match r {
            Ok(_) => spec_tuple_entry(old(entry)@) == Ok::<_, CompileError>(final(entry)@),
            Err(e) => spec_tuple_entry(old(entry)@) == Err::<EntryV, _>(e) && final(entry)@ == old(
                entry,
            )@,
        },
{
    match tuple_seq_exec(&entry.value) {
        Ok(c) => {
            entry.value = c;
            Ok(())
        },
        Err(er) => Err(er),
    }
}

/// The bytes of the recognized array type name.
pub open spec fn array_type_name() -> Seq<u8> {
    seq!['A' as u8, 'r' as u8, 'r' as u8, 'a' as u8, 'y' as u8]
}

/// The generic former a head name selects: the array former for the
/// recognized array type name, a named generic otherwise.
pub open spec fn spec_generic_kind(nm: Seq<u8>) -> GenericV {
    if nm == array_type_name() {
        GenericV::Array
    } else {
        GenericV::Custom(nm)
    }
}

/// A child sequence with every generic application `name<args>` replaced
/// by one `Generic` node over its grouped arguments, nested applications
/// grouped within. Fails when an argument list closes empty, or when an
/// opening angle bracket follows anything but a plain type name; one with
/// no closing bracket is left in place.
pub open spec fn spec_gen_seq(s: Seq<ValueV>) -> Result<Seq<ValueV>, CompileError>
    decreases size_vals(s) via spec_gen_seq_dec
{
    if s.len() < 2 {
        Ok(s)
    } else if s[1] == punct_atom(Punct::LAngleB) {
        match s[0] {
            ValueV::Atom(TypeV::Custom(nm)) => {
                match spec_find_close(s, 2, 1, Punct::LAngleB, Punct::RAngleB) {
                    Some(j) => {
                        if j == 2 {
                            Err(CompileError::EmptyGenericArgs)
                        } else {
                            match spec_gen_seq(s.subrange(2, j)) {
                                Ok(inner) => {
                                    if j + 1 < s.len() && s[j + 1] == punct_atom(Punct::LAngleB) {
                                        Err(CompileError::BadGenericHead)
                                    } else {
                                        match spec_gen_seq(s.skip(j + 1)) {
                                            Ok(rest) => Ok(
                                                seq![
                                                    ValueV::Entry(
                                                        EntryV {
                                                            key: KeyV::Generic(spec_generic_kind(nm)),
                                                            children: inner,
                                                        },
                                                    ),
                                                ] + rest,
                                            ),
                                            Err(er) => Err(er),
                                        }
                                    }
                                },
                                Err(er) => Err(er),
                            }
                        }
                    },
                    None => match spec_gen_seq(s.drop_first()) {
                        Ok(rest) => Ok(seq![s[0]] + rest),
                        Err(er) => Err(er),
                    },
                }
            },
            _ => Err(CompileError::BadGenericHead),
        }
    } else {
        match spec_gen_seq(s.drop_first()) {
            Ok(rest) => Ok(seq![s[0]] + rest),
            Err(er) => Err(er),
        }
    }
}

/// The node count of a non-empty sequence splits off its head.
pub proof fn lemma_size_vals_head(s: Seq<ValueV>)
    ensures
        s.len() >= 1 ==> size_vals(s) == size_val(s[0]) + size_vals(s.drop_first()),
{
}

/// The node-count split around a grouped span `s[2] .. s[j]`.
pub proof fn lemma_gen_split_facts(s: Seq<ValueV>)
    ensures
        s.len() >= 1 ==> size_vals(s) == size_val(s[0]) + size_vals(s.drop_first()),
        (s.len() >= 2 && spec_find_close(s, 2, 1, Punct::LAngleB, Punct::RAngleB) is Some)
            ==> ({
            let j = spec_find_close(s, 2, 1, Punct::LAngleB, Punct::RAngleB).unwrap();
            2 <= j < s.len() && size_vals(s) == size_val(s[0]) + size_val(s[1]) + size_vals(
                s.subrange(2, j),
            ) + size_val(s[j]) + size_vals(s.skip(j + 1))
        }),
{
    if s.len() >= 1 {
        lemma_size_vals_split3(s, 0, 1);
        assert(s.subrange(0, 1) =~= seq![s[0]]);
        lemma_size_vals_singleton(s[0]);
        assert(s.subrange(1, s.len() as int) =~= s.drop_first());
        assert(s.subrange(0, 0) =~= Seq::<ValueV>::empty());
        assert(size_vals(Seq::<ValueV>::empty()) == 0);
    }
    if s.len() >= 2 && spec_find_close(s, 2, 1, Punct::LAngleB, Punct::RAngleB) is Some {
        let j = spec_find_close(s, 2, 1, Punct::LAngleB, Punct::RAngleB).unwrap();
        lemma_find_close_bounds(s, 2, 1, Punct::LAngleB, Punct::RAngleB);
        lemma_size_vals_split3(s, 2, j);
        lemma_size_vals_split3(s.subrange(0, 2), 1, 2);
        assert(s.subrange(0, 2).subrange(1, 2) =~= seq![s[1]]);
        assert(s.subrange(0, 2).subrange(0, 1) =~= seq![s[0]]);
        lemma_size_vals_singleton(s[1]);
        lemma_size_vals_singleton(s[0]);
        lemma_size_vals_split3(s.subrange(j, s.len() as int), 0, 1);
        assert(s.subrange(j, s.len() as int).subrange(0, 1) =~= seq![s[j]]);
        lemma_size_vals_singleton(s[j]);
        assert(s.subrange(j, s.len() as int).subrange(0, 0) =~= Seq::<ValueV>::empty());
        assert(size_vals(Seq::<ValueV>::empty()) == 0);
        assert(s.subrange(j, s.len() as int).subrange(
            1,
            s.subrange(j, s.len() as int).len() as int,
        ) =~= s.skip(j + 1));
    }
}

#[via_fn]
proof fn spec_gen_seq_dec(s: Seq<ValueV>) {
    if s.len() >= 2 {
        lemma_size_val_pos(s[0]);
        lemma_size_val_pos(s[1]);
        lemma_gen_split_facts(s);
        if s[1] == punct_atom(Punct::LAngleB) {
            let found = spec_find_close(s, 2, 1, Punct::LAngleB, Punct::RAngleB);
            if found is Some {
                let j = found.unwrap();
                lemma_size_val_pos(s[j]);
            }
        }
    }
}

/// Grouping never grows a child sequence's node count.
pub proof fn lemma_gen_seq_size(s: Seq<ValueV>)
    ensures
        spec_gen_seq(s) matches Ok(r) ==> size_vals(r) <= size_vals(s),
    decreases size_vals(s),
{
    lemma_gen_split_facts(s);
    if s.len() >= 1 {
        lemma_size_val_pos(s[0]);
    }
    if s.len() < 2 {
    } else if s[1] == punct_atom(Punct::LAngleB) {
        match s[0] {
            ValueV::Atom(TypeV::Custom(nm)) => {
                match spec_find_close(s, 2, 1, Punct::LAngleB, Punct::RAngleB) {
                    Some(j) => {
                        lemma_size_val_pos(s[j]);
                        lemma_size_val_pos(s[1]);
                        if j != 2 {
                            lemma_gen_seq_size(s.subrange(2, j));
                            lemma_gen_seq_size(s.skip(j + 1));
                            if spec_gen_seq(s) matches Ok(r) {
                                let inner = spec_gen_seq(s.subrange(2, j)).unwrap();
                                let rest = spec_gen_seq(s.skip(j + 1)).unwrap();
                                lemma_size_vals_concat(
                                    seq![
                                        ValueV::Entry(
                                            EntryV {
                                                key: KeyV::Generic(spec_generic_kind(nm)),
                                                children: inner,
                                            },
                                        ),
                                    ],
                                    rest,
                                );
                                lemma_size_vals_singleton(
                                    ValueV::Entry(
                                        EntryV {
                                            key: KeyV::Generic(spec_generic_kind(nm)),
                                            children: inner,
                                        },
                                    ),
                                );
                            }
                        }
                    },
                    None => {
                        lemma_gen_seq_size(s.drop_first());
                        if spec_gen_seq(s) matches Ok(r) {
                            lemma_size_vals_concat(seq![s[0]], spec_gen_seq(s.drop_first()).unwrap());
                            lemma_size_vals_singleton(s[0]);
                        }
                    },
                }
            },
            _ => {},
        }
    } else {
        lemma_gen_seq_size(s.drop_first());
        if spec_gen_seq(s) matches Ok(r) {
            lemma_size_vals_concat(seq![s[0]], spec_gen_seq(s.drop_first()).unwrap());
            lemma_size_vals_singleton(s[0]);
        }
    }
}

fn gen_seq_exec(vs: &Vec<Value>) -> (r: Result<Vec<Value>, CompileError>)
    ensures
        match r {
            Ok(nv) => spec_gen_seq(values_view(vs@)) == Ok::<_, CompileError>(values_view(nv@)),
            Err(e) => spec_gen_seq(values_view(vs@)) == Err::<Seq<ValueV>, _>(e),
        },
    decreases size_vals(values_view(vs@)),
{
    let ghost sv = values_view(vs@);
    proof {
        lemma_values_view(vs@);
    }
    let mut out: Vec<Value> = Vec::new();
    let mut i: usize = 0;
    proof {
        assert(values_view(out@) =~= Seq::<ValueV>::empty());
        assert(sv.skip(0) =~= sv);
    }
    while i < vs.len()
        invariant
            i <= vs@.len(),
            sv == values_view(vs@),
            sv.len() == vs@.len(),
            forall|k: int| 0 <= k < vs@.len() ==> sv[k] == value_view(vs@[k]),
            size_vals(sv.skip(i as int)) <= size_vals(sv),
            spec_gen_seq(sv) == (match spec_gen_seq(sv.skip(i as int)) {
                Ok(r) => Ok::<Seq<ValueV>, CompileError>(values_view(out@) + r),
                Err(e) => Err(e),
            }),
        decreases vs@.len() - i,
    {
        let ghost prev_out = values_view(out@);
        let ghost cur = sv.skip(i as int);
        proof {
            lemma_values_view(out@);
            assert(cur[0] == sv[i as int]);
            assert(cur.drop_first() =~= sv.skip(i + 1));
            if i + 1 < vs@.len() {
                assert(cur[1] == sv[i + 1]);
            }
            lemma_gen_split_facts(cur);
            lemma_size_vals_subrange(sv, i as int, sv.len() as int);
        }
        if i + 1 >= vs.len() {
            // a final lone child: nothing can follow it
            out.push(copy_value(&vs[i]));
            proof {
                lemma_values_view(out@);
                assert(cur.len() == 1);
                assert(values_view(out@) =~= prev_out + cur);
                assert(sv.skip(i + 1) =~= Seq::<ValueV>::empty());
            }
            i += 1;
            continue ;
        }
        let head_is_angle = matches!(&vs[i + 1], Value::Type(Type::Punct(Punct::LAngleB)));
        if head_is_angle {
            match &vs[i] {
                Value::Type(Type::Custom(nm)) => {
                    match find_close_exec(vs, i + 2, Punct::LAngleB, Punct::RAngleB) {
                        Some(j) => {
                            proof {
                                lemma_shift_find_close(
                                    sv,
                                    i as int,
                                    i + 2,
                                    1,
                                    Punct::LAngleB,
                                    Punct::RAngleB,
                                );
                                lemma_find_close_bounds(cur, 2, 1, Punct::LAngleB, Punct::RAngleB);
                                assert(cur.subrange(2, (j - i) as int) =~= sv.subrange(
                                    i + 2,
                                    j as int,
                                ));
                                assert(cur.skip((j - i) + 1) =~= sv.skip(j + 1));
                            }
                            if j == i + 2 {
                                return Err(CompileError::EmptyGenericArgs);
                            }
                            let kids = copy_values_range(vs, i + 2, j);
                            proof {
                                lemma_gen_split_facts(cur);
                            }
                            match gen_seq_exec(&kids) {
                                Ok(inner) => {
                                    let next_is_angle = j + 1 < vs.len() && matches!(
                                        &vs[j + 1],
                                        Value::Type(Type::Punct(Punct::LAngleB)),
                                    );
                                    proof {
                                        if j + 1 < vs@.len() {
                                            assert(cur[(j - i) + 1] == sv[j + 1]);
                                        }
                                    }
                                    if next_is_angle {
                                        return Err(CompileError::BadGenericHead);
                                    }
                                    let arrname = vec![
                                        'A' as u8,
                                        'r' as u8,
                                        'r' as u8,
                                        'a' as u8,
                                        'y' as u8,
                                    ];
                                    proof {
                                        assert(arrname@ =~= array_type_name());
                                    }
                                    let kind = if bytes_eq(nm, &arrname) {
                                        Generic::Array
                                    } else {
                                        Generic::Custom(copy_bytes(nm))
                                    };
                                    let g = Value::Entry(
                                        Entry { key: Key::Generic(kind), value: inner },
                                    );
                                    let ghost gv = g@;
                                    out.push(g);
                                    proof {
                                        lemma_values_view(out@);
                                        assert(values_view(out@) =~= prev_out.push(gv));
                                        lemma_size_vals_subrange(sv, j + 1, sv.len() as int);
                                        assert(sv.skip(j + 1) =~= sv.subrange(
                                            j + 1,
                                            sv.len() as int,
                                        ));
                                        match spec_gen_seq(sv.skip(j + 1)) {
                                            Ok(rr) => {
                                                assert(values_view(out@) + rr =~= prev_out + (seq![
                                                    gv,
                                                ] + rr));
                                            },
                                            Err(_) => {},
                                        }
                                    }
                                    i = j + 1;
                                },
                                Err(er) => {
                                    return Err(er);
                                },
                            }
                        },
                        None => {
                            proof {
                                lemma_shift_find_close(
                                    sv,
                                    i as int,
                                    i + 2,
                                    1,
                                    Punct::LAngleB,
                                    Punct::RAngleB,
                                );
                                lemma_size_vals_subrange(sv, i + 1, sv.len() as int);
                                assert(sv.skip(i + 1) =~= sv.subrange(i + 1, sv.len() as int));
                            }
                            out.push(copy_value(&vs[i]));
                            proof {
                                lemma_values_view(out@);
                                assert(values_view(out@) =~= prev_out.push(cur[0]));
                                match spec_gen_seq(sv.skip(i + 1)) {
                                    Ok(rr) => {
                                        assert(values_view(out@) + rr =~= prev_out + (seq![cur[0]]
                                            + rr));
                                    },
                                    Err(_) => {},
                                }
                            }
                            i += 1;
                        },
                    }
                },
                _ => {
                    return Err(CompileError::BadGenericHead);
                },
            }
        } else {
            proof {
                lemma_size_vals_subrange(sv, i + 1, sv.len() as int);
                assert(sv.skip(i + 1) =~= sv.subrange(i + 1, sv.len() as int));
            }
            out.push(copy_value(&vs[i]));
            proof {
                lemma_values_view(out@);
                assert(values_view(out@) =~= prev_out.push(cur[0]));
                match spec_gen_seq(sv.skip(i + 1)) {
                    Ok(rr) => {
                        assert(values_view(out@) + rr =~= prev_out + (seq![cur[0]] + rr));
                    },
                    Err(_) => {},
                }
            }
            i += 1;
        }
    }
    proof {
        assert(sv.skip(vs@.len() as int) =~= Seq::<ValueV>::empty());
        assert(values_view(out@) + Seq::<ValueV>::empty() =~= values_view(out@));
    }
    Ok(out)
}

/// Groups every generic application in one child sequence, nested
/// argument lists included. Fails when an argument list closes empty or
/// when an opening angle bracket follows anything but a plain type name.
pub fn parse_generics(value: &mut Vec<Value>) -> (r: Result<(), CompileError>)
    ensures
        match r {
            Ok(_) => spec_gen_seq(values_view(old(value)@)) == Ok::<_, CompileError>(
                values_view(final(value)@),
            ),
            Err(e) => spec_gen_seq(values_view(old(value)@)) == Err::<Seq<ValueV>, _>(e)
                && values_view(final(value)@) == values_view(old(value)@),
        },
{
    match gen_seq_exec(value) {
        Ok(nv) => {
            *value = nv;
            Ok(())
        },
        Err(er) => Err(er),
    }
}

/// The position of the closing bracket of the rightmost adjacent `[` `]`
/// pair, or `None` when no such pair exists.
pub open spec fn spec_rightmost_pair(s: Seq<ValueV>) -> Option<int>
    decreases s.len(),
{
    if s.len() < 2 {
        None
    } else if s[s.len() - 2] == punct_atom(Punct::LBrack) && s[s.len() - 1] == punct_atom(
        Punct::RBrack,
    ) {
        Some(s.len() - 1)
    } else {
        spec_rightmost_pair(s.drop_last())
    }
}

pub proof fn lemma_rightmost_pair_bounds(s: Seq<ValueV>)
    requires
        spec_rightmost_pair(s) is Some,
    ensures
        1 <= spec_rightmost_pair(s).unwrap() < s.len(),
        s[spec_rightmost_pair(s).unwrap() - 1] == punct_atom(Punct::LBrack),
        s[spec_rightmost_pair(s).unwrap()] == punct_atom(Punct::RBrack),
    decreases s.len(),
{
    if s.len() >= 2 {
        if !(s[s.len() - 2] == punct_atom(Punct::LBrack) && s[s.len() - 1] == punct_atom(
            Punct::RBrack,
        )) {
            lemma_rightmost_pair_bounds(s.drop_last());
            assert(s.drop_last()[spec_rightmost_pair(s).unwrap() - 1] == s[spec_rightmost_pair(
                s,
            ).unwrap() - 1]);
        }
    }
}

/// The backward scan that finds the type expression an array suffix
/// applies to: brackets are carried into the captured span, parentheses
/// adjust a depth and are dropped, and the capture closes on the first
/// whole expression at depth zero. Fails when the scan falls off the
/// front, or when a parenthesized span closes empty.
pub open spec fn spec_capture(s: Seq<ValueV>, j: int, pc: int, acc: Seq<ValueV>) -> Result<
    (int, Seq<ValueV>),
    CompileError,
>
    decreases j when 0 <= j < s.len()
{
    let v = s[j];
    if v == punct_atom(Punct::RBrack) || v == punct_atom(Punct::LBrack) {
        if j == 0 {
            Err(CompileError::MissingArraySubject)
        } else {
            spec_capture(s, j - 1, pc, seq![v] + acc)
        }
    } else if v == punct_atom(Punct::RPar) {
        if j == 0 {
            Err(CompileError::MissingArraySubject)
        } else {
            spec_capture(s, j - 1, pc + 1, acc)
        }
    } else if v == punct_atom(Punct::LPar) {
        if pc - 1 == 0 {
            if acc.len() > 0 {
                Ok((j, acc))
            } else {
                Err(CompileError::MissingArraySubject)
            }
        } else if j == 0 {
            Err(CompileError::MissingArraySubject)
        } else {
            spec_capture(s, j - 1, pc - 1, acc)
        }
    } else {
        if pc == 0 {
            Ok((j, seq![v] + acc))
        } else if j == 0 {
            Err(CompileError::MissingArraySubject)
        } else {
            spec_capture(s, j - 1, pc, seq![v] + acc)
        }
    }
}

pub proof fn lemma_capture_props(s: Seq<ValueV>, j: int, pc: int, acc: Seq<ValueV>)
    requires
        0 <= j < s.len(),
    ensures
        spec_capture(s, j, pc, acc) matches Ok(p) ==> 0 <= p.0 <= j && size_vals(p.1)
            <= size_vals(acc) + size_vals(s.subrange(p.0, j + 1)),
    decreases j,
{
    let r = spec_capture(s, j, pc, acc);
    if r is Ok {
        let (start, out) = r.unwrap();
        let v = s[j];
        if v == punct_atom(Punct::LPar) && pc - 1 == 0 && acc.len() > 0 {
            lemma_size_vals_split3(s.subrange(start, j + 1), 0, 0);
        } else if !(v == punct_atom(Punct::RBrack) || v == punct_atom(Punct::LBrack) || v
            == punct_atom(Punct::RPar) || v == punct_atom(Punct::LPar)) && pc == 0 {
            lemma_size_vals_split3(s.subrange(j, j + 1), 0, 1);
            assert(s.subrange(j, j + 1).subrange(0, 1) =~= seq![v]);
            lemma_size_vals_singleton(v);
            lemma_size_vals_concat(seq![v], acc);
            assert(s.subrange(start, j + 1) =~= seq![v]);
        } else {
            let acc2 = if v == punct_atom(Punct::RPar) || v == punct_atom(Punct::LPar) {
                acc
            } else {
                seq![v] + acc
            };
            let pc2 = if v == punct_atom(Punct::RPar) {
                pc + 1
            } else if v == punct_atom(Punct::LPar) {
                pc - 1
            } else {
                pc
            };
            lemma_capture_props(s, j - 1, pc2, acc2);
            lemma_size_vals_concat(seq![v], acc);
            lemma_size_vals_singleton(v);
            lemma_size_vals_split3(s.subrange(start, j + 1), 0, j - start);
            assert(s.subrange(start, j + 1).subrange(0, j - start) =~= s.subrange(start, j));
            assert(s.subrange(start, j + 1).subrange(j - start, j + 1 - start) =~= seq![v]);
            assert(s.subrange(start, j + 1).subrange(
                j + 1 - start,
                s.subrange(start, j + 1).len() as int,
            ) =~= Seq::<ValueV>::empty());
            assert(size_vals(Seq::<ValueV>::empty()) == 0);
        }
    }
}

/// A child sequence with every array suffix `T[]` folded, from the right,
/// into a `Generic` array node over the captured preceding expression;
/// nested suffixes inside a captured span are folded on the way.
pub open spec fn spec_arr_seq(s: Seq<ValueV>) -> Result<Seq<ValueV>, CompileError>
    decreases size_vals(s) via spec_arr_seq_dec
{
    match spec_rightmost_pair(s) {
        None => Ok(s),
        Some(i) => {
            if i == 1 {
                Err(CompileError::MissingArraySubject)
            } else {
                match spec_capture(s, i - 2, 0, seq![]) {
                    Err(er) => Err(er),
                    Ok(p) => {
                        match spec_arr_seq(p.1) {
                            Err(er) => Err(er),
                            Ok(inner) => {
                                match spec_arr_seq(s.take(p.0)) {
                                    Err(er) => Err(er),
                                    Ok(left) => Ok(
                                        left + seq![
                                            ValueV::Entry(
                                                EntryV {
                                                    key: KeyV::Generic(GenericV::Array),
                                                    children: inner,
                                                },
                                            ),
                                        ] + s.skip(i + 1),
                                    ),
                                }
                            },
                        }
                    },
                }
            }
        },
    }
}

/// The node-count bound a successful capture gives, stated around the
/// bracket pair at `i`.
pub proof fn lemma_arr_split_facts(s: Seq<ValueV>, i: int)
    requires
        2 <= i < s.len(),
        spec_capture(s, i - 2, 0, seq![]) is Ok,
    ensures
        ({
            let p = spec_capture(s, i - 2, 0, seq![]).unwrap();
            0 <= p.0 <= i - 2 && size_vals(p.1) < size_vals(s) && size_vals(s.take(p.0))
                < size_vals(s)
        }),
{
    lemma_capture_props(s, i - 2, 0, seq![]);
    let p = spec_capture(s, i - 2, 0, seq![]).unwrap();
    assert(size_vals(Seq::<ValueV>::empty()) == 0);
    assert(seq![] + s.subrange(p.0, i - 1) =~= s.subrange(p.0, i - 1));
    lemma_size_vals_split3(s, p.0, i - 1);
    lemma_size_vals_split3(s.subrange(i - 1, s.len() as int), 0, 2);
    assert(s.subrange(i - 1, s.len() as int).subrange(0, 2) =~= s.subrange(i - 1, i + 1));
    lemma_size_vals_split3(s.subrange(i - 1, i + 1), 1, 2);
    assert(s.subrange(i - 1, i + 1).subrange(0, 1) =~= seq![s[i - 1]]);
    assert(s.subrange(i - 1, i + 1).subrange(1, 2) =~= seq![s[i]]);
    lemma_size_vals_singleton(s[i - 1]);
    lemma_size_vals_singleton(s[i]);
    lemma_size_val_pos(s[i - 1]);
    lemma_size_val_pos(s[i]);
    lemma_size_vals_subrange(s, 0, p.0);
    assert(s.take(p.0) =~= s.subrange(0, p.0));
}

#[via_fn]
proof fn spec_arr_seq_dec(s: Seq<ValueV>) {
    if spec_rightmost_pair(s) is Some {
        let i = spec_rightmost_pair(s).unwrap();
        lemma_rightmost_pair_bounds(s);
        if i != 1 && spec_capture(s, i - 2, 0, seq![]) is Ok {
            lemma_arr_split_facts(s, i);
        }
    }
}

/// Array-suffix folding never grows a child sequence's node count.
pub proof fn lemma_arr_seq_size(s: Seq<ValueV>)
    ensures
        spec_arr_seq(s) matches Ok(r) ==> size_vals(r) <= size_vals(s),
    decreases size_vals(s),
{
    if spec_rightmost_pair(s) is Some {
        let i = spec_rightmost_pair(s).unwrap();
        lemma_rightmost_pair_bounds(s);
        if i != 1 && spec_capture(s, i - 2, 0, seq![]) is Ok {
            let p = spec_capture(s, i - 2, 0, seq![]).unwrap();
            lemma_arr_split_facts(s, i);
            lemma_arr_seq_size(p.1);
            lemma_arr_seq_size(s.take(p.0));
            if spec_arr_seq(s) is Ok {
                let inner = spec_arr_seq(p.1).unwrap();
                let left = spec_arr_seq(s.take(p.0)).unwrap();
                let g = ValueV::Entry(
                    EntryV { key: KeyV::Generic(GenericV::Array), children: inner },
                );
                lemma_size_vals_concat(left + seq![g], s.skip(i + 1));
                lemma_size_vals_concat(left, seq![g]);
                lemma_size_vals_singleton(g);
                lemma_capture_props(s, i - 2, 0, seq![]);
                assert(size_vals(Seq::<ValueV>::empty()) == 0);
                assert(seq![] + s.subrange(p.0, i - 1) =~= s.subrange(p.0, i - 1));
                lemma_size_vals_split3(s, p.0, i - 1);
                lemma_size_vals_split3(s.subrange(i - 1, s.len() as int), 2, s.len() - (i - 1));
                assert(s.subrange(i - 1, s.len() as int).subrange(
                    2,
                    s.len() - (i - 1),
                ) =~= s.skip(i + 1));
                lemma_size_vals_split3(s.subrange(i - 1, s.len() as int).subrange(0, 2), 1, 2);
                assert(s.subrange(i - 1, s.len() as int).subrange(0, 2).subrange(0, 1) =~= seq![
                    s[i - 1],
                ]);
                assert(s.subrange(i - 1, s.len() as int).subrange(0, 2).subrange(1, 2) =~= seq![
                    s[i],
                ]);
                lemma_size_vals_singleton(s[i - 1]);
                lemma_size_vals_singleton(s[i]);
                lemma_size_val_pos(s[i - 1]);
                lemma_size_val_pos(s[i]);
                assert(s.take(p.0) =~= s.subrange(0, p.0));
            }
        }
    }
}

fn capture_exec(vs: &Vec<Value>, from: usize) -> (r: Result<(usize, Vec<Value>), CompileError>)
    requires
        from < vs@.len(),
    ensures
        match r {
            Ok(p) => spec_capture(values_view(vs@), from as int, 0, seq![]) == Ok::<
                _,
                CompileError,
            >((p.0 as int, values_view(p.1@))) && p.0 <= from,
            Err(e) => spec_capture(values_view(vs@), from as int, 0, seq![]) == Err::<
                (int, Seq<ValueV>),
                _,
            >(e),
        },
{
    let ghost sv = values_view(vs@);
    proof {
        lemma_values_view(vs@);
    }
    let mut j = from;
    let mut pc: i128 = 0;
    let mut args: Vec<Value> = Vec::new();
    proof {
        assert(values_view(args@) =~= Seq::<ValueV>::empty());
    }
    loop
        invariant
            j <= from < vs@.len(),
            sv == values_view(vs@),
            sv.len() == vs@.len(),
            forall|k: int| 0 <= k < vs@.len() ==> sv[k] == value_view(vs@[k]),
            -((from - j) as i128) <= pc <= (from - j) as i128,
            spec_capture(sv, from as int, 0, seq![]) == spec_capture(
                sv,
                j as int,
                pc as int,
                values_view(args@),
            ),
        decreases j,
    {
        let ghost prev_args = values_view(args@);
        proof {
            lemma_values_view(args@);
        }
        let cls = punct_of(&vs[j]);
        let is_rbrack = matches!(cls, Some(Punct::RBrack));
        let is_lbrack = matches!(cls, Some(Punct::LBrack));
        let is_rpar = matches!(cls, Some(Punct::RPar));
        let is_lpar = matches!(cls, Some(Punct::LPar));
        if is_rbrack || is_lbrack {
            if j == 0 {
                return Err(CompileError::MissingArraySubject);
            }
            args.insert(0, copy_value(&vs[j]));
            proof {
                lemma_values_view(args@);
                assert(values_view(args@) =~= seq![sv[j as int]] + prev_args);
            }
            j -= 1;
        } else if is_rpar {
            if j == 0 {
                return Err(CompileError::MissingArraySubject);
            }
            pc += 1;
            j -= 1;
        } else if is_lpar {
            if pc - 1 == 0 {
                if args.len() > 0 {
                    return Ok((j, args));
                }
                return Err(CompileError::MissingArraySubject);
            }
            if j == 0 {
                return Err(CompileError::MissingArraySubject);
            }
            pc -= 1;
            j -= 1;
        } else {
            if pc == 0 {
                args.insert(0, copy_value(&vs[j]));
                proof {
                    lemma_values_view(args@);
                    assert(values_view(args@) =~= seq![sv[j as int]] + prev_args);
                }
                return Ok((j, args));
            }
            if j == 0 {
                return Err(CompileError::MissingArraySubject);
            }
            args.insert(0, copy_value(&vs[j]));
            proof {
                lemma_values_view(args@);
                assert(values_view(args@) =~= seq![sv[j as int]] + prev_args);
            }
            j -= 1;
        }
    }
}

fn rightmost_pair_exec(vs: &Vec<Value>) -> (r: Option<usize>)
    ensures
        match r {
            Some(i) => spec_rightmost_pair(values_view(vs@)) == Some(i as int) && 1 <= i
                < vs@.len(),
            None => spec_rightmost_pair(values_view(vs@)) is None,
        },
{
    let ghost sv = values_view(vs@);
    proof {
        lemma_values_view(vs@);
        assert(sv.take(vs@.len() as int) =~= sv);
    }
    let n = vs.len();
    let mut m = n;
    while m >= 2
        invariant
            m <= n,
            n == vs@.len(),
            sv == values_view(vs@),
            sv.len() == vs@.len(),
            forall|k: int| 0 <= k < vs@.len() ==> sv[k] == value_view(vs@[k]),
            spec_rightmost_pair(sv) == spec_rightmost_pair(sv.take(m as int)),
        decreases m,
    {
        proof {
            assert(sv.take(m as int)[m - 2] == sv[m - 2]);
            assert(sv.take(m as int)[m - 1] == sv[m - 1]);
            assert(sv.take(m as int).drop_last() =~= sv.take(m - 1));
        }
        if matches!(&vs[m - 2], Value::Type(Type::Punct(Punct::LBrack))) && matches!(
            &vs[m - 1],
            Value::Type(Type::Punct(Punct::RBrack)),
        ) {
            proof {
                assert(sv.take(m as int).len() == m);
                assert(spec_rightmost_pair(sv.take(m as int)) == Some(m - 1));
            }
            return Some(m - 1);
        }
        m -= 1;
    }
    proof {
        assert(sv.take(m as int).len() == m < 2);
    }
    None
}

fn arr_seq_exec(vs: &Vec<Value>) -> (r: Result<Vec<Value>, CompileError>)
    ensures
        match r {
            Ok(nv) => spec_arr_seq(values_view(vs@)) == Ok::<_, CompileError>(values_view(nv@)),
            Err(e) => spec_arr_seq(values_view(vs@)) == Err::<Seq<ValueV>, _>(e),
        },
    decreases size_vals(values_view(vs@)),
{
    let ghost sv = values_view(vs@);
    proof {
        lemma_values_view(vs@);
    }
    let n = vs.len();
    let found = rightmost_pair_exec(vs);
    match found {
        None => {
            let out = copy_values_range(vs, 0, n);
            proof {
                assert(sv.subrange(0, n as int) =~= sv);
            }
            Ok(out)
        },
        Some(i) => {
            if i == 1 {
                return Err(CompileError::MissingArraySubject);
            }
            match capture_exec(vs, i - 2) {
                Err(er) => Err(er),
                Ok((start, args)) => {
                    proof {
                        lemma_arr_split_facts(sv, i as int);
                    }
                    match arr_seq_exec(&args) {
                        Err(er) => Err(er),
                        Ok(inner) => {
                            let left_src = copy_values_range(vs, 0, start);
                            proof {
                                assert(sv.subrange(0, start as int) =~= sv.take(start as int));
                            }
                            match arr_seq_exec(&left_src) {
                                Err(er) => Err(er),
                                Ok(mut left) => {
                                    let ghost leftv = values_view(left@);
                                    let g = Value::Entry(
                                        Entry { key: Key::Generic(Generic::Array), value: inner },
                                    );
                                    let ghost gv = g@;
                                    proof {
                                        lemma_values_view(left@);
                                    }
                                    left.push(g);
                                    proof {
                                        lemma_values_view(left@);
                                        assert(values_view(left@) =~= leftv.push(gv));
                                    }
                                    let mut k = i + 1;
                                    while k < n
                                        invariant
                                            i + 1 <= k <= n,
                                            n == vs@.len(),
                                            sv == values_view(vs@),
                                            sv.len() == vs@.len(),
                                            forall|q: int|
                                                0 <= q < vs@.len() ==> sv[q] == value_view(vs@[q]),
                                            values_view(left@) == leftv.push(gv) + sv.subrange(
                                                i + 1,
                                                k as int,
                                            ),
                                        decreases n - k,
                                    {
                                        let ghost before = values_view(left@);
                                        proof {
                                            lemma_values_view(left@);
                                        }
                                        left.push(copy_value(&vs[k]));
                                        proof {
                                            lemma_values_view(left@);
                                            assert(values_view(left@) =~= before.push(
                                                sv[k as int],
                                            ));
                                            assert(before.push(sv[k as int]) =~= leftv.push(gv)
                                                + sv.subrange(i + 1, k + 1));
                                        }
                                        k += 1;
                                    }
                                    proof {
                                        assert(values_view(left@) =~= leftv + seq![gv] + sv.skip(
                                            i + 1,
                                        ));
                                    }
                                    Ok(left)
                                },
                            }
                        },
                    }
                },
            }
        },
    }
}

/// Folds every array suffix in one child sequence, from the right, into a
/// `Generic` array node over the captured preceding expression. Fails
/// when a suffix has no type expression before it.
pub fn parse_arrays(value: &mut Vec<Value>) -> (r: Result<(), CompileError>)
    ensures
        match r {
            Ok(_) => spec_arr_seq(values_view(old(value)@)) == Ok::<_, CompileError>(
                values_view(final(value)@),
            ),
            Err(e) => spec_arr_seq(values_view(old(value)@)) == Err::<Seq<ValueV>, _>(e)
                && values_view(final(value)@) == values_view(old(value)@),
        },
{
    match arr_seq_exec(value) {
        Ok(nv) => {
            *value = nv;
            Ok(())
        },
        Err(er) => Err(er),
    }
}

/// Which level pass a deep application runs at every node.
#[derive(Clone, Copy, PartialEq, Eq, Structural, Debug)]
pub enum ValuePass {
    Generics,
    Arrays,
}

/// One level pass applied to one child sequence.
pub open spec fn spec_level_pass(p: ValuePass, s: Seq<ValueV>) -> Result<Seq<ValueV>, CompileError> {
    match p {
        ValuePass::Generics => spec_gen_seq(s),
        ValuePass::Arrays => spec_arr_seq(s),
    }
}

pub proof fn lemma_level_pass_size(p: ValuePass, s: Seq<ValueV>)
    ensures
        spec_level_pass(p, s) matches Ok(r) ==> size_vals(r) <= size_vals(s),
{
    match p {
        ValuePass::Generics => lemma_gen_seq_size(s),
        ValuePass::Arrays => lemma_arr_seq_size(s),
    }
}

/// A level pass applied to a node's children and then, in order, to every
/// nested entry of the updated children, newly built groups included.
pub open spec fn spec_deep_pass(p: ValuePass, e: EntryV) -> Result<EntryV, CompileError>
    decreases 1 + size_vals(e.children), 0nat via spec_deep_pass_dec
{
    match spec_level_pass(p, e.children) {
        Err(er) => Err(er),
        Ok(c1) => match spec_deep_seq(p, c1) {
            Err(er) => Err(er),
            Ok(c2) => Ok(EntryV { key: e.key, children: c2 }),
        },
    }
}

/// The descent of a deep pass over an updated child sequence.
pub open spec fn spec_deep_seq(p: ValuePass, s: Seq<ValueV>) -> Result<Seq<ValueV>, CompileError>
    decreases size_vals(s), 1nat via spec_deep_seq_dec
{
    if s.len() == 0 {
        Ok(seq![])
    } else {
        let head = match s[0] {
            ValueV::Entry(e0) => match spec_deep_pass(p, e0) {
                Ok(v0) => Ok(ValueV::Entry(v0)),
                Err(er) => Err(er),
            },
            ValueV::Atom(_) => Ok(s[0]),
        };
        match head {
            Err(er) => Err(er),
            Ok(h) => match spec_deep_seq(p, s.drop_first()) {
                Ok(r) => Ok(seq![h] + r),
                Err(er) => Err(er),
            },
        }
    }
}

#[via_fn]
proof fn spec_deep_pass_dec(p: ValuePass, e: EntryV) {
    lemma_level_pass_size(p, e.children);
}

#[via_fn]
proof fn spec_deep_seq_dec(p: ValuePass, s: Seq<ValueV>) {
    if s.len() > 0 {
        lemma_size_val_pos(s[0]);
        lemma_size_vals_head(s);
    }
}

fn deep_pass_exec(p: ValuePass, e: &Entry) -> (r: Result<Entry, CompileError>)
    ensures
        match r {
            Ok(ne) => spec_deep_pass(p, e@) == Ok::<_, CompileError>(ne@),
            Err(er) => spec_deep_pass(p, e@) == Err::<EntryV, _>(er),
        },
    decreases 1 + size_vals(values_view(e.value@)), 0nat,
{
    let level = match p {
        ValuePass::Generics => gen_seq_exec(&e.value),
        ValuePass::Arrays => arr_seq_exec(&e.value),
    };
    match level {
        Err(er) => Err(er),
        Ok(c1) => {
            proof {
                lemma_level_pass_size(p, values_view(e.value@));
            }
            match deep_seq_exec(p, &c1) {
                Err(er) => Err(er),
                Ok(c2) => Ok(Entry { key: copy_key(&e.key), value: c2 }),
            }
        },
    }
}

fn deep_seq_exec(p: ValuePass, vs: &Vec<Value>) -> (r: Result<Vec<Value>, CompileError>)
    ensures
        match r {
            Ok(nv) => spec_deep_seq(p, values_view(vs@)) == Ok::<_, CompileError>(
                values_view(nv@),
            ),
            Err(er) => spec_deep_seq(p, values_view(vs@)) == Err::<Seq<ValueV>, _>(er),
        },
    decreases size_vals(values_view(vs@)), 1nat,
{
    let ghost sv = values_view(vs@);
    proof {
        lemma_values_view(vs@);
    }
    let mut out: Vec<Value> = Vec::new();
    let mut i: usize = 0;
    proof {
        assert(values_view(out@) =~= Seq::<ValueV>::empty());
        assert(sv.skip(0) =~= sv);
    }
    while i < vs.len()
        invariant
            i <= vs@.len(),
            sv == values_view(vs@),
            sv.len() == vs@.len(),
            forall|k: int| 0 <= k < vs@.len() ==> sv[k] == value_view(vs@[k]),
            size_vals(sv.skip(i as int)) <= size_vals(sv),
            spec_deep_seq(p, sv) == (match spec_deep_seq(p, sv.skip(i as int)) {
                Ok(r) => Ok::<Seq<ValueV>, CompileError>(values_view(out@) + r),
                Err(e) => Err(e),
            }),
        decreases vs@.len() - i,
    {
        let ghost prev_out = values_view(out@);
        let ghost cur = sv.skip(i as int);
        proof {
            lemma_values_view(out@);
            assert(cur[0] == sv[i as int]);
            assert(cur.drop_first() =~= sv.skip(i + 1));
            lemma_size_vals_index(sv, i as int);
            lemma_size_vals_subrange(sv, i + 1, sv.len() as int);
            assert(sv.skip(i + 1) =~= sv.subrange(i + 1, sv.len() as int));
        }
        let stepped: Value;
        match &vs[i] {
            Value::Entry(e0) => {
                match deep_pass_exec(p, e0) {
                    Ok(ne) => {
                        stepped = Value::Entry(ne);
                    },
                    Err(er) => {
                        return Err(er);
                    },
                }
            },
            Value::Type(_) => {
                stepped = copy_value(&vs[i]);
            },
        }
        let ghost stv = stepped@;
        out.push(stepped);
        proof {
            lemma_values_view(out@);
            assert(values_view(out@) =~= prev_out.push(stv));
            match spec_deep_seq(p, sv.skip(i + 1)) {
                Ok(rr) => {
                    assert(values_view(out@) + rr =~= prev_out + (seq![stv] + rr));
                },
                Err(_) => {},
            }
        }
        i += 1;
    }
    proof {
        assert(sv.skip(vs@.len() as int) =~= Seq::<ValueV>::empty());
    }
    Ok(out)
}

/// Applies one level pass to a tree's own children and then to every
/// nested entry of the result, newly built groups included, in order.
pub fn for_each_value(entry: &mut Entry, pass: ValuePass) -> (r: Result<(), CompileError>)
    ensures
        match r {
            Ok(_) => spec_deep_pass(pass, old(entry)@) == Ok::<_, CompileError>(final(entry)@),
            Err(e) => spec_deep_pass(pass, old(entry)@) == Err::<EntryV, _>(e) && final(entry)@
                == old(entry)@,
        },
{
    match deep_pass_exec(pass, entry) {
        Ok(ne) => {
            *entry = ne;
            Ok(())
        },
        Err(er) => Err(er),
    }
}

/// The children of the declared type a name refers to: the last
/// declaration under that name, or `None` when the name is undeclared.
pub open spec fn spec_lookup(ifaces: Seq<EntryV>, name: Seq<u8>) -> Option<Seq<ValueV>>
    decreases ifaces.len(),
{
    if ifaces.len() == 0 {
        None
    } else if ifaces.last().key == KeyV::Name(name) {
        Some(ifaces.last().children)
    } else {
        spec_lookup(ifaces.drop_last(), name)
    }
}

/// One child with every reference to a declared type replaced, in depth,
/// by an anonymous object literal holding that declaration's children;
/// replacements are resolved again, each level of replacement spending
/// one unit of the depth allowance, so a cyclic reference set runs the
/// allowance out and fails instead of recursing without bound.
pub open spec fn spec_inline_value(v: ValueV, ifaces: Seq<EntryV>, fuel: nat) -> Result<
    ValueV,
    CompileError,
>
    decreases fuel, size_val(v), 0nat,
{
    match v {
        ValueV::Atom(TypeV::Custom(nm)) => match spec_lookup(ifaces, nm) {
            Some(children) => {
                if fuel == 0 {
                    Err(CompileError::CycleDetected)
                } else {
                    match spec_inline_seq(children, ifaces, (fuel - 1) as nat) {
                        Ok(c) => Ok(ValueV::Entry(EntryV { key: KeyV::Anon, children: c })),
                        Err(er) => Err(er),
                    }
                }
            },
            None => Ok(v),
        },
        ValueV::Atom(_) => Ok(v),
        ValueV::Entry(e) => match spec_inline_seq(e.children, ifaces, fuel) {
            Ok(c) => Ok(ValueV::Entry(EntryV { key: e.key, children: c })),
            Err(er) => Err(er),
        },
    }
}

/// Every child of a sequence inlined in order.
pub open spec fn spec_inline_seq(s: Seq<ValueV>, ifaces: Seq<EntryV>, fuel: nat) -> Result<
    Seq<ValueV>,
    CompileError,
>
    decreases fuel, size_vals(s), 1nat via spec_inline_seq_dec
{
    if s.len() == 0 {
        Ok(seq![])
    } else {
        match spec_inline_value(s[0], ifaces, fuel) {
            Ok(h) => match spec_inline_seq(s.drop_first(), ifaces, fuel) {
                Ok(r) => Ok(seq![h] + r),
                Err(er) => Err(er),
            },
            Err(er) => Err(er),
        }
    }
}

#[via_fn]
proof fn spec_inline_seq_dec(s: Seq<ValueV>, ifaces: Seq<EntryV>, fuel: nat) {
    if s.len() > 0 {
        lemma_size_val_pos(s[0]);
        lemma_size_vals_head(s);
    }
}

/// A tree with every named-type reference under it inlined.
pub open spec fn spec_inline_entry(e: EntryV, ifaces: Seq<EntryV>, fuel: nat) -> Result<
    EntryV,
    CompileError,
> {
    match spec_inline_seq(e.children, ifaces, fuel) {
        Ok(c) => Ok(EntryV { key: e.key, children: c }),
        Err(er) => Err(er),
    }
}

/// The depth allowance inlining starts with: the number of declarations,
/// which an acyclic reference set can never spend, since a chain of
/// nested replacements never meets the same name twice.
pub open spec fn spec_inline_fuel(ifaces: Seq<EntryV>) -> nat {
    ifaces.len()
}

fn lookup_exec(ifaces: &Vec<Entry>, name: &Vec<u8>) -> (r: Option<Vec<Value>>)
    ensures
        match r {
            Some(c) => spec_lookup(entries_view(ifaces@), name@) == Some(values_view(c@)),
            None => spec_lookup(entries_view(ifaces@), name@) is None,
        },
{
    let ghost ev = entries_view(ifaces@);
    proof {
        lemma_entries_view(ifaces@);
        assert(ev.take(ifaces@.len() as int) =~= ev);
    }
    let mut k = ifaces.len();
    while k > 0
        invariant
            k <= ifaces@.len(),
            ev == entries_view(ifaces@),
            ev.len() == ifaces@.len(),
            forall|q: int| 0 <= q < ifaces@.len() ==> ev[q] == entry_view(ifaces@[q]),
            spec_lookup(ev, name@) == spec_lookup(ev.take(k as int), name@),
        decreases k,
    {
        proof {
            assert(ev.take(k as int).last() == ev[k - 1]);
            assert(ev.take(k as int).drop_last() =~= ev.take(k - 1));
        }
        match &ifaces[k - 1].key {
            Key::Name(nm) => {
                if bytes_eq(nm, name) {
                    let c = copy_values_range(&ifaces[k - 1].value, 0, ifaces[k - 1].value.len());
                    proof {
                        lemma_values_view(ifaces@[k - 1].value@);
                        assert(values_view(ifaces@[k - 1].value@).subrange(
                            0,
                            ifaces@[k - 1].value@.len() as int,
                        ) =~= values_view(ifaces@[k - 1].value@));
                    }
                    return Some(c);
                }
            },
            _ => {},
        }
        k -= 1;
    }
    proof {
        assert(ev.take(0) =~= Seq::<EntryV>::empty());
    }
    None
}

fn inline_value_exec(v: &Value, ifaces: &Vec<Entry>, fuel: usize) -> (r: Result<
    Value,
    CompileError,
>)
    ensures
        match r {
            Ok(nv) => spec_inline_value(v@, entries_view(ifaces@), fuel as nat) == Ok::<
                _,
                CompileError,
            >(nv@),
            Err(er) => spec_inline_value(v@, entries_view(ifaces@), fuel as nat) == Err::<
                ValueV,
                _,
            >(er),
        },
    decreases fuel, size_val(v@), 0nat,
{
    match v {
        Value::Type(Type::Custom(nm)) => {
            match lookup_exec(ifaces, nm) {
                Some(children) => {
                    if fuel == 0 {
                        return Err(CompileError::CycleDetected);
                    }
                    match inline_seq_exec(&children, ifaces, fuel - 1) {
                        Ok(c) => Ok(Value::Entry(Entry { key: Key::Anon, value: c })),
                        Err(er) => Err(er),
                    }
                },
                None => Ok(Value::Type(copy_type(&Type::Custom(copy_bytes(nm))))),
            }
        },
        Value::Type(t) => Ok(Value::Type(copy_type(t))),
        Value::Entry(e) => {
            match inline_seq_exec(&e.value, ifaces, fuel) {
                Ok(c) => Ok(Value::Entry(Entry { key: copy_key(&e.key), value: c })),
                Err(er) => Err(er),
            }
        },
    }
}

fn inline_seq_exec(vs: &Vec<Value>, ifaces: &Vec<Entry>, fuel: usize) -> (r: Result<
    Vec<Value>,
    CompileError,
>)
    ensures
        match r {
            Ok(nv) => spec_inline_seq(values_view(vs@), entries_view(ifaces@), fuel as nat)
                == Ok::<_, CompileError>(values_view(nv@)),
            Err(er) => spec_inline_seq(values_view(vs@), entries_view(ifaces@), fuel as nat)
                == Err::<Seq<ValueV>, _>(er),
        },
    decreases fuel, size_vals(values_view(vs@)), 1nat,
{
    let ghost sv = values_view(vs@);
    let ghost ev = entries_view(ifaces@);
    proof {
        lemma_values_view(vs@);
    }
    let mut out: Vec<Value> = Vec::new();
    let mut i: usize = 0;
    proof {
        assert(values_view(out@) =~= Seq::<ValueV>::empty());
        assert(sv.skip(0) =~= sv);
    }
    while i < vs.len()
        invariant
            i <= vs@.len(),
            sv == values_view(vs@),
            ev == entries_view(ifaces@),
            sv.len() == vs@.len(),
            forall|k: int| 0 <= k < vs@.len() ==> sv[k] == value_view(vs@[k]),
            size_vals(sv.skip(i as int)) <= size_vals(sv),
            spec_inline_seq(sv, ev, fuel as nat) == (match spec_inline_seq(
                sv.skip(i as int),
                ev,
                fuel as nat,
            ) {
                Ok(r) => Ok::<Seq<ValueV>, CompileError>(values_view(out@) + r),
                Err(e) => Err(e),
            }),
        decreases vs@.len() - i,
    {
        let ghost prev_out = values_view(out@);
        let ghost cur = sv.skip(i as int);
        proof {
            lemma_values_view(out@);
            assert(cur[0] == sv[i as int]);
            assert(cur.drop_first() =~= sv.skip(i + 1));
            lemma_size_vals_index(sv, i as int);
            lemma_size_vals_subrange(sv, i + 1, sv.len() as int);
            assert(sv.skip(i + 1) =~= sv.subrange(i + 1, sv.len() as int));
        }
        match inline_value_exec(&vs[i], ifaces, fuel) {
            Ok(nv) => {
                let ghost nvv = nv@;
                out.push(nv);
                proof {
                    lemma_values_view(out@);
                    assert(values_view(out@) =~= prev_out.push(nvv));
                    match spec_inline_seq(sv.skip(i + 1), ev, fuel as nat) {
                        Ok(rr) => {
                            assert(values_view(out@) + rr =~= prev_out + (seq![nvv] + rr));
                        },
                        Err(_) => {},
                    }
                }
                i += 1;
            },
            Err(er) => {
                return Err(er);
            },
        }
    }
    proof {
        assert(sv.skip(vs@.len() as int) =~= Seq::<ValueV>::empty());
    }
    Ok(out)
}

/// Replaces, throughout one tree, every reference to a declared type by
/// an anonymous object literal holding that declaration's children, read
/// from the full snapshot of declarations; references inside a
/// replacement are resolved in turn. Fails when replacements nest deeper
/// than the declaration count allows, which only a cyclic reference set
/// can bring about.
pub fn parse_custom_types(entry: &mut Entry, interfaces: &Vec<Entry>) -> (r: Result<
    (),
    CompileError,
>)
    ensures
        match r {
            Ok(_) => spec_inline_entry(
                old(entry)@,
                entries_view(interfaces@),
                spec_inline_fuel(entries_view(interfaces@)),
            ) == Ok::<_, CompileError>(final(entry)@),
            Err(e) => spec_inline_entry(
                old(entry)@,
                entries_view(interfaces@),
                spec_inline_fuel(entries_view(interfaces@)),
            ) == Err::<EntryV, _>(e) && final(entry)@ == old(entry)@,
        },
{
    proof {
        lemma_entries_view(interfaces@);
    }
    match inline_seq_exec(&entry.value, interfaces, interfaces.len()) {
        Ok(c) => {
            entry.value = c;
            Ok(())
        },
        Err(er) => Err(er),
    }
}

/// Every top-level tree carries a declared name.
pub open spec fn all_named(s: Seq<EntryV>) -> bool {
    forall|i: int| 0 <= i < s.len() ==> (#[trigger] s[i]).key matches KeyV::Name(_)
}

/// The declared name of a top-level tree.
pub open spec fn spec_name_of(e: EntryV) -> Seq<u8> {
    match e.key {
        KeyV::Name(n) => n,
        _ => seq![],
    }
}

/// The children of every tree in `s` declared under `nm`, concatenated in
/// declaration order.
pub open spec fn spec_collect_children(s: Seq<EntryV>, nm: Seq<u8>) -> Seq<ValueV>
    decreases s.len(),
{
    if s.len() == 0 {
        seq![]
    } else if s[0].key == KeyV::Name(nm) {
        s[0].children + spec_collect_children(s.drop_first(), nm)
    } else {
        spec_collect_children(s.drop_first(), nm)
    }
}

/// `s` without the trees declared under `nm`.
pub open spec fn spec_remove_named(s: Seq<EntryV>, nm: Seq<u8>) -> Seq<EntryV>
    decreases s.len(),
{
    if s.len() == 0 {
        seq![]
    } else if s[0].key == KeyV::Name(nm) {
        spec_remove_named(s.drop_first(), nm)
    } else {
        seq![s[0]] + spec_remove_named(s.drop_first(), nm)
    }
}

pub proof fn lemma_remove_named_len(s: Seq<EntryV>, nm: Seq<u8>)
    ensures
        spec_remove_named(s, nm).len() <= s.len(),
    decreases s.len(),
{
    if s.len() > 0 {
        lemma_remove_named_len(s.drop_first(), nm);
    }
}

/// Merging over named trees: same-named declarations collapse into the
/// first of them, their child lists concatenated in declaration order
/// with nothing removed or reordered.
pub open spec fn spec_merge_named(s: Seq<EntryV>) -> Seq<EntryV>
    decreases s.len() via spec_merge_named_dec
{
    if s.len() == 0 {
        seq![]
    } else {
        let nm = spec_name_of(s[0]);
        seq![
            EntryV {
                key: KeyV::Name(nm),
                children: s[0].children + spec_collect_children(s.drop_first(), nm),
            },
        ] + spec_merge_named(spec_remove_named(s.drop_first(), nm))
    }
}

#[via_fn]
proof fn spec_merge_named_dec(s: Seq<EntryV>) {
    if s.len() > 0 {
        lemma_remove_named_len(s.drop_first(), spec_name_of(s[0]));
    }
}

/// Declaration merging: repeated declarations of one name become a single
/// tree whose children are concatenated in declaration order; a tree with
/// no declared name refuses the whole run.
pub open spec fn spec_merge(s: Seq<EntryV>) -> Result<Seq<EntryV>, CompileError> {
    if all_named(s) {
        Ok(spec_merge_named(s))
    } else {
        Err(CompileError::UnnamedDeclaration)
    }
}

/// Merges same-named top-level declarations in place. Fails, leaving the
/// trees untouched, when any of them has no declared name.
pub fn merge_interfaces(interfaces: &mut Vec<Entry>) -> (r: Result<(), CompileError>)
    ensures
        match r {
            Ok(_) => spec_merge(entries_view(old(interfaces)@)) == Ok::<_, CompileError>(
                entries_view(final(interfaces)@),
            ),
            Err(e) => spec_merge(entries_view(old(interfaces)@)) == Err::<Seq<EntryV>, _>(e)
                && entries_view(final(interfaces)@) == entries_view(old(interfaces)@),
        },
{
    let ghost ev = entries_view(interfaces@);
    proof {
        lemma_entries_view(interfaces@);
    }
    let mut q: usize = 0;
    while q < interfaces.len()
        invariant
            q <= interfaces@.len(),
            ev == entries_view(interfaces@),
            ev.len() == interfaces@.len(),
            forall|k: int| 0 <= k < interfaces@.len() ==> ev[k] == entry_view(interfaces@[k]),
            forall|k: int| 0 <= k < q ==> (#[trigger] ev[k]).key matches KeyV::Name(_),
        decreases interfaces@.len() - q,
    {
        if !matches!(&interfaces[q].key, Key::Name(_)) {
            proof {
                assert(!(ev[q as int].key matches KeyV::Name(_)));
                assert(!all_named(ev));
            }
            return Err(CompileError::UnnamedDeclaration);
        }
        q += 1;
    }
    proof {
        assert(all_named(ev));
    }
    let mut rest = copy_entries(interfaces);
    let mut out: Vec<Entry> = Vec::new();
    proof {
        assert(entries_view(out@) =~= Seq::<EntryV>::empty());
        lemma_entries_view(rest@);
        assert(Seq::<EntryV>::empty() + spec_merge_named(entries_view(rest@))
            =~= spec_merge_named(entries_view(rest@)));
    }
    while rest.len() > 0
        invariant
            entries_view(rest@).len() == rest@.len(),
            forall|k: int|
                0 <= k < rest@.len() ==> (#[trigger] entries_view(rest@)[k]) == entry_view(
                    rest@[k],
                ),
            forall|k: int|
                0 <= k < rest@.len() ==> (#[trigger] entries_view(rest@)[k]).key matches
                    KeyV::Name(_),
            spec_merge_named(ev) == entries_view(out@) + spec_merge_named(entries_view(rest@)),
        decreases rest@.len(),
    {
        let ghost restv = entries_view(rest@);
        let ghost prev_out = entries_view(out@);
        proof {
            lemma_entries_view(out@);
        }
        let first = rest.remove(0);
        let ghost firstv = entry_view(first);
        proof {
            lemma_entries_view(rest@);
            assert(entries_view(rest@) =~= restv.drop_first());
            assert(firstv == restv[0]);
        }
        let name = match &first.key {
            Key::Name(nm) => copy_bytes(nm),
            _ => {
                proof {
                    assert(false);
                }
                Vec::new()
            },
        };
        let ghost rv = entries_view(rest@);
        let mut children = first.value;
        let mut new_rest: Vec<Entry> = Vec::new();
        let mut k: usize = 0;
        proof {
            lemma_values_view(children@);
            assert(rv.skip(0) =~= rv);
            assert(entries_view(new_rest@) =~= Seq::<EntryV>::empty());
            assert(values_view(children@) + spec_collect_children(rv.skip(0), name@)
                =~= firstv.children + spec_collect_children(rv, name@));
            assert(entries_view(new_rest@) + spec_remove_named(rv.skip(0), name@)
                =~= spec_remove_named(rv, name@));
        }
        while k < rest.len()
            invariant
                k <= rest@.len(),
                rv == entries_view(rest@),
                rv.len() == rest@.len(),
                forall|j: int| 0 <= j < rest@.len() ==> rv[j] == entry_view(rest@[j]),
                forall|j: int| 0 <= j < rest@.len() ==> (#[trigger] rv[j]).key matches KeyV::Name(
                    _,
                ),
                entries_view(new_rest@).len() == new_rest@.len(),
                forall|j: int|
                    0 <= j < new_rest@.len() ==> (#[trigger] entries_view(new_rest@)[j])
                        == entry_view(new_rest@[j]),
                forall|j: int|
                    0 <= j < new_rest@.len() ==> (#[trigger] entries_view(new_rest@)[j]).key
                        matches KeyV::Name(_),
                values_view(children@) + spec_collect_children(rv.skip(k as int), name@)
                    == firstv.children + spec_collect_children(rv, name@),
                entries_view(new_rest@) + spec_remove_named(rv.skip(k as int), name@)
                    == spec_remove_named(rv, name@),
            decreases rest@.len() - k,
        {
            let ghost prev_children = values_view(children@);
            let ghost prev_new_rest = entries_view(new_rest@);
            proof {
                lemma_values_view(children@);
                lemma_entries_view(new_rest@);
                assert(rv.skip(k as int)[0] == rv[k as int]);
                assert(rv.skip(k as int).drop_first() =~= rv.skip(k + 1));
            }
            let same = match &rest[k].key {
                Key::Name(nm) => bytes_eq(nm, &name),
                _ => false,
            };
            if same {
                let mut extra = copy_values_range(&rest[k].value, 0, rest[k].value.len());
                proof {
                    lemma_values_view(rest@[k as int].value@);
                    assert(values_view(rest@[k as int].value@).subrange(
                        0,
                        rest@[k as int].value@.len() as int,
                    ) =~= values_view(rest@[k as int].value@));
                }
                proof {
                    lemma_values_view(extra@);
                }
                children.append(&mut extra);
                proof {
                    lemma_values_view(children@);
                    assert(values_view(children@) =~= prev_children + rv[k as int].children);
                    assert(prev_children + rv[k as int].children + spec_collect_children(
                        rv.skip(k + 1),
                        name@,
                    ) =~= prev_children + (rv[k as int].children + spec_collect_children(
                        rv.skip(k + 1),
                        name@,
                    )));
                }
            } else {
                let kept = copy_entry(&rest[k]);
                let ghost keptv = entry_view(kept);
                let ghost nb = new_rest@;
                proof {
                    lemma_entries_view_push(nb, kept);
                }
                new_rest.push(kept);
                proof {
                    lemma_entries_view(new_rest@);
                    assert(entries_view(new_rest@) == prev_new_rest.push(keptv));
                    assert(keptv == rv[k as int]);
                    assert(prev_new_rest.push(keptv) + spec_remove_named(rv.skip(k + 1), name@)
                        =~= prev_new_rest + (seq![rv[k as int]] + spec_remove_named(
                        rv.skip(k + 1),
                        name@,
                    )));
                }
            }
            k += 1;
        }
        proof {
            assert(rv.skip(rest@.len() as int) =~= Seq::<EntryV>::empty());
            assert(spec_collect_children(Seq::<EntryV>::empty(), name@) =~= Seq::<
                ValueV,
            >::empty());
            assert(spec_remove_named(Seq::<EntryV>::empty(), name@) =~= Seq::<EntryV>::empty());
            assert(values_view(children@) =~= firstv.children + spec_collect_children(rv, name@));
            assert(entries_view(new_rest@) =~= spec_remove_named(rv, name@));
        }
        let merged = Entry { key: Key::Name(name), value: children };
        let ghost mergedv = entry_view(merged);
        let ghost ob = out@;
        proof {
            lemma_entries_view_push(ob, merged);
        }
        out.push(merged);
        proof {
            lemma_entries_view(out@);
            assert(entries_view(out@) == prev_out.push(mergedv));
            assert(mergedv == EntryV {
                key: KeyV::Name(spec_name_of(restv[0])),
                children: restv[0].children + spec_collect_children(restv.drop_first(), name@),
            });
            assert(spec_merge_named(restv) == seq![mergedv] + spec_merge_named(
                spec_remove_named(restv.drop_first(), name@),
            ));
            assert(prev_out + (seq![mergedv] + spec_merge_named(
                spec_remove_named(restv.drop_first(), name@),
            )) =~= entries_view(out@) + spec_merge_named(
                spec_remove_named(restv.drop_first(), name@),
            ));
        }
        proof {
            lemma_remove_named_len(rv, name@);
            lemma_entries_view(new_rest@);
            assert(new_rest@.len() < restv.len());
        }
        rest = new_rest;
    }
    proof {
        assert(entries_view(rest@) =~= Seq::<EntryV>::empty());
        assert(spec_merge_named(Seq::<EntryV>::empty()) =~= Seq::<EntryV>::empty());
        assert(entries_view(out@) + Seq::<EntryV>::empty() =~= entries_view(out@));
    }
    *interfaces = out;
    Ok(())
}

fn type_eq(a: &Type, b: &Type) -> (r: bool)
    ensures
        r == (a@ == b@),
{
    match (a, b) {
        (Type::Custom(x), Type::Custom(y)) => bytes_eq(x, y),
        (Type::StrLit(x), Type::StrLit(y)) => bytes_eq(x, y),
        (Type::NumLit(x), Type::NumLit(y)) => bytes_eq(x, y),
        (Type::Oper(x), Type::Oper(y)) => x == y,
        (Type::Punct(x), Type::Punct(y)) => x == y,
        (Type::True, Type::True) => true,
        (Type::False, Type::False) => true,
        (Type::Str, Type::Str) => true,
        (Type::Num, Type::Num) => true,
        (Type::Object, Type::Object) => true,
        (Type::Boolean, Type::Boolean) => true,
        (Type::Null, Type::Null) => true,
        (Type::Undefined, Type::Undefined) => true,
        (Type::Function, Type::Function) => true,
        (Type::Symbol, Type::Symbol) => true,
        (Type::BigInt, Type::BigInt) => true,
        (Type::Any, Type::Any) => true,
        (Type::Unknown, Type::Unknown) => true,
        _ => false,
    }
}

fn key_eq(a: &Key, b: &Key) -> (r: bool)
    ensures
        r == (key_view(*a) == key_view(*b)),
{
    match (a, b) {
        (Key::Name(x), Key::Name(y)) => bytes_eq(x, y),
        (Key::Optional(x), Key::Optional(y)) => bytes_eq(x, y),
        (Key::Generic(Generic::Custom(x)), Key::Generic(Generic::Custom(y))) => bytes_eq(x, y),
        (Key::Generic(Generic::Array), Key::Generic(Generic::Array)) => true,
        (Key::Paren, Key::Paren) => true,
        (Key::Or, Key::Or) => true,
        (Key::And, Key::And) => true,
        (Key::Anon, Key::Anon) => true,
        (Key::Tuple, Key::Tuple) => true,
        _ => false,
    }
}

fn value_eq_rec(a: &Value, b: &Value) -> (r: bool)
    ensures
        r == (a@ == b@),
    decreases size_val(a@), 1nat,
{
    match (a, b) {
        (Value::Type(x), Value::Type(y)) => type_eq(x, y),
        (Value::Entry(x), Value::Entry(y)) => entry_eq_rec(x, y),
        _ => false,
    }
}

fn entry_eq_rec(a: &Entry, b: &Entry) -> (r: bool)
    ensures
        r == (a@ == b@),
    decreases size_val(ValueV::Entry(a@)), 0nat,
{
    if !key_eq(&a.key, &b.key) {
        return false;
    }
    let av = &a.value;
    let bv = &b.value;
    proof {
        lemma_values_view(av@);
        lemma_values_view(bv@);
    }
    if av.len() != bv.len() {
        proof {
            assert(values_view(av@).len() != values_view(bv@).len());
        }
        return false;
    }
    let mut i: usize = 0;
    while i < av.len()
        invariant
            i <= av@.len(),
            av@.len() == a.value@.len(),
            a@ == entry_view(*a),
            b@ == entry_view(*b),
            av@ == a.value@,
            bv@ == b.value@,
            av@.len() == bv@.len(),
            values_view(av@).len() == av@.len(),
            values_view(bv@).len() == bv@.len(),
            forall|k: int| 0 <= k < av@.len() ==> values_view(av@)[k] == value_view(av@[k]),
            forall|k: int| 0 <= k < bv@.len() ==> values_view(bv@)[k] == value_view(bv@[k]),
            forall|k: int| 0 <= k < i ==> values_view(av@)[k] == values_view(bv@)[k],
            key_view(a.key) == key_view(b.key),
        decreases av@.len() - i,
    {
        proof {
            lemma_size_vals_index(values_view(a.value@), i as int);
        }
        if !value_eq_rec(&av[i], &bv[i]) {
            proof {
                assert(values_view(av@)[i as int] != values_view(bv@)[i as int]);
                assert(a@.children != b@.children);
            }
            return false;
        }
        i += 1;
    }
    proof {
        assert(values_view(av@) =~= values_view(bv@));
    }
    true
}

impl PartialEq for Value {
    /// Structural equality of two tree values.
    fn eq(&self, other: &Value) -> (r: bool) {
        value_eq_rec(self, other)
    }
}

impl vstd::std_specs::cmp::PartialEqSpecImpl for Value {
    open spec fn obeys_eq_spec() -> bool {
        true
    }

    open spec fn eq_spec(&self, other: &Value) -> bool {
        self@ == other@
    }
}

impl PartialEq for Entry {
    /// Structural equality of two tree nodes.
    fn eq(&self, other: &Entry) -> (r: bool) {
        entry_eq_rec(self, other)
    }
}

impl vstd::std_specs::cmp::PartialEqSpecImpl for Entry {
    open spec fn obeys_eq_spec() -> bool {
        true
    }

    open spec fn eq_spec(&self, other: &Entry) -> bool {
        self@ == other@
    }
}

/// Declaration merging is order-preserving: merging two declarations of
/// one name yields the same tree as a single declaration whose child list
/// is their concatenation, in declaration order.
pub proof fn lemma_merge_order_preserving(nm: Seq<u8>, c1: Seq<ValueV>, c2: Seq<ValueV>)
    ensures
        spec_merge(
            seq![
                EntryV { key: KeyV::Name(nm), children: c1 },
                EntryV { key: KeyV::Name(nm), children: c2 },
            ],
        ) == spec_merge(seq![EntryV { key: KeyV::Name(nm), children: c1 + c2 }]),
{
    let a = EntryV { key: KeyV::Name(nm), children: c1 };
    let b = EntryV { key: KeyV::Name(nm), children: c2 };
    let ab = EntryV { key: KeyV::Name(nm), children: c1 + c2 };
    let s2 = seq![a, b];
    let s1 = seq![ab];
    assert(all_named(s2));
    assert(all_named(s1));
    assert(s2.drop_first() =~= seq![b]);
    assert(seq![b].drop_first() =~= Seq::<EntryV>::empty());
    assert(spec_collect_children(Seq::<EntryV>::empty(), nm) =~= Seq::<ValueV>::empty());
    assert(spec_collect_children(seq![b], nm) =~= c2);
    assert(spec_remove_named(Seq::<EntryV>::empty(), nm) =~= Seq::<EntryV>::empty());
    assert(spec_remove_named(seq![b], nm) =~= Seq::<EntryV>::empty());
    assert(spec_merge_named(Seq::<EntryV>::empty()) =~= Seq::<EntryV>::empty());
    assert(c1 + spec_collect_children(s2.drop_first(), nm) =~= c1 + c2);
    assert(spec_merge_named(s2) =~= seq![ab]);
    assert(s1.drop_first() =~= Seq::<EntryV>::empty());
    assert((c1 + c2) + spec_collect_children(s1.drop_first(), nm) =~= c1 + c2);
    assert(spec_merge_named(s1) =~= seq![ab]);
}

/// Declaration merging is associative over three same-named declarations:
/// the three child lists concatenate in declaration order either way.
pub proof fn lemma_merge_associative(
    nm: Seq<u8>,
    c1: Seq<ValueV>,
    c2: Seq<ValueV>,
    c3: Seq<ValueV>,
)
    ensures
        spec_merge(
            seq![
                EntryV { key: KeyV::Name(nm), children: c1 },
                EntryV { key: KeyV::Name(nm), children: c2 },
                EntryV { key: KeyV::Name(nm), children: c3 },
            ],
        ) == spec_merge(seq![EntryV { key: KeyV::Name(nm), children: (c1 + c2) + c3 }]),
        spec_merge(
            seq![
                EntryV { key: KeyV::Name(nm), children: c1 },
                EntryV { key: KeyV::Name(nm), children: c2 },
                EntryV { key: KeyV::Name(nm), children: c3 },
            ],
        ) == spec_merge(seq![EntryV { key: KeyV::Name(nm), children: c1 + (c2 + c3) }]),
{
    let a = EntryV { key: KeyV::Name(nm), children: c1 };
    let b = EntryV { key: KeyV::Name(nm), children: c2 };
    let c = EntryV { key: KeyV::Name(nm), children: c3 };
    let s3 = seq![a, b, c];
    assert(all_named(s3));
    assert(all_named(seq![EntryV { key: KeyV::Name(nm), children: (c1 + c2) + c3 }]));
    assert(all_named(seq![EntryV { key: KeyV::Name(nm), children: c1 + (c2 + c3) }]));
    assert(s3.drop_first() =~= seq![b, c]);
    assert(seq![b, c].drop_first() =~= seq![c]);
    assert(seq![c].drop_first() =~= Seq::<EntryV>::empty());
    assert(spec_collect_children(Seq::<EntryV>::empty(), nm) =~= Seq::<ValueV>::empty());
    assert(spec_collect_children(seq![c], nm) =~= c3);
    assert(spec_collect_children(seq![b, c], nm) =~= c2 + c3);
    assert(spec_remove_named(Seq::<EntryV>::empty(), nm) =~= Seq::<EntryV>::empty());
    assert(spec_remove_named(seq![c], nm) =~= Seq::<EntryV>::empty());
    assert(spec_remove_named(seq![b, c], nm) =~= Seq::<EntryV>::empty());
    assert(spec_merge_named(Seq::<EntryV>::empty()) =~= Seq::<EntryV>::empty());
    let merged = EntryV { key: KeyV::Name(nm), children: c1 + (c2 + c3) };
    assert(spec_merge_named(s3) =~= seq![merged]);
    let lhs = EntryV { key: KeyV::Name(nm), children: (c1 + c2) + c3 };
    assert((c1 + c2) + c3 =~= c1 + (c2 + c3));
    assert(seq![lhs].drop_first() =~= Seq::<EntryV>::empty());
    assert(((c1 + c2) + c3) + spec_collect_children(Seq::<EntryV>::empty(), nm) =~= c1 + (c2
        + c3));
    assert(spec_merge_named(seq![lhs]) =~= seq![merged]);
    let rhs = EntryV { key: KeyV::Name(nm), children: c1 + (c2 + c3) };
    assert((c1 + (c2 + c3)) + spec_collect_children(Seq::<EntryV>::empty(), nm) =~= c1 + (c2
        + c3));
    assert(spec_merge_named(seq![rhs]) =~= seq![merged]);
}

/// Connective folding is left-associative: a chain of three operands
/// folds into a binary node whose left child is the binary node over the
/// first two.
pub proof fn lemma_fold_left_associative(op: Oper, a: ValueV, b: ValueV, c: ValueV)
    requires
        a != conn_atom(op),
        b != conn_atom(op),
        c != conn_atom(op),
        spec_fold_value(op, a) == a,
        spec_fold_value(op, b) == b,
        spec_fold_value(op, c) == c,
    ensures
        spec_fold_seq(op, seq![a, conn_atom(op), b, conn_atom(op), c]) == seq![
            ValueV::Entry(
                EntryV {
                    key: key_of_op(op),
                    children: seq![
                        ValueV::Entry(EntryV { key: key_of_op(op), children: seq![a, b] }),
                        c,
                    ],
                },
            ),
        ],
{
    let k = conn_atom(op);
    let s = seq![a, k, b, k, c];
    lemma_fold_children(op, s);
    assert(spec_fold_value(op, k) == k);
    assert(spec_fold_children(op, s) =~= s);
    let node1 = ValueV::Entry(EntryV { key: key_of_op(op), children: seq![a, b] });
    let node2 = ValueV::Entry(EntryV { key: key_of_op(op), children: seq![node1, c] });
    // the scan, one step at a time
    let r0 = s;
    let r1 = s.drop_first();
    assert(r1 =~= seq![k, b, k, c]);
    let r2 = r1.skip(2);
    assert(r2 =~= seq![k, c]);
    let r3 = r2.skip(2);
    assert(r3 =~= Seq::<ValueV>::empty());
    let o1 = Seq::<ValueV>::empty().push(a);
    assert(spec_fold_scan(op, seq![], r0) == spec_fold_scan(op, o1, r1));
    assert(o1.last() == a && r1[1] == b);
    assert(o1.drop_last().push(node1) =~= seq![node1]);
    assert(seq![node1].last() == node1 && r2[1] == c);
    assert(spec_fold_scan(op, o1, r1) == spec_fold_scan(op, seq![node1], r2));
    assert(seq![node1].drop_last().push(node2) =~= seq![node2]);
    assert(spec_fold_scan(op, seq![node1], r2) == spec_fold_scan(op, seq![node2], r3));
    assert(spec_fold_scan(op, seq![node2], r3) == seq![node2]);
}

/// Array-suffix grouping round-trips nesting: a doubled suffix after one
/// operand parses as an array of arrays of that operand.
pub proof fn lemma_array_suffix_nesting(t: ValueV)
    requires
        !(t matches ValueV::Atom(TypeV::Punct(_))),
    ensures
        spec_arr_seq(
            seq![
                t,
                punct_atom(Punct::LBrack),
                punct_atom(Punct::RBrack),
                punct_atom(Punct::LBrack),
                punct_atom(Punct::RBrack),
            ],
        ) == Ok::<_, CompileError>(
            seq![
                ValueV::Entry(
                    EntryV {
                        key: KeyV::Generic(GenericV::Array),
                        children: seq![
                            ValueV::Entry(
                                EntryV {
                                    key: KeyV::Generic(GenericV::Array),
                                    children: seq![t],
                                },
                            ),
                        ],
                    },
                ),
            ],
        ),
{
    let lb = punct_atom(Punct::LBrack);
    let rb = punct_atom(Punct::RBrack);
    let s = seq![t, lb, rb, lb, rb];
    // the rightmost pair is the one at the end
    assert(s[s.len() - 2] == lb && s[s.len() - 1] == rb);
    assert(spec_rightmost_pair(s) == Some(4int));
    // the backward capture walks over the inner pair to the operand
    assert(s[2] == rb && s[1] == lb && s[0] == t);
    assert(forall|p: Punct| t != punct_atom(p));
    assert(spec_capture(s, 2, 0, seq![]) == spec_capture(s, 1, 0, seq![rb]));
    assert(seq![lb] + seq![rb] =~= seq![lb, rb]);
    assert(spec_capture(s, 1, 0, seq![rb]) == spec_capture(s, 0, 0, seq![lb, rb]));
    assert(seq![t] + seq![lb, rb] =~= seq![t, lb, rb]);
    assert(spec_capture(s, 0, 0, seq![lb, rb]) == Ok::<_, CompileError>((
        0int,
        seq![t, lb, rb],
    )));
    // the captured span groups its own suffix the same way
    let inner_s = seq![t, lb, rb];
    assert(inner_s[inner_s.len() - 2] == lb && inner_s[inner_s.len() - 1] == rb);
    assert(spec_rightmost_pair(inner_s) == Some(2int));
    assert(inner_s[0] == t);
    assert(seq![t] + seq![] =~= seq![t]);
    assert(spec_capture(inner_s, 0, 0, seq![]) == Ok::<_, CompileError>((0int, seq![t])));
    let t_only = seq![t];
    assert(t_only.drop_last() =~= Seq::<ValueV>::empty());
    assert(spec_rightmost_pair(t_only) is None);
    assert(spec_arr_seq(t_only) == Ok::<_, CompileError>(t_only));
    assert(inner_s.take(0) =~= Seq::<ValueV>::empty());
    assert(spec_rightmost_pair(Seq::<ValueV>::empty()) is None);
    assert(spec_arr_seq(Seq::<ValueV>::empty()) == Ok::<_, CompileError>(
        Seq::<ValueV>::empty(),
    ));
    let inner_node = ValueV::Entry(
        EntryV { key: KeyV::Generic(GenericV::Array), children: seq![t] },
    );
    assert(inner_s.skip(3) =~= Seq::<ValueV>::empty());
    assert(Seq::<ValueV>::empty() + seq![inner_node] + inner_s.skip(3) =~= seq![inner_node]);
    assert(spec_arr_seq(inner_s) == Ok::<_, CompileError>(seq![inner_node]));
    // the outer grouping wraps the inner result
    let outer_node = ValueV::Entry(
        EntryV { key: KeyV::Generic(GenericV::Array), children: seq![inner_node] },
    );
    assert(s.take(0) =~= Seq::<ValueV>::empty());
    assert(s.skip(5) =~= Seq::<ValueV>::empty());
    assert(Seq::<ValueV>::empty() + seq![outer_node] + s.skip(5) =~= seq![outer_node]);
    assert(spec_arr_seq(s) == Ok::<_, CompileError>(seq![outer_node]));
}

/// No reference to a declared type remains anywhere under a value.
pub open spec fn value_resolved(v: ValueV, ifaces: Seq<EntryV>) -> bool
    decreases size_val(v), 0nat,
{
    match v {
        ValueV::Atom(TypeV::Custom(nm)) => spec_lookup(ifaces, nm) is None,
        ValueV::Atom(_) => true,
        ValueV::Entry(e) => values_resolved(e.children, ifaces),
    }
}

/// No reference to a declared type remains anywhere under a sequence.
pub open spec fn values_resolved(s: Seq<ValueV>, ifaces: Seq<EntryV>) -> bool
    decreases size_vals(s), 1nat via values_resolved_dec
{
    if s.len() == 0 {
        true
    } else {
        value_resolved(s[0], ifaces) && values_resolved(s.drop_first(), ifaces)
    }
}

#[via_fn]
proof fn values_resolved_dec(s: Seq<ValueV>, ifaces: Seq<EntryV>) {
    if s.len() > 0 {
        lemma_size_val_pos(s[0]);
        lemma_size_vals_head(s);
    }
}

/// What inlining returns holds no further matching reference.
pub proof fn lemma_inline_resolves(v: ValueV, ifaces: Seq<EntryV>, fuel: nat)
    ensures
        spec_inline_value(v, ifaces, fuel) matches Ok(w) ==> value_resolved(w, ifaces),
    decreases fuel, size_val(v), 0nat,
{
    match v {
        ValueV::Atom(TypeV::Custom(nm)) => {
            if spec_lookup(ifaces, nm) is Some && fuel > 0 {
                lemma_inline_seq_resolves(
                    spec_lookup(ifaces, nm).unwrap(),
                    ifaces,
                    (fuel - 1) as nat,
                );
            }
        },
        ValueV::Atom(_) => {},
        ValueV::Entry(e) => {
            lemma_inline_seq_resolves(e.children, ifaces, fuel);
        },
    }
}

pub proof fn lemma_inline_seq_resolves(s: Seq<ValueV>, ifaces: Seq<EntryV>, fuel: nat)
    ensures
        spec_inline_seq(s, ifaces, fuel) matches Ok(w) ==> values_resolved(w, ifaces),
    decreases fuel, size_vals(s), 1nat,
{
    if s.len() > 0 {
        lemma_size_val_pos(s[0]);
        lemma_size_vals_head(s);
        lemma_inline_resolves(s[0], ifaces, fuel);
        lemma_inline_seq_resolves(s.drop_first(), ifaces, fuel);
        if spec_inline_seq(s, ifaces, fuel) is Ok {
            let h = spec_inline_value(s[0], ifaces, fuel).unwrap();
            let r = spec_inline_seq(s.drop_first(), ifaces, fuel).unwrap();
            assert((seq![h] + r)[0] == h);
            assert((seq![h] + r).drop_first() =~= r);
        }
    }
}

/// On a value with no matching reference, inlining is the identity.
pub proof fn lemma_resolved_inline_identity(v: ValueV, ifaces: Seq<EntryV>, fuel: nat)
    requires
        value_resolved(v, ifaces),
    ensures
        spec_inline_value(v, ifaces, fuel) == Ok::<_, CompileError>(v),
    decreases fuel, size_val(v), 0nat,
{
    match v {
        ValueV::Atom(_) => {},
        ValueV::Entry(e) => {
            lemma_resolved_seq_inline_identity(e.children, ifaces, fuel);
            assert(EntryV { key: e.key, children: e.children } == e);
        },
    }
}

pub proof fn lemma_resolved_seq_inline_identity(s: Seq<ValueV>, ifaces: Seq<EntryV>, fuel: nat)
    requires
        values_resolved(s, ifaces),
    ensures
        spec_inline_seq(s, ifaces, fuel) == Ok::<_, CompileError>(s),
    decreases fuel, size_vals(s), 1nat,
{
    if s.len() > 0 {
        lemma_size_val_pos(s[0]);
        lemma_size_vals_head(s);
        lemma_resolved_inline_identity(s[0], ifaces, fuel);
        lemma_resolved_seq_inline_identity(s.drop_first(), ifaces, fuel);
        assert(seq![s[0]] + s.drop_first() =~= s);
    } else {
        assert(s =~= Seq::<ValueV>::empty());
        assert(spec_inline_seq(s, ifaces, fuel) == Ok::<_, CompileError>(
            Seq::<ValueV>::empty(),
        ));
    }
}

/// Whether a name resolves depends only on the declarations' names.
pub proof fn lemma_lookup_same_names(x: Seq<EntryV>, y: Seq<EntryV>, nm: Seq<u8>)
    requires
        x.len() == y.len(),
        forall|i: int| 0 <= i < x.len() ==> (#[trigger] x[i]).key == y[i].key,
    ensures
        (spec_lookup(x, nm) is None) == (spec_lookup(y, nm) is None),
    decreases x.len(),
{
    if x.len() > 0 {
        assert(x.last().key == y.last().key);
        if !(x.last().key == KeyV::Name(nm)) {
            assert(forall|i: int|
                0 <= i < x.drop_last().len() ==> (#[trigger] x.drop_last()[i]).key
                    == y.drop_last()[i].key);
            lemma_lookup_same_names(x.drop_last(), y.drop_last(), nm);
        }
    }
}

/// Being fully resolved transfers between declaration sets that carry the
/// same names.
pub proof fn lemma_resolved_transfer(v: ValueV, x: Seq<EntryV>, y: Seq<EntryV>)
    requires
        value_resolved(v, x),
        x.len() == y.len(),
        forall|i: int| 0 <= i < x.len() ==> (#[trigger] x[i]).key == y[i].key,
    ensures
        value_resolved(v, y),
    decreases size_val(v), 0nat,
{
    match v {
        ValueV::Atom(TypeV::Custom(nm)) => {
            lemma_lookup_same_names(x, y, nm);
        },
        ValueV::Atom(_) => {},
        ValueV::Entry(e) => {
            lemma_resolved_seq_transfer(e.children, x, y);
        },
    }
}

pub proof fn lemma_resolved_seq_transfer(s: Seq<ValueV>, x: Seq<EntryV>, y: Seq<EntryV>)
    requires
        values_resolved(s, x),
        x.len() == y.len(),
        forall|i: int| 0 <= i < x.len() ==> (#[trigger] x[i]).key == y[i].key,
    ensures
        values_resolved(s, y),
    decreases size_vals(s), 1nat,
{
    if s.len() > 0 {
        lemma_size_val_pos(s[0]);
        lemma_size_vals_head(s);
        lemma_resolved_transfer(s[0], x, y);
        lemma_resolved_seq_transfer(s.drop_first(), x, y);
    }
}

} // verus!
