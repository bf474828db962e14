//! The meaning of a canonical predicate tree: a model of the dynamic
//! values the emitted guard runs on, and the satisfaction relation that
//! reads the code generator's emission table semantically — one clause
//! per node shape and leaf atom, each the meaning of the boolean
//! expression that shape emits at its address.
use vstd::prelude::*;

use crate::js::{spec_dec, JSType};
use crate::lexer::TypeV;
use crate::parsers::{
    lemma_size_val_pos, lemma_size_vals_head, size_val, size_vals, EntryV, GenericV, KeyV, ValueV,
};

verus! {

broadcast use vstd::seq::axiom_seq_index_decreases, vstd::seq::axiom_seq_subrange_decreases;

/// A dynamic value as the emitted guard sees it: numbers and their
/// literals are carried in canonical decimal text.
pub enum JsVal {
    Null,
    Undef,
    Bool(bool),
    Num(Seq<u8>),
    Str(Seq<u8>),
    Arr(Seq<JsVal>),
    Obj(Map<Seq<u8>, JsVal>),
    Func,
    Sym,
    Big,
}

/// What `typeof` answers on a value: arrays and the null value answer as
/// objects.
pub open spec fn js_typeof(v: JsVal) -> JSType {
    match v {
        JsVal::Null => JSType::Object,
        JsVal::Undef => JSType::Undefined,
        JsVal::Bool(_) => JSType::Boolean,
        JsVal::Num(_) => JSType::Num,
        JsVal::Str(_) => JSType::Str,
        JsVal::Arr(_) => JSType::Object,
        JsVal::Obj(_) => JSType::Object,
        JsVal::Func => JSType::Function,
        JsVal::Sym => JSType::Symbol,
        JsVal::Big => JSType::BigInt,
    }
}

/// Whether `k` is an own key of the value: a key of an object, or the
/// decimal text of an index into an array.
pub open spec fn js_has(v: JsVal, k: Seq<u8>) -> bool {
    match v {
        JsVal::Obj(m) => m.dom().contains(k),
        JsVal::Arr(s) => exists|i: nat| i < s.len() && spec_dec(i) == k,
        _ => false,
    }
}

/// The value behind an own key; absent keys read as the undefined value.
pub open spec fn js_get(v: JsVal, k: Seq<u8>) -> JsVal {
    match v {
        JsVal::Obj(m) => if m.dom().contains(k) {
            m[k]
        } else {
            JsVal::Undef
        },
        JsVal::Arr(s) => {
            if exists|i: nat| i < s.len() && spec_dec(i) == k {
                s[(choose|i: nat| i < s.len() && spec_dec(i) == k) as int]
            } else {
                JsVal::Undef
            }
        },
        _ => JsVal::Undef,
    }
}

/// The element of an array at a numeric index.
pub open spec fn js_index(v: JsVal, i: nat) -> JsVal {
    match v {
        JsVal::Arr(s) => if i < s.len() {
            s[i as int]
        } else {
            JsVal::Undef
        },
        _ => JsVal::Undef,
    }
}

/// Whether the value is an array.
pub open spec fn js_is_array(v: JsVal) -> bool {
    v matches JsVal::Arr(_)
}

/// Whether the value's own keys form a finite collection.
pub open spec fn js_keys_finite(v: JsVal) -> bool {
    match v {
        JsVal::Obj(m) => m.dom().finite(),
        _ => true,
    }
}

/// How many own keys the value carries.
pub open spec fn js_keys_count(v: JsVal) -> nat {
    match v {
        JsVal::Obj(m) => m.dom().len(),
        JsVal::Arr(s) => s.len(),
        _ => 0,
    }
}

/// The length of an array value.
pub open spec fn js_arr_len(v: JsVal) -> nat {
    match v {
        JsVal::Arr(s) => s.len(),
        _ => 0,
    }
}

/// When a dynamic value satisfies the check one tree value emits at its
/// address: the semantic reading of the emission table, clause by clause.
pub open spec fn sat_value(v: ValueV, cur: JsVal) -> bool
    decreases size_val(v), 0nat via sat_value_dec
{
    match v {
        ValueV::Entry(e) => match e.key {
            KeyV::Name(f) => js_has(cur, f) && sat_all(e.children, js_get(cur, f)),
            KeyV::Optional(f) => !js_has(cur, f) || (js_has(cur, f) && sat_all(
                e.children,
                js_get(cur, f),
            )),
            KeyV::Generic(GenericV::Custom(_)) => true,
            KeyV::Generic(GenericV::Array) => js_is_array(cur) && sat_all(
                e.children,
                js_index(cur, 0),
            ),
            KeyV::Or => {
                if e.children.len() == 2 {
                    sat_value(e.children[0], cur) || sat_value(e.children[1], cur)
                } else {
                    true
                }
            },
            KeyV::And => {
                if e.children.len() == 2 {
                    sat_value(e.children[0], cur) && sat_value(e.children[1], cur)
                } else {
                    true
                }
            },
            KeyV::Anon => js_typeof(cur) == JSType::Object && cur != JsVal::Null
                && js_keys_finite(cur) && js_keys_count(cur) == e.children.len() && sat_all(
                e.children,
                cur,
            ),
            KeyV::Paren => sat_all(e.children, cur),
            KeyV::Tuple => js_is_array(cur) && js_arr_len(cur) == e.children.len() && sat_items(
                e.children,
                cur,
                0,
            ),
        },
        ValueV::Atom(t) => match t {
            TypeV::Num => js_typeof(cur) == JSType::Num,
            TypeV::Str => js_typeof(cur) == JSType::Str,
            TypeV::Object => js_typeof(cur) == JSType::Object,
            TypeV::Boolean => js_typeof(cur) == JSType::Boolean,
            TypeV::Undefined => js_typeof(cur) == JSType::Undefined,
            TypeV::Function => js_typeof(cur) == JSType::Function,
            TypeV::Symbol => js_typeof(cur) == JSType::Symbol,
            TypeV::BigInt => js_typeof(cur) == JSType::BigInt,
            TypeV::True => cur == JsVal::Bool(true),
            TypeV::False => cur == JsVal::Bool(false),
            TypeV::Null => cur == JsVal::Null,
            TypeV::Any => true,
            TypeV::Unknown => true,
            TypeV::StrLit(x) => cur == JsVal::Str(x),
            TypeV::NumLit(x) => cur == JsVal::Num(x),
            TypeV::Custom(_) => js_typeof(cur) == JSType::Object,
            TypeV::Oper(_) => true,
            TypeV::Punct(_) => true,
        },
    }
}

/// The conjunction of the checks of every child, all at one address.
pub open spec fn sat_all(s: Seq<ValueV>, cur: JsVal) -> bool
    decreases size_vals(s), 1nat via sat_all_dec
{
    if s.len() == 0 {
        true
    } else {
        sat_value(s[0], cur) && sat_all(s.drop_first(), cur)
    }
}

/// The conjunction of a tuple's element checks, each at its own index.
pub open spec fn sat_items(s: Seq<ValueV>, cur: JsVal, idx: nat) -> bool
    decreases size_vals(s), 1nat via sat_items_dec
{
    if s.len() == 0 {
        true
    } else {
        sat_value(s[0], js_index(cur, idx)) && sat_items(s.drop_first(), cur, idx + 1)
    }
}

#[via_fn]
proof fn sat_value_dec(v: ValueV, cur: JsVal) {
    match v {
        ValueV::Entry(e) => {
            if (e.key == KeyV::Or || e.key == KeyV::And) && e.children.len() == 2 {
                crate::parsers::lemma_size_vals_index(e.children, 0);
                crate::parsers::lemma_size_vals_index(e.children, 1);
            }
        },
        ValueV::Atom(_) => {},
    }
}

#[via_fn]
proof fn sat_all_dec(s: Seq<ValueV>, cur: JsVal) {
    if s.len() > 0 {
        lemma_size_val_pos(s[0]);
        lemma_size_vals_head(s);
    }
}

#[via_fn]
proof fn sat_items_dec(s: Seq<ValueV>, cur: JsVal, idx: nat) {
    if s.len() > 0 {
        lemma_size_val_pos(s[0]);
        lemma_size_vals_head(s);
    }
}

/// When a dynamic value satisfies the whole guard of one declared type:
/// the object shape checks the root text emits, then every field check.
pub open spec fn sat_root(t: EntryV, target: JsVal) -> bool {
    js_typeof(target) == JSType::Object && target != JsVal::Null && js_keys_finite(target)
        && js_keys_count(target) == t.children.len() && sat_all(t.children, target)
}

/// The single-field guard law: for every declared name, field name and
/// dynamic value, the guard of `interface I { f: number; }` holds exactly
/// when the value is a non-null object with exactly one own key, that
/// key is the field's name, and the field's value answers `typeof` as a
/// number.
pub proof fn lemma_single_field_guard(iname: Seq<u8>, f: Seq<u8>, target: JsVal)
    ensures
        sat_root(
            EntryV {
                key: KeyV::Name(iname),
                children: seq![
                    ValueV::Entry(
                        EntryV {
                            key: KeyV::Name(f),
                            children: seq![ValueV::Atom(TypeV::Num)],
                        },
                    ),
                ],
            },
            target,
        ) <==> (js_typeof(target) == JSType::Object && target != JsVal::Null && js_keys_finite(
            target,
        ) && js_keys_count(target) == 1 && js_has(target, f) && js_typeof(js_get(target, f))
            == JSType::Num),
{
    let field = ValueV::Entry(
        EntryV { key: KeyV::Name(f), children: seq![ValueV::Atom(TypeV::Num)] },
    );
    let kids = seq![field];
    assert(kids[0] == field);
    assert(kids.drop_first() =~= Seq::<ValueV>::empty());
    assert(sat_all(Seq::<ValueV>::empty(), target));
    assert(sat_all(kids, target) == sat_value(field, target));
    let inner = seq![ValueV::Atom(TypeV::Num)];
    assert(inner[0] == ValueV::Atom(TypeV::Num));
    assert(inner.drop_first() =~= Seq::<ValueV>::empty());
    assert(sat_all(Seq::<ValueV>::empty(), js_get(target, f)));
    assert(sat_all(inner, js_get(target, f)) == sat_value(
        ValueV::Atom(TypeV::Num),
        js_get(target, f),
    ));
}

/// The optional-field law: an optional field's check is satisfied when
/// the key is absent, and when the key is present with its value passing
/// every child check; with the key present and a child check failing, it
/// is not satisfied.
pub proof fn lemma_optional_field(f: Seq<u8>, kids: Seq<ValueV>, cur: JsVal)
    ensures
        !js_has(cur, f) ==> sat_value(
            ValueV::Entry(EntryV { key: KeyV::Optional(f), children: kids }),
            cur,
        ),
        js_has(cur, f) && sat_all(kids, js_get(cur, f)) ==> sat_value(
            ValueV::Entry(EntryV { key: KeyV::Optional(f), children: kids }),
            cur,
        ),
        js_has(cur, f) && !sat_all(kids, js_get(cur, f)) ==> !sat_value(
            ValueV::Entry(EntryV { key: KeyV::Optional(f), children: kids }),
            cur,
        ),
{
}

} // verus!
