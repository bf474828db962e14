use ts_runtime_typechecker::{compile, generate, Extension};

fn emit(src: &str, ext: Extension) -> String {
    let trees = compile(&src.as_bytes().to_vec()).unwrap();
    String::from_utf8(generate(&trees, ext).unwrap()).unwrap()
}

#[test]
fn two_number_fields_exact_text() {
    let out = emit("interface P { x: number; y: number; }", Extension::JS);
    assert_eq!(
        out,
        "export function isP(o){return(typeof o===\"object\"&&o!==null&&Object.keys(o).length===2&&\"x\" in o&&typeof o.x===\"number\"&&\"y\" in o&&typeof o.y===\"number\")}\n"
    );
}

#[test]
fn union_array_field_exact_text() {
    let out = emit("interface A { v: (number|string)[]; }", Extension::JS);
    assert_eq!(
        out,
        "export function isA(o){return(typeof o===\"object\"&&o!==null&&Object.keys(o).length===1&&\"v\" in o&&(Array.isArray(o.v)&&(typeof o.v[0]===\"number\"||typeof o.v[0]===\"string\")))}\n"
    );
}

#[test]
fn single_field_guard_shape() {
    let out = emit("interface I { f: number; }", Extension::JS);
    assert_eq!(
        out,
        "export function isI(o){return(typeof o===\"object\"&&o!==null&&Object.keys(o).length===1&&\"f\" in o&&typeof o.f===\"number\")}\n"
    );
}

#[test]
fn optional_field_text() {
    let out = emit("interface O { f?: string; }", Extension::JS);
    assert_eq!(
        out,
        "export function isO(o){return(typeof o===\"object\"&&o!==null&&Object.keys(o).length===1&&((\"f\" in o===false)||(\"f\" in o&&typeof o.f===\"string\")))}\n"
    );
}

#[test]
fn nested_array_suffix_text() {
    let out = emit("interface T { x: number[][]; }", Extension::JS);
    assert_eq!(
        out,
        "export function isT(o){return(typeof o===\"object\"&&o!==null&&Object.keys(o).length===1&&\"x\" in o&&(Array.isArray(o.x)&&(Array.isArray(o.x[0])&&typeof o.x[0][0]===\"number\")))}\n"
    );
}

#[test]
fn conjunction_folds_left_associatively() {
    let out = emit("interface C { v: number & string & boolean; }", Extension::JS);
    assert_eq!(
        out,
        "export function isC(o){return(typeof o===\"object\"&&o!==null&&Object.keys(o).length===1&&\"v\" in o&&((typeof o.v===\"number\"&&typeof o.v===\"string\")&&typeof o.v===\"boolean\"))}\n"
    );
}

#[test]
fn mixed_connectives_give_conjunction_precedence() {
    let out = emit("interface M { v: number & string | boolean; }", Extension::JS);
    assert_eq!(
        out,
        "export function isM(o){return(typeof o===\"object\"&&o!==null&&Object.keys(o).length===1&&\"v\" in o&&((typeof o.v===\"number\"&&typeof o.v===\"string\")||typeof o.v===\"boolean\"))}\n"
    );
}

#[test]
fn tuple_field_text() {
    let out = emit("interface A { p: [number, string]; }", Extension::JS);
    assert_eq!(
        out,
        "export function isA(o){return(typeof o===\"object\"&&o!==null&&Object.keys(o).length===1&&\"p\" in o&&(Array.isArray(o.p)&&o.p.length===2&&typeof o.p[0]===\"number\"&&typeof o.p[1]===\"string\"))}\n"
    );
}

#[test]
fn literal_types_text() {
    let out = emit(
        "interface L { t: true; f: false; n: null; s: \"lit\"; m: 5; neg: -3; }",
        Extension::JS,
    );
    assert_eq!(
        out,
        "export function isL(o){return(typeof o===\"object\"&&o!==null&&Object.keys(o).length===6&&\"t\" in o&&o.t===true&&\"f\" in o&&o.f===false&&\"n\" in o&&o.n===null&&\"s\" in o&&o.s===\"lit\"&&\"m\" in o&&o.m===5&&\"neg\" in o&&o.neg===-3)}\n"
    );
}

#[test]
fn named_type_is_inlined_as_object_literal() {
    let out = emit(
        "interface B { n: number; } interface A { b: B; }",
        Extension::JS,
    );
    assert_eq!(
        out,
        "export function isB(o){return(typeof o===\"object\"&&o!==null&&Object.keys(o).length===1&&\"n\" in o&&typeof o.n===\"number\")}\n\nexport function isA(o){return(typeof o===\"object\"&&o!==null&&Object.keys(o).length===1&&\"b\" in o&&(typeof o.b===\"object\"&&o.b!==null&&Object.keys(o.b).length===1&&\"n\" in o.b&&typeof o.b.n===\"number\"))}\n"
    );
}

#[test]
fn annotated_target_text() {
    let out = emit("interface P { x: number; }", Extension::TS);
    assert_eq!(
        out,
        "export function isP(o: unknown): o is P{return(typeof o===\"object\"&&o!==null&&Object.keys(o).length===1&&\"x\" in o&&typeof o.x===\"number\")}\n"
    );
}

#[test]
fn unresolved_generic_emits_no_check() {
    let out = emit("interface G { x: Box<number>; }", Extension::JS);
    assert_eq!(
        out,
        "export function isG(o){return(typeof o===\"object\"&&o!==null&&Object.keys(o).length===1&&\"x\" in o&&)}\n"
    );
}

#[test]
fn string_literal_keys_render_as_bracket_keys() {
    let out = emit("interface K { \"a-b\": number; }", Extension::JS);
    assert_eq!(
        out,
        "export function isK(o){return(typeof o===\"object\"&&o!==null&&Object.keys(o).length===1&&\"a-b\" in o&&typeof o[\"a-b\"]===\"number\")}\n"
    );
}

#[test]
fn escaped_quote_in_string_literal_type() {
    let trees = compile(&b"interface E { s: \"a\\\"b\"; }".to_vec()).unwrap();
    let out = String::from_utf8(generate(&trees, Extension::JS).unwrap()).unwrap();
    assert_eq!(
        out,
        "export function isE(o){return(typeof o===\"object\"&&o!==null&&Object.keys(o).length===1&&\"s\" in o&&o.s===\"a\\\"b\")}\n"
    );
}

#[test]
fn adjacent_connectives_collapse_to_the_last() {
    let out = emit("interface D { v: number & | string; }", Extension::JS);
    assert_eq!(
        out,
        "export function isD(o){return(typeof o===\"object\"&&o!==null&&Object.keys(o).length===1&&\"v\" in o&&(typeof o.v===\"number\"||typeof o.v===\"string\"))}\n"
    );
}

#[test]
fn remaining_primitives_typeof_names() {
    let out = emit(
        "interface R { a: Function; b: symbol; c: bigint; d: undefined; e: object; }",
        Extension::JS,
    );
    assert_eq!(
        out,
        "export function isR(o){return(typeof o===\"object\"&&o!==null&&Object.keys(o).length===5&&\"a\" in o&&typeof o.a===\"function\"&&\"b\" in o&&typeof o.b===\"symbol\"&&\"c\" in o&&typeof o.c===\"bigint\"&&\"d\" in o&&typeof o.d===\"undefined\"&&\"e\" in o&&typeof o.e===\"object\")}\n"
    );
}

#[test]
fn keyword_field_names_are_accepted() {
    let out = emit("interface K { string: number; }", Extension::JS);
    assert_eq!(
        out,
        "export function isK(o){return(typeof o===\"object\"&&o!==null&&Object.keys(o).length===1&&\"string\" in o&&typeof o.string===\"number\")}\n"
    );
}

#[test]
fn nested_object_literal_counts_its_own_keys() {
    let out = emit("interface N { a: { b: number; c: string; }; }", Extension::JS);
    assert_eq!(
        out,
        "export function isN(o){return(typeof o===\"object\"&&o!==null&&Object.keys(o).length===1&&\"a\" in o&&(typeof o.a===\"object\"&&o.a!==null&&Object.keys(o.a).length===2&&\"b\" in o.a&&typeof o.a.b===\"number\"&&\"c\" in o.a&&typeof o.a.c===\"string\"))}\n"
    );
}
