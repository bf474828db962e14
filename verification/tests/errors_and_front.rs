use ts_runtime_typechecker::lexer::{find_interfaces, tokenize, Token};
use ts_runtime_typechecker::parsers::{merge_interfaces, parse_interfaces, Entry, Key, Value};
use ts_runtime_typechecker::{compile, generate, get_extension, CompileError, Extension};

fn compile_err(src: &str) -> CompileError {
    compile(&src.as_bytes().to_vec()).unwrap_err()
}

#[test]
fn interface_without_name_is_fatal() {
    assert_eq!(compile_err("interface { x: number; }"), CompileError::MissingInterfaceName);
}

#[test]
fn nested_interface_is_fatal() {
    assert_eq!(
        compile_err("interface A { b: { c: interface B { x: number } } }"),
        CompileError::NestedInterface
    );
}

#[test]
fn unterminated_declaration_is_fatal() {
    // the pre-filter fails open on the unclosed body, so nothing is declared
    assert_eq!(compile_err("interface A { x: number"), CompileError::UnbalancedDeclaration);
}

#[test]
fn value_outside_declaration_is_fatal() {
    let tokens = tokenize(&b"number".to_vec());
    assert_eq!(parse_interfaces(tokens).unwrap_err(), CompileError::ValueOutsideDeclaration);
}

#[test]
fn empty_generic_arguments_are_fatal() {
    assert_eq!(compile_err("interface A { x: Array<>; }"), CompileError::EmptyGenericArgs);
}

#[test]
fn generic_head_must_be_a_type_name() {
    assert_eq!(compile_err("interface A { x: number<string>; }"), CompileError::BadGenericHead);
}

#[test]
fn array_suffix_needs_a_subject() {
    assert_eq!(compile_err("interface A { x: []; }"), CompileError::MissingArraySubject);
}

#[test]
fn bracket_at_end_of_field_is_fatal() {
    assert_eq!(compile_err("interface A { x: [; }"), CompileError::UnmatchedBracket);
}

#[test]
fn cyclic_references_are_detected() {
    assert_eq!(
        compile_err("interface A { x: B; } interface B { x: A; }"),
        CompileError::CycleDetected
    );
}

#[test]
fn self_reference_is_detected() {
    assert_eq!(compile_err("interface A { x: A; }"), CompileError::CycleDetected);
}

#[test]
fn declaration_only_target_is_refused() {
    let trees = compile(&b"interface P { x: number; }".to_vec()).unwrap();
    assert_eq!(generate(&trees, Extension::DTS).unwrap_err(), CompileError::AnnotatedOnlyTarget);
}

#[test]
fn merging_refuses_an_unnamed_tree() {
    let mut trees = vec![Entry { key: Key::Anon, value: vec![] }];
    assert_eq!(merge_interfaces(&mut trees).unwrap_err(), CompileError::UnnamedDeclaration);
}

#[test]
fn generation_refuses_a_malformed_connective() {
    let trees = vec![Entry {
        key: Key::Name(b"A".to_vec()),
        value: vec![Value::Entry(Entry { key: Key::And, value: vec![] })],
    }];
    assert_eq!(
        generate(&trees, Extension::JS).unwrap_err(),
        CompileError::MalformedConnective
    );
}

#[test]
fn pre_filter_extracts_declaration_spans() {
    let src = b"const x = 1; // interface Fake { broken\nlet s = \"interface S { a: 1 }\";\ninterface R { a: number; }".to_vec();
    let got = find_interfaces(&src);
    assert_eq!(String::from_utf8(got).unwrap(), "interface R { a: number; }");
}

#[test]
fn pre_filter_fails_open_without_a_closing_brace() {
    let src = b"interface R { a: number; ".to_vec();
    assert_eq!(find_interfaces(&src), Vec::<u8>::new());
}

#[test]
fn pre_filter_concatenates_several_declarations() {
    let src = b"x; interface A { a: 1 } y; interface B { b: 2 } z;".to_vec();
    let got = find_interfaces(&src);
    assert_eq!(
        String::from_utf8(got).unwrap(),
        "interface A { a: 1 }interface B { b: 2 }"
    );
}

#[test]
fn extension_dispatch() {
    assert_eq!(get_extension(&b"out.js".to_vec()), Some(Extension::JS));
    assert_eq!(get_extension(&b"out.d.ts".to_vec()), Some(Extension::DTS));
    assert_eq!(get_extension(&b"out.ts".to_vec()), Some(Extension::TS));
    assert_eq!(get_extension(&b"out.txt".to_vec()), None);
}

#[test]
fn comments_are_ignored_by_the_lexer() {
    let tokens = tokenize(&b"// heading\ninterface".to_vec());
    assert!(tokens.contains(&Token::Comment));
    assert!(tokens.contains(&Token::Interface));
}

#[test]
fn unrecognized_bytes_become_undefined_tokens() {
    let tokens = tokenize(&b"@".to_vec());
    assert_eq!(tokens, vec![Token::Undefined(b'@'), Token::EOF]);
}

#[test]
fn empty_input_declares_nothing() {
    assert_eq!(compile(&Vec::new()).unwrap_err(), CompileError::UnbalancedDeclaration);
}

#[test]
fn empty_interface_counts_zero_keys() {
    let trees = compile(&b"interface A {}".to_vec()).unwrap();
    let out = String::from_utf8(generate(&trees, Extension::JS).unwrap()).unwrap();
    assert_eq!(
        out,
        "export function isA(o){return(typeof o===\"object\"&&o!==null&&Object.keys(o).length===0)}\n"
    );
}
