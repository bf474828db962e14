use ts_runtime_typechecker::lexer::tokenize;
use ts_runtime_typechecker::lexer::Type;
use ts_runtime_typechecker::parsers::{
    for_each_value, parse_and, parse_custom_types, parse_interfaces, parse_or, Entry, Generic,
    Key, Value, ValuePass,
};

fn run(src: &str) -> Vec<Entry> {
    let bytes = src.as_bytes().to_vec();
    let tokens = tokenize(&bytes);
    let mut interfaces = parse_interfaces(tokens).unwrap();
    for i in interfaces.iter_mut() {
        for_each_value(i, ValuePass::Generics).unwrap();
    }
    for i in interfaces.iter_mut() {
        for_each_value(i, ValuePass::Arrays).unwrap();
    }
    for i in interfaces.iter_mut() {
        parse_and(i);
    }
    for i in interfaces.iter_mut() {
        parse_or(i);
    }
    interfaces
}

fn name(s: &str) -> Key {
    Key::Name(s.as_bytes().to_vec())
}

#[test]
fn test_parser() {
    let raw = "\r\n        interface inter {\r\n            _1: number;\r\n        }\r\n        ";
    let exp: Vec<Entry> = vec![Entry {
        key: name("inter"),
        value: vec![Value::Entry(Entry {
            key: name("_1"),
            value: vec![Value::Type(Type::Num)],
        })],
    }];
    assert_eq!(run(raw), exp);

    let raw = "\r\n        interface inter {\r\n            key_1: number;\r\n            key_2: string | { key_3: object };\r\n        }\r\n        ";
    let exp: Vec<Entry> = vec![Entry {
        key: name("inter"),
        value: vec![
            Value::Entry(Entry {
                key: name("key_1"),
                value: vec![Value::Type(Type::Num)],
            }),
            Value::Entry(Entry {
                key: name("key_2"),
                value: vec![Value::Entry(Entry {
                    key: Key::Or,
                    value: vec![
                        Value::Type(Type::Str),
                        Value::Entry(Entry {
                            key: Key::Anon,
                            value: vec![Value::Entry(Entry {
                                key: name("key_3"),
                                value: vec![Value::Type(Type::Object)],
                            })],
                        }),
                    ],
                })],
            }),
        ],
    }];
    assert_eq!(run(raw), exp);

    let raw = "\r\n        interface inter {\r\n            _1: number[];\r\n        }\r\n        ";
    let exp: Vec<Entry> = vec![Entry {
        key: name("inter"),
        value: vec![Value::Entry(Entry {
            key: name("_1"),
            value: vec![Value::Entry(Entry {
                key: Key::Generic(Generic::Array),
                value: vec![Value::Type(Type::Num)],
            })],
        })],
    }];
    assert_eq!(run(raw), exp);

    let raw = "\r\n        interface inter {\r\n            _1: (number | string)[];\r\n        }\r\n        ";
    let exp: Vec<Entry> = vec![Entry {
        key: name("inter"),
        value: vec![Value::Entry(Entry {
            key: name("_1"),
            value: vec![Value::Entry(Entry {
                key: Key::Generic(Generic::Array),
                value: vec![Value::Entry(Entry {
                    key: Key::Or,
                    value: vec![Value::Type(Type::Num), Value::Type(Type::Str)],
                })],
            })],
        })],
    }];
    assert_eq!(run(raw), exp);
}

#[test]
fn declaration_merging_matches_single_declaration() {
    let merged = ts_runtime_typechecker::compile(
        &b"interface I { a: number; } interface I { b: string; }".to_vec(),
    )
    .unwrap();
    let single =
        ts_runtime_typechecker::compile(&b"interface I { a: number; b: string; }".to_vec())
            .unwrap();
    assert_eq!(merged, single);
}

#[test]
fn declaration_merging_three_ways() {
    let merged = ts_runtime_typechecker::compile(
        &b"interface I { a: number; } interface I { b: string; } interface I { c: boolean; }"
            .to_vec(),
    )
    .unwrap();
    let single = ts_runtime_typechecker::compile(
        &b"interface I { a: number; b: string; c: boolean; }".to_vec(),
    )
    .unwrap();
    assert_eq!(merged, single);
}

#[test]
fn array_suffix_nesting_round_trip() {
    let trees =
        ts_runtime_typechecker::compile(&b"interface T { x: number[][]; }".to_vec()).unwrap();
    let exp = vec![Entry {
        key: name("T"),
        value: vec![Value::Entry(Entry {
            key: name("x"),
            value: vec![Value::Entry(Entry {
                key: Key::Generic(Generic::Array),
                value: vec![Value::Entry(Entry {
                    key: Key::Generic(Generic::Array),
                    value: vec![Value::Type(Type::Num)],
                })],
            })],
        })],
    }];
    assert_eq!(trees, exp);
}

#[test]
fn inlining_twice_equals_once() {
    let bytes = b"interface B { n: number; } interface A { b: B; }".to_vec();
    let tokens = tokenize(&bytes);
    let interfaces = parse_interfaces(tokens).unwrap();
    let snapshot = ts_runtime_typechecker::parsers::copy_entries(&interfaces);

    let mut once = ts_runtime_typechecker::parsers::copy_entries(&interfaces);
    for i in once.iter_mut() {
        parse_custom_types(i, &snapshot).unwrap();
    }
    let second_snapshot = ts_runtime_typechecker::parsers::copy_entries(&once);
    let mut twice = ts_runtime_typechecker::parsers::copy_entries(&once);
    for i in twice.iter_mut() {
        parse_custom_types(i, &second_snapshot).unwrap();
    }
    assert_eq!(once, twice);
}

#[test]
fn any_and_unknown_leave_no_check() {
    let trees =
        ts_runtime_typechecker::compile(&b"interface A { x: any; y: unknown; }".to_vec())
            .unwrap();
    let exp = vec![Entry {
        key: name("A"),
        value: vec![
            Value::Entry(Entry { key: name("x"), value: vec![] }),
            Value::Entry(Entry { key: name("y"), value: vec![] }),
        ],
    }];
    assert_eq!(trees, exp);
}

#[test]
fn number_literals_are_normalized() {
    let trees = ts_runtime_typechecker::compile(
        &b"interface A { a: 1_000; b: 007; c: -42; }".to_vec(),
    )
    .unwrap();
    let exp = vec![Entry {
        key: name("A"),
        value: vec![
            Value::Entry(Entry {
                key: name("a"),
                value: vec![Value::Type(Type::NumLit(b"1000".to_vec()))],
            }),
            Value::Entry(Entry {
                key: name("b"),
                value: vec![Value::Type(Type::NumLit(b"7".to_vec()))],
            }),
            Value::Entry(Entry {
                key: name("c"),
                value: vec![Value::Type(Type::NumLit(b"-42".to_vec()))],
            }),
        ],
    }];
    assert_eq!(trees, exp);
}
