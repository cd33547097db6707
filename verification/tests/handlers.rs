//! The assist handlers exercised end to end: fixtures with `<|>` caret
//! markers, a small lookup that plays the surrounding editor's part
//! (finding the covering token and its context), and the edit applied
//! to the buffer.

use assists::number_representation::{remove_digit_separators, separate_number, separate_number_literal};
use assists::split_string::split_string;
use assists::text_edit::TextRange;
use assists::{Assist, AssistCtx, EnclosingCall, LiteralKind, LiteralToken, StringToken};

fn extract_markers(fixture: &str) -> (Vec<usize>, String) {
    let mut offsets = Vec::new();
    let mut clean = String::new();
    let mut rest = fixture;
    while let Some(pos) = rest.find("<|>") {
        clean.push_str(&rest[..pos]);
        offsets.push(clean.len());
        rest = &rest[pos + 3..];
    }
    clean.push_str(rest);
    (offsets, clean)
}

fn frange_of(offsets: &[usize]) -> (usize, usize) {
    match offsets.len() {
        1 => (offsets[0], offsets[0]),
        2 => (offsets[0], offsets[1]),
        n => panic!("expected one or two carets, got {}", n),
    }
}

const SUFFIXES: [&str; 12] =
    ["u8", "u16", "u32", "u64", "u128", "usize", "i8", "i16", "i32", "i64", "i128", "isize"];

/// The smallest integer-literal token covering the selection, if any.
fn find_int_literal(text: &str, sel: (usize, usize)) -> Option<LiteralToken> {
    let b = text.as_bytes();
    let mut i = 0;
    while i < b.len() {
        if b[i].is_ascii_digit()
            && (i == 0 || !(b[i - 1].is_ascii_alphanumeric() || b[i - 1] == b'_'))
        {
            let start = i;
            let mut end = i;
            while end < b.len() && (b[end].is_ascii_alphanumeric() || b[end] == b'_') {
                end += 1;
            }
            if start <= sel.0 && sel.1 <= end {
                let tok = &text[start..end];
                let mut suffix_len = 0;
                for s in SUFFIXES {
                    if tok.len() > s.len() && tok.ends_with(s) && s.len() > suffix_len {
                        suffix_len = s.len();
                    }
                }
                return Some(LiteralToken {
                    range: TextRange::new(start, end),
                    text: tok.as_bytes().to_vec(),
                    kind: LiteralKind::IntNumber { suffix_len },
                });
            }
            i = end;
        } else {
            i += 1;
        }
    }
    None
}

/// The innermost call-like node enclosing the token at `tok_start`.
fn enclosing_call(text: &str, tok_start: usize) -> EnclosingCall {
    let b = text.as_bytes();
    let mut stack: Vec<usize> = Vec::new();
    let mut i = 0;
    while i < tok_start {
        match b[i] {
            b'"' => {
                i += 1;
                while i < tok_start && b[i] != b'"' {
                    if b[i] == b'\\' {
                        i += 1;
                    }
                    i += 1;
                }
            }
            b'(' => stack.push(i),
            b')' => {
                stack.pop();
            }
            _ => {}
        }
        i += 1;
    }
    match stack.last() {
        None => EnclosingCall::NotACall,
        Some(&p) => {
            if p >= 1 && b[p - 1] == b'!' {
                let mut s = p - 1;
                while s > 0 && (b[s - 1].is_ascii_alphanumeric() || b[s - 1] == b'_') {
                    s -= 1;
                }
                EnclosingCall::MacroCall { name: text[s..p - 1].as_bytes().to_vec() }
            } else {
                EnclosingCall::NotACall
            }
        }
    }
}

/// The smallest string-literal token covering the selection, if any.
fn find_string_token(text: &str, sel: (usize, usize)) -> Option<StringToken> {
    let b = text.as_bytes();
    let mut i = 0;
    while i < b.len() {
        if b[i] == b'"' {
            let start = i;
            let mut j = i + 1;
            while j < b.len() && b[j] != b'"' {
                if b[j] == b'\\' {
                    j += 1;
                }
                j += 1;
            }
            if j >= b.len() {
                return None;
            }
            let end = j + 1;
            if start <= sel.0 && sel.1 <= end {
                return Some(StringToken {
                    range: TextRange::new(start, end),
                    between_quotes: Some(TextRange::new(start + 1, end - 1)),
                    enclosing: enclosing_call(text, start),
                });
            }
            i = end;
        } else {
            i += 1;
        }
    }
    None
}

fn make_ctx(fixture: &str) -> (AssistCtx, String, Vec<usize>) {
    let (offsets, clean) = extract_markers(fixture);
    let sel = frange_of(&offsets);
    let ctx = AssistCtx {
        frange: TextRange::new(sel.0, sel.1),
        literal: find_int_literal(&clean, sel),
        string_token: find_string_token(&clean, sel),
        should_resolve: true,
    };
    (ctx, clean, offsets)
}

type Handler = fn(&AssistCtx) -> Option<Assist>;

fn check_assist(handler: Handler, before: &str, after: &str) {
    let (ctx, clean, offsets) = make_ctx(before);
    let assist = handler(&ctx).expect("assist should be applicable");
    let action = assist.action.expect("assist should carry an action");
    let new_bytes = action.edit.apply(&clean.as_bytes().to_vec());
    let mut actual = String::from_utf8(new_bytes).expect("edited buffer should be utf-8");
    let cursor = match action.cursor_position {
        Some(c) => c,
        None => {
            assert_eq!(offsets.len(), 1, "expected a single caret");
            action.edit.apply_to_offset(offsets[0])
        }
    };
    actual.insert_str(cursor, "<|>");
    assert_eq!(after, actual);
}

fn check_assist_not_applicable(handler: Handler, fixture: &str) {
    let (ctx, _, _) = make_ctx(fixture);
    assert!(handler(&ctx).is_none(), "assist should not be applicable");
}

fn check_assist_target(handler: Handler, fixture: &str, target: &str) {
    let (ctx, clean, _) = make_ctx(fixture);
    let assist = handler(&ctx).expect("assist should be applicable");
    let action = assist.action.expect("assist should carry an action");
    let range = action.target.expect("expected target on action");
    assert_eq!(&clean[range.start..range.end], target);
}

#[test]
fn remove_digit_separators_target() {
    check_assist_target(
        remove_digit_separators,
        r#"fn f() { let x = <|>42_420; }"#,
        r#"42_420"#,
    );
}

#[test]
fn remove_digit_separators_target_range_inside() {
    check_assist_target(
        remove_digit_separators,
        r#"fn f() { let x = 42<|>_<|>420; }"#,
        r#"42_420"#,
    );
}

#[test]
fn remove_digit_separators_not_applicable_no_separator() {
    check_assist_not_applicable(remove_digit_separators, r#"fn f() { let x = <|>42420; }"#);
}

#[test]
fn remove_digit_separators_not_applicable_range_ends_after() {
    check_assist_not_applicable(remove_digit_separators, r#"fn f() { let x = <|>42_420; <|>}"#);
}

#[test]
fn remove_digit_separators_works_decimal() {
    check_assist(
        remove_digit_separators,
        r#"fn f() { let x = <|>42_420; }"#,
        r#"fn f() { let x = <|>42420; }"#,
    )
}

#[test]
fn remove_digit_separators_works_hex() {
    check_assist(
        remove_digit_separators,
        r#"fn f() { let x = <|>0x42_420; }"#,
        r#"fn f() { let x = <|>0x42420; }"#,
    )
}

#[test]
fn remove_digit_separators_works_octal() {
    check_assist(
        remove_digit_separators,
        r#"fn f() { let x = <|>0o42_420; }"#,
        r#"fn f() { let x = <|>0o42420; }"#,
    )
}

#[test]
fn remove_digit_separators_works_binary() {
    check_assist(
        remove_digit_separators,
        r#"fn f() { let x = <|>0b0010_1010; }"#,
        r#"fn f() { let x = <|>0b00101010; }"#,
    )
}

#[test]
fn remove_digit_separators_works_suffix() {
    check_assist(
        remove_digit_separators,
        r#"fn f() { let x = <|>42_420u32; }"#,
        r#"fn f() { let x = <|>42420u32; }"#,
    )
}

// ---

fn sep(text: &str, every: usize) -> String {
    String::from_utf8(separate_number(&text.as_bytes().to_vec(), every)).unwrap()
}

#[test]
fn test_separate_number() {
    assert_eq!(sep("", 2), "");
    assert_eq!(sep("1", 2), "1");
    assert_eq!(sep("12", 2), "12");
    assert_eq!(sep("12345678", 2), "12_34_56_78");
    assert_eq!(sep("123456789", 2), "1_23_45_67_89");
    assert_eq!(sep("1_2_3_4_5_6_7_8_9", 2), "1_23_45_67_89");

    assert_eq!(sep("", 4), "");
    assert_eq!(sep("1", 4), "1");
    assert_eq!(sep("1212", 4), "1212");
    assert_eq!(sep("24204242420", 4), "242_0424_2420");
    assert_eq!(sep("024204242420", 4), "0242_0424_2420");
    assert_eq!(sep("_0_2_4_2_04242_420", 4), "0242_0424_2420");
}

// ---

#[test]
fn separate_number_literal_decimal_target() {
    check_assist_target(
        separate_number_literal,
        r#"fn f() { let x = <|>42420; }"#,
        r#"42420"#,
    );
}

#[test]
fn separate_number_literal_decimal_already_split_not_applicable() {
    check_assist_not_applicable(separate_number_literal, r#"fn f() { let x = <|>42_420;}"#);
}

#[test]
fn separate_number_literal_decimal_too_small_not_applicable() {
    check_assist_not_applicable(separate_number_literal, r#"fn f() { let x = <|>420;}"#);
}

#[test]
fn separate_number_literal_decimal() {
    check_assist(
        separate_number_literal,
        r#"fn f() { let x = <|>2420420; }"#,
        r#"fn f() { let x = <|>2_420_420; }"#,
    )
}

#[test]
fn separate_number_literal_decimal_badly_split() {
    check_assist(
        separate_number_literal,
        r#"fn f() { let x = <|>4_2_4_2_0420; }"#,
        r#"fn f() { let x = <|>42_420_420; }"#,
    )
}

// ---

#[test]
fn separate_number_literal_hex_target() {
    check_assist_target(
        separate_number_literal,
        r#"fn f() { let x = <|>0x04242420; }"#,
        r#"0x04242420"#,
    );
}

#[test]
fn separate_number_literal_hex_already_split_not_applicable() {
    check_assist_not_applicable(
        separate_number_literal,
        r#"fn f() { let x = <|>0x0424_2420; <|>}"#,
    );
}

#[test]
fn separate_number_literal_hex_too_small_not_applicable() {
    check_assist_not_applicable(separate_number_literal, r#"fn f() { let x = <|>0x2420;}"#);
}

#[test]
fn separate_number_literal_hex() {
    check_assist(
        separate_number_literal,
        r#"fn f() { let x = <|>0x24204242420; }"#,
        r#"fn f() { let x = <|>0x242_0424_2420; }"#,
    )
}

#[test]
fn separate_number_literal_hex_badly_split() {
    check_assist(
        separate_number_literal,
        r#"fn f() { let x = <|>0x2_4204_24_2420; }"#,
        r#"fn f() { let x = <|>0x242_0424_2420; }"#,
    )
}

// ---

#[test]
fn separate_number_literal_octal_not_applicable() {
    check_assist_not_applicable(separate_number_literal, r#"fn f() { let x = <|>0o01234567; }"#);
}

// ---

#[test]
fn separate_number_literal_binary_target() {
    check_assist_target(
        separate_number_literal,
        r#"fn f() { let x = <|>0b0010101000101010; }"#,
        r#"0b0010101000101010"#,
    );
}

#[test]
fn separate_number_literal_binary_already_split_not_applicable() {
    check_assist_not_applicable(
        separate_number_literal,
        r#"fn f() { let x = <|>0b00101010_00101010; <|>}"#,
    );
}

#[test]
fn separate_number_literal_binary_too_small_not_applicable() {
    check_assist_not_applicable(separate_number_literal, r#"fn f() { let x = <|>0b00101010;}"#);
}

#[test]
fn separate_number_literal_binary() {
    check_assist(
        separate_number_literal,
        r#"fn f() { let x = <|>0b0010101000101010; }"#,
        r#"fn f() { let x = <|>0b00101010_00101010; }"#,
    )
}

#[test]
fn separate_number_literal_binary_badly_split() {
    check_assist(
        separate_number_literal,
        r#"fn f() { let x = <|>0b001_0101_000_101_010; }"#,
        r#"fn f() { let x = <|>0b00101010_00101010; }"#,
    )
}

// ---

#[test]
fn split_string_target() {
    check_assist_target(
        split_string,
        r#"
            fn f() {
                let s = "<|>random\nstring";
            }
            "#,
        r#""random\nstring""#,
    );
}

#[test]
fn split_string_not_applicable_before() {
    check_assist_not_applicable(
        split_string,
        r#"
            fn f() {
                let s = <|>"random\nstring";
            }
            "#,
    );
}

#[test]
fn split_string_not_applicable_after() {
    check_assist_not_applicable(
        split_string,
        r#"
            fn f() {
                let s = "random\nstring"<|>;
            }
            "#,
    );
}

#[test]
fn split_string_not_applicable_starting_before() {
    check_assist_not_applicable(
        split_string,
        r#"
            fn f() {
                let s = <|>"random<|>\nstring";
            }
            "#,
    );
}

#[test]
fn split_string_not_applicable_ending_after() {
    check_assist_not_applicable(
        split_string,
        r#"
            fn f() {
                let s = "random\n<|>string"<|>;
            }
            "#,
    );
}

#[test]
fn split_string_works_simple_case() {
    check_assist(
        split_string,
        r#"
            fn f() {
                let s = "random<|>\nstring";
            }
            "#,
        r##"
            fn f() {
                let s = concat!("random",<|> "\nstring");
            }
            "##,
    )
}

#[test]
fn split_string_works_range_selected() {
    check_assist(
        split_string,
        r#"
            fn f() {
                let s = "random<|>\n<|>string";
            }
            "#,
        r##"
            fn f() {
                let s = concat!("random", "\n",<|> "string");
            }
            "##,
    )
}

#[test]
fn split_preserves_string_content() {
    // Splitting at the caret yields two fragments whose concatenation
    // (ignoring the inserted separators and wrapper) is the original
    // string content, and the target is the whole original token.
    let before = r#"let s = "random<|>string";"#;
    let (ctx, clean, _) = make_ctx(before);
    let assist = split_string(&ctx).expect("applicable");
    let action = assist.action.expect("action");
    let target = action.target.expect("target");
    assert_eq!(&clean[target.start..target.end], r#""randomstring""#);
    let actual = String::from_utf8(action.edit.apply(&clean.as_bytes().to_vec())).unwrap();
    assert_eq!(actual, r#"let s = concat!("random", "string");"#);
    let rejoined = actual
        .replace("concat!(", "")
        .replace(r#"", ""#, "")
        .replace(r#"")"#, r#"""#);
    assert_eq!(rejoined, clean.replace("<|>", ""));
}

#[test]
fn split_string_works_keep_existing_concat() {
    check_assist(
        split_string,
        r#"
            fn f() {
                let s: String = concat!("random<|>\n", "string").into();
            }
            "#,
        r##"
            fn f() {
                let s: String = concat!("random",<|> "\n", "string").into();
            }
            "##,
    )
}
