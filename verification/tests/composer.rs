//! The edit composer, offset translation, literal decomposition and the
//! driver exercised directly on constructed values.

use assists::number_representation::{
    identify_number_literal, remove_digit_separators, remove_separator_from_string,
    separate_number_literal, NumberLiteralType,
};
use assists::text_edit::{TextEdit, TextEditBuilder, TextRange};
use assists::{
    all, dispatch, unresolved_assists, AssistCtx, AssistHandler, AssistId, AssistLabel,
    LiteralKind, LiteralToken,
};

fn b(s: &str) -> Vec<u8> {
    s.as_bytes().to_vec()
}

fn int_ctx(text: &str, resolve: bool) -> AssistCtx {
    AssistCtx {
        frange: TextRange::new(0, 0),
        literal: Some(LiteralToken {
            range: TextRange::new(0, text.len()),
            text: b(text),
            kind: LiteralKind::IntNumber { suffix_len: 0 },
        }),
        string_token: None,
        should_resolve: resolve,
    }
}

fn two_insertions() -> TextEdit {
    let mut builder = TextEditBuilder::new();
    builder.insert(2, b("abc"));
    builder.insert(5, b("z"));
    builder.finish().expect("insertions never overlap")
}

#[test]
fn translate_shifts_second_insertion_point() {
    // Two non-adjacent insertions of lengths 3 at offset 2 and 1 at
    // offset 5: the second insertion point moves by the first length.
    let edit = two_insertions();
    assert_eq!(edit.apply_to_offset(5), 5 + 3);
}

#[test]
fn translate_is_identity_before_all_edits() {
    let edit = two_insertions();
    assert_eq!(edit.apply_to_offset(0), 0);
    assert_eq!(edit.apply_to_offset(1), 1);
    assert_eq!(edit.apply_to_offset(2), 2);
}

#[test]
fn apply_performs_insertions_in_position_order() {
    let edit = two_insertions();
    let out = edit.apply(&b("0123456789"));
    assert_eq!(String::from_utf8(out).unwrap(), "01abc234z56789");
}

#[test]
fn overlapping_operations_are_rejected() {
    let mut builder = TextEditBuilder::new();
    builder.replace(TextRange::new(0, 5), b("AAAA"));
    builder.replace(TextRange::new(3, 8), b("BBBB"));
    assert!(builder.finish().is_none());
}

#[test]
fn touching_operations_are_accepted() {
    let mut builder = TextEditBuilder::new();
    builder.replace(TextRange::new(0, 3), b("A"));
    builder.replace(TextRange::new(3, 6), b("B"));
    let edit = builder.finish().expect("touching ranges do not overlap");
    assert_eq!(String::from_utf8(edit.apply(&b("xxxyyyz"))).unwrap(), "ABz");
}

#[test]
fn translate_maps_replaced_span_interior_to_replacement_start() {
    let mut builder = TextEditBuilder::new();
    builder.insert(1, b("##"));
    builder.replace(TextRange::new(4, 8), b("Z"));
    let edit = builder.finish().expect("disjoint");
    // Offset 6 sits inside the replaced span [4, 8): it maps to where
    // the replacement begins, shifted by the earlier insertion.
    assert_eq!(edit.apply_to_offset(6), 4 + 2);
    // Offset 8 sits at the end of the span: it lands after the
    // replacement text.
    assert_eq!(edit.apply_to_offset(8), 4 + 2 + 1);
}

#[test]
fn remove_separator_leaves_other_bytes_alone() {
    assert_eq!(remove_separator_from_string(&b("42_420")), b("42420"));
    assert_eq!(remove_separator_from_string(&b("0b0010_1010")), b("0b00101010"));
    assert_eq!(remove_separator_from_string(&b("42_420u32")), b("42420u32"));
    assert_eq!(remove_separator_from_string(&b("")), b(""));
}

#[test]
fn decompose_hex_literal_with_suffix() {
    let token = LiteralToken {
        range: TextRange::new(0, 11),
        text: b("0x42_420u32"),
        kind: LiteralKind::IntNumber { suffix_len: 3 },
    };
    let lit = identify_number_literal(&token).expect("an int literal decomposes");
    assert!(matches!(lit.number_type, NumberLiteralType::PrefixHex));
    assert_eq!(lit.prefix.clone().unwrap(), b("0x"));
    assert_eq!(lit.text, b("42_420"));
    assert_eq!(lit.suffix.clone().unwrap(), b("u32"));
    assert_eq!(lit.render(), b("0x42_420u32"));
}

#[test]
fn decompose_short_token_is_decimal() {
    let token = LiteralToken {
        range: TextRange::new(0, 1),
        text: b("7"),
        kind: LiteralKind::IntNumber { suffix_len: 0 },
    };
    let lit = identify_number_literal(&token).expect("an int literal decomposes");
    assert!(matches!(lit.number_type, NumberLiteralType::Decimal));
    assert!(lit.prefix.is_none());
    assert!(lit.suffix.is_none());
    assert_eq!(lit.text, b("7"));
}

#[test]
fn assist_label_new_keeps_fields() {
    let label = AssistLabel::new("Split string".to_owned(), AssistId("split_string"));
    assert_eq!(label.label, "Split string");
    assert_eq!(label.id, AssistId("split_string"));
}

#[test]
fn two_phase_handler_returns_label_only_when_unresolved() {
    let ctx = int_ctx("4_2_4_2_0420", false);
    let assist = remove_digit_separators(&ctx).expect("applicable");
    assert_eq!(assist.label.label, "Remove digit separators");
    assert!(assist.action.is_none());
    assert!(assist.into_resolved().is_none());
}

#[test]
fn resolved_handler_carries_action() {
    let ctx = int_ctx("4_2_4_2_0420", true);
    let assist = separate_number_literal(&ctx).expect("applicable");
    assert_eq!(assist.label.label, "Separate thousands");
    let resolved = assist.into_resolved().expect("resolved when action present");
    assert_eq!(resolved.action.target, Some(TextRange::new(0, 12)));
}

#[test]
fn all_lists_every_handler_in_registration_order() {
    let handlers = all();
    assert_eq!(
        handlers,
        vec![
            AssistHandler::SplitString,
            AssistHandler::RemoveDigitSeparators,
            AssistHandler::SeparateNumberLiteral,
        ]
    );
}

#[test]
fn dispatch_runs_the_named_handler() {
    let ctx = int_ctx("4_2_4_2_0420", true);
    let a = dispatch(AssistHandler::RemoveDigitSeparators, &ctx).expect("applicable");
    assert_eq!(a.label.label, "Remove digit separators");
    assert!(dispatch(AssistHandler::SplitString, &ctx).is_none());
}

#[test]
fn unresolved_assists_returns_labels_in_registration_order() {
    let ctx = int_ctx("4_2_4_2_0420", false);
    let labels = unresolved_assists(&ctx);
    let names: Vec<&str> = labels.iter().map(|l| l.label.as_str()).collect();
    assert_eq!(names, vec!["Remove digit separators", "Separate thousands"]);
}

#[test]
fn resolved_assists_sorts_and_keeps_equal_targets_stable() {
    let ctx = int_ctx("4_2_4_2_0420", true);
    let assists = assists::resolved_assists(&ctx);
    assert_eq!(assists.len(), 2);
    // Both target the whole token; equal keys keep registration order.
    assert_eq!(assists[0].label.label, "Remove digit separators");
    assert_eq!(assists[1].label.label, "Separate thousands");
    assert_eq!(assists[0].action.target, Some(TextRange::new(0, 12)));
    assert_eq!(assists[1].action.target, Some(TextRange::new(0, 12)));
}

#[test]
fn separate_hexadecimal_labelling() {
    let ctx = int_ctx("0x24204242420", true);
    let assist = separate_number_literal(&ctx).expect("applicable");
    assert_eq!(assist.label.label, "Separate 16-bit words");
    assert_eq!(assist.label.id, AssistId("separate_hexadecimal_word"));
}

#[test]
fn separate_binary_labelling() {
    let ctx = int_ctx("0b0010101000101010", true);
    let assist = separate_number_literal(&ctx).expect("applicable");
    assert_eq!(assist.label.label, "Separate bytes");
    assert_eq!(assist.label.id, AssistId("separate_binary_bytes"));
}

#[test]
fn octal_literal_never_gets_grouping_assist() {
    // A long octal literal would group by any rule; it is excluded by
    // kind, not by size.
    let ctx = int_ctx("0o0123456701234567", true);
    assert!(separate_number_literal(&ctx).is_none());
    // Removal still applies to octal literals with separators.
    let ctx2 = int_ctx("0o42_420", true);
    assert!(remove_digit_separators(&ctx2).is_some());
}
