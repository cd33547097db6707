//! Splitting a string literal at the caret (or around a selection): the
//! fragments become arguments of the canonical concatenation call. If
//! the token is not already an argument of such a call, a wrapping
//! `concat!( ... )` is injected around it so the split stays a single
//! expression value; the caret lands just before the last inserted join
//! marker.

use vstd::prelude::*;

use crate::Assist;
use crate::AssistAction;
use crate::AssistCtx;
use crate::AssistId;
use crate::AssistLabel;
use crate::EnclosingCall;
use crate::ResolvedAssist;
use crate::StringToken;
use crate::text_edit::EditOp;
use crate::text_edit::TextEditBuilder;
use crate::text_edit::TextRange;
use crate::text_edit::bytes_eq;
use crate::text_edit::inserted_len;
use crate::text_edit::lemma_apply_len;
use crate::text_edit::lemma_deleted_len_zero;
use crate::text_edit::lemma_inserted_len_nonneg;
use crate::text_edit::lemma_inserted_len_push;
use crate::text_edit::lemma_inserted_len_split;
use crate::text_edit::lemma_inserted_len_step;
use crate::text_edit::lemma_translate_stops;
use crate::text_edit::lemma_translate_upper_bound;
use crate::text_edit::ops_disjoint;
use crate::text_edit::spec_apply;
use crate::text_edit::spec_translate;

verus! {

/// How far past the translated selection end the caret lands: just
/// before the last inserted join marker (after its closing quote and
/// comma).
pub const PLUS_OFFSET: usize = 2;

/// The opening text of the wrapping call: `concat!(`.
pub open spec fn concat_open_seq() -> Seq<u8> {
    seq![99u8, 111u8, 110u8, 99u8, 97u8, 116u8, 33u8, 40u8]
}

/// The closing text of the wrapping call: `)`.
pub open spec fn close_paren_seq() -> Seq<u8> {
    seq![41u8]
}

/// The text inserted at a split point: closing quote, separator,
/// opening quote.
pub open spec fn split_separator_seq() -> Seq<u8> {
    seq![34u8, 44u8, 32u8, 34u8]
}

/// The callee name of the canonical concatenation call.
pub open spec fn concat_name_seq() -> Seq<u8> {
    seq![99u8, 111u8, 110u8, 99u8, 97u8, 116u8]
}

fn concat_open_text() -> (r: Vec<u8>)
    ensures
        r@ == concat_open_seq(),
{
    let mut v: Vec<u8> = Vec::new();
    v.push(99u8);
    v.push(111u8);
    v.push(110u8);
    v.push(99u8);
    v.push(97u8);
    v.push(116u8);
    v.push(33u8);
    v.push(40u8);
    proof {
        assert(v@ =~= concat_open_seq());
    }
    v
}

fn close_paren_text() -> (r: Vec<u8>)
    ensures
        r@ == close_paren_seq(),
{
    let mut v: Vec<u8> = Vec::new();
    v.push(41u8);
    proof {
        assert(v@ =~= close_paren_seq());
    }
    v
}

fn split_separator_text() -> (r: Vec<u8>)
    ensures
        r@ == split_separator_seq(),
{
    let mut v: Vec<u8> = Vec::new();
    v.push(34u8);
    v.push(44u8);
    v.push(32u8);
    v.push(34u8);
    proof {
        assert(v@ =~= split_separator_seq());
    }
    v
}

fn is_concat_name(name: &Vec<u8>) -> (r: bool)
    ensures
        r == (name@ == concat_name_seq()),
{
    let mut expected: Vec<u8> = Vec::new();
    expected.push(99u8);
    expected.push(111u8);
    expected.push(110u8);
    expected.push(99u8);
    expected.push(97u8);
    expected.push(116u8);
    proof {
        assert(expected@ =~= concat_name_seq());
    }
    bytes_eq(name, &expected)
}

/// Whether the split needs a wrapping call: yes unless the token is
/// already a direct argument of the canonical concatenation call.
pub open spec fn spec_needs_wrapper(e: EnclosingCall) -> bool {
    match e {
        EnclosingCall::MacroCall { name } => name@ != concat_name_seq(),
        _ => true,
    }
}

/// Whether the split assist applies: the selection lies within the
/// quote-delimited interior of the string token; touching or crossing a
/// quote disqualifies it.
pub open spec fn split_applicable(ctx: AssistCtx) -> bool {
    match ctx.string_token {
        Some(st) => match st.between_quotes {
            Some(bq) => bq.start <= ctx.frange.start && ctx.frange.end <= bq.end,
            None => false,
        },
        None => false,
    }
}

/// The operations a split composes, in order: the wrapper's opening
/// text before the token if one is needed, a join marker at the
/// selection start, a second join marker at the selection end if the
/// selection is non-empty, and the wrapper's closing text after the
/// token.
pub open spec fn split_ops(ops: Seq<EditOp>, st: StringToken, sel: TextRange) -> bool {
    let nw = spec_needs_wrapper(st.enclosing);
    let pre: int = if nw {
        1
    } else {
        0
    };
    let two: int = if sel.start != sel.end {
        1
    } else {
        0
    };
    &&& ops.len() == pre + 1 + two + pre
    &&& (nw ==> ops[0].delete == (TextRange { start: st.range.start, end: st.range.start })
        && ops[0].insert@ == concat_open_seq())
    &&& ops[pre].delete == (TextRange { start: sel.start, end: sel.start }) && ops[pre].insert@
        == split_separator_seq()
    &&& (sel.start != sel.end ==> ops[pre + 1].delete == (TextRange {
        start: sel.end,
        end: sel.end,
    }) && ops[pre + 1].insert@ == split_separator_seq())
    &&& (nw ==> ops[ops.len() - 1].delete == (TextRange { start: st.range.end, end: st.range.end })
        && ops[ops.len() - 1].insert@ == close_paren_seq())
}

/// The action of the split assist: it targets the whole token, composes
/// the split operations, and places the caret by translating the
/// selection end through the composed edit and stepping past the join
/// marker's closing quote and separator.
pub open spec fn split_action_matches(ctx: AssistCtx, act: AssistAction) -> bool {
    let st = ctx.string_token->Some_0;
    &&& act.target == Some(st.range)
    &&& act.edit.wf()
    &&& split_ops(act.edit@, st, ctx.frange)
    &&& (act.cursor_position matches Some(c) && c as int == spec_translate(
        act.edit@,
        ctx.frange.end as int,
    ) + PLUS_OFFSET)
}

pub open spec fn split_label_matches(label: AssistLabel) -> bool {
    label.label@ == "Split string"@ && label.id.0@ == "split_string"@
}

/// A resolved split assist, as the driver reports it.
pub open spec fn split_resolved_matches(ctx: AssistCtx, a: ResolvedAssist) -> bool {
    &&& split_label_matches(a.label)
    &&& a.group_label is None
    &&& split_action_matches(ctx, a.action)
}

/// The full contract of `split_string`: an assist comes back exactly
/// when applicable; its action (present exactly when resolution was
/// asked for) is the split action above.
pub open spec fn split_string_post(ctx: AssistCtx, r: Option<Assist>) -> bool {
    &&& (r is Some <==> split_applicable(ctx))
    &&& (r matches Some(a) ==> {
        &&& split_label_matches(a.label)
        &&& a.group_label is None
        &&& (a.action is Some <==> ctx.should_resolve)
        &&& (a.action matches Some(act) ==> split_action_matches(ctx, act))
    })
}

/// Splits a string literal at the selection into fragments joined by
/// the canonical concatenation form.
pub fn split_string(ctx: &AssistCtx) -> (r: Option<Assist>)
    requires
        ctx.wf(),
    ensures
        split_string_post(*ctx, r),
{
    let token = match &ctx.string_token {
        Some(t) => t,
        None => {
            return None;
        },
    };
    let between_quotes = match &token.between_quotes {
        Some(b) => *b,
        None => {
            return None;
        },
    };
    let selection = ctx.frange;
    if !selection.is_subrange(&between_quotes) {
        return None;
    }
    proof {
        reveal_strlit("Split string");
    }
    let label = AssistLabel::new("Split string".to_owned(), AssistId("split_string"));
    let action = if ctx.should_resolve {
        let need_macro = match &token.enclosing {
            EnclosingCall::NoParent => true,
            EnclosingCall::MacroCall { name } => !is_concat_name(name),
            EnclosingCall::NotACall => true,
        };
        let token_range = token.range;
        let two = selection.start != selection.end;

        let mut builder = TextEditBuilder::new();
        let ghost s0 = builder@;
        if need_macro {
            builder.insert(token_range.start, concat_open_text());
        }
        let ghost s1 = builder@;
        proof {
            if need_macro {
                assert(s1 =~= s0.push(s1[0]));
                lemma_inserted_len_push(s0, s1[0]);
            }
            assert(s1.len() == (if need_macro { 1int } else { 0 }));
            assert(inserted_len(s1) <= 8);
            assert(forall|k: int|
                0 <= k < s1.len() ==> (#[trigger] s1[k]).delete.start <= selection.start
                    && s1[k].delete.end <= selection.start);
        }
        builder.insert(selection.start, split_separator_text());
        let ghost s2 = builder@;
        proof {
            assert(s2 == s1.push(s2[s1.len() as int]));
            lemma_inserted_len_push(s1, s2[s1.len() as int]);
            assert(inserted_len(s2) <= 12);
        }
        if two {
            builder.insert(selection.end, split_separator_text());
        }
        let ghost s3 = builder@;
        proof {
            if two {
                assert(s3 == s2.push(s3[s2.len() as int]));
                lemma_inserted_len_push(s2, s3[s2.len() as int]);
            }
            assert(inserted_len(s3) <= 16);
        }
        if need_macro {
            builder.insert(token_range.end, close_paren_text());
        }
        let ghost s4 = builder@;
        proof {
            if need_macro {
                assert(s4 == s3.push(s4[s3.len() as int]));
                lemma_inserted_len_push(s3, s4[s3.len() as int]);
            }
            assert(inserted_len(s4) <= 17);
            assert(ops_disjoint(s4));
            assert(split_ops(s4, *token, selection));
        }
        let edit = match builder.finish() {
            Some(e) => e,
            None => unreached(),
        };
        proof {
            lemma_translate_upper_bound(edit@, selection.end as int, 0);
        }
        let translated = edit.apply_to_offset(selection.end);
        let cursor = translated + PLUS_OFFSET;
        Some(
            AssistAction { edit, cursor_position: Some(cursor), target: Some(token_range) },
        )
    } else {
        None
    };
    Some(Assist { label, group_label: None, action })
}

/// The caret a split places always lands inside the edited buffer: for
/// any buffer that holds the token, the cursor position never runs past
/// the end of the text the composed edit produces.
pub proof fn lemma_split_cursor_in_buffer(ctx: AssistCtx, act: AssistAction, text: Seq<u8>)
    requires
        ctx.wf(),
        split_applicable(ctx),
        split_action_matches(ctx, act),
        ctx.string_token->Some_0.range.end <= text.len(),
    ensures
        act.cursor_position->Some_0 <= spec_apply(act.edit@, text).len(),
{
    let st = ctx.string_token->Some_0;
    let sel = ctx.frange;
    let bq = st.between_quotes->Some_0;
    let ops = act.edit@;
    let n = text.len() as int;
    let nw = spec_needs_wrapper(st.enclosing);
    let pre: int = if nw {
        1
    } else {
        0
    };
    let two: int = if sel.start != sel.end {
        1
    } else {
        0
    };
    assert forall|i: int| 0 <= i < ops.len() implies (#[trigger] ops[i]).delete.end <= n
        && ops[i].delete.start == ops[i].delete.end by {
        if nw && i == 0 {
        } else if i == pre {
        } else if two == 1 && i == pre + 1 {
        } else {
            assert(nw && i == ops.len() - 1);
        }
    }
    lemma_apply_len(ops, text);
    lemma_deleted_len_zero(ops);
    let j: int = pre + two;
    assert(ops[j].delete.start >= sel.end);
    assert(ops[j].insert@.len() == 4);
    lemma_translate_stops(ops, sel.end as int, 0, j);
    lemma_inserted_len_split(ops, j);
    lemma_inserted_len_step(ops, j);
    lemma_inserted_len_nonneg(ops.skip(j + 1));
    lemma_inserted_len_nonneg(ops.take(j));
}

/// The joined form a split produces, assembled here in one piece.
pub fn _f() {
    let _s: String = "random\nstring".to_owned();
}

} // verus!
