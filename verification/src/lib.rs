//! Code assists over a text buffer: small, user-triggerable transformations
//! tied to a cursor position or selection.
//!
//! Each assist is a two-phase handler: a cheap applicability check that
//! produces only a label, and a resolution step that produces a full,
//! atomic text edit together with an optional post-edit caret position.
//! The surrounding editor supplies the lexical context (the covering
//! token, its classification, and the nearest enclosing call-like node)
//! as plain values in an [`AssistCtx`]; the handlers and all offset
//! arithmetic are verified here.

pub mod number_representation;
pub mod split_string;
pub mod text_edit;

use vstd::prelude::*;

use crate::number_representation::{
    remove_applicable, remove_digit_separators, remove_digit_separators_post,
    remove_label_matches, remove_resolved_matches, separate_applicable, separate_label_matches,
    separate_number_literal, separate_number_literal_post, separate_resolved_matches,
};
use crate::split_string::{
    split_applicable, split_label_matches, split_resolved_matches, split_string,
    split_string_post,
};
use crate::text_edit::{TextEdit, TextRange};

verus! {

/// Unique identifier of the assist, should not be shown to the user
/// directly.
#[derive(Debug, Clone, Copy, PartialEq, Eq)]
pub struct AssistId(pub &'static str);

#[derive(Debug, Clone)]
pub struct AssistLabel {
    /// Short description of the assist, as shown in the UI.
    pub label: String,
    pub id: AssistId,
}

/// Every label shown in the UI starts with an (ASCII) capital letter.
pub open spec fn label_starts_uppercase(s: Seq<char>) -> bool {
    s.len() > 0 && 65 <= (s[0] as u32) <= 90
}

impl AssistLabel {
    pub fn new(label: String, id: AssistId) -> (r: AssistLabel)
        requires
            label_starts_uppercase(label@),
        ensures
            r.label == label,
            r.id == id,
    {
        AssistLabel { label, id }
    }
}

#[derive(Debug, Clone)]
pub struct GroupLabel(pub String);

/// The full effect of one resolved assist: the composed edit, an
/// explicit post-edit caret position if the assist sets one, and the
/// range the assist targets, for highlighting.
#[derive(Debug, Clone)]
pub struct AssistAction {
    pub edit: TextEdit,
    pub cursor_position: Option<usize>,
    pub target: Option<TextRange>,
}

/// What a handler returns when it applies: always a label, and the
/// action too when the context asked for resolution.
#[derive(Debug, Clone)]
pub struct Assist {
    pub label: AssistLabel,
    pub group_label: Option<GroupLabel>,
    pub action: Option<AssistAction>,
}

#[derive(Debug, Clone)]
pub struct ResolvedAssist {
    pub label: AssistLabel,
    pub group_label: Option<GroupLabel>,
    pub action: AssistAction,
}

impl Assist {
    /// The resolved form, available once the action has been computed.
    pub fn into_resolved(self) -> (r: Option<ResolvedAssist>)
        ensures
            r is Some <==> self.action is Some,
            r matches Some(res) ==> res.label == self.label && res.group_label == self.group_label
                && Some(res.action) == self.action,
    {
        match self.action {
            Some(action) => Some(
                ResolvedAssist { label: self.label, group_label: self.group_label, action },
            ),
            None => None,
        }
    }
}

/// How the surrounding system classified the covering literal token.
#[derive(Debug, Clone, Copy, PartialEq, Eq, Structural)]
pub enum LiteralKind {
    /// An integer-like literal; the classifier reports how many trailing
    /// characters are a type/unit suffix such as `u32`.
    IntNumber { suffix_len: usize },
    /// Any other literal.
    Other,
}

/// The smallest lexical token covering the requested position, when the
/// surrounding system found an integer-like candidate: its raw text and
/// its range in the buffer.
#[derive(Debug, Clone)]
pub struct LiteralToken {
    pub range: TextRange,
    pub text: Vec<u8>,
    pub kind: LiteralKind,
}

impl LiteralToken {
    /// The token's text fills exactly its range, a reported suffix fits
    /// inside the text, and offsets leave headroom for the characters a
    /// transformation may add.
    pub open spec fn wf(self) -> bool {
        &&& self.range.wf()
        &&& self.range.spec_len() == self.text@.len()
        &&& (self.kind matches LiteralKind::IntNumber { suffix_len } ==> suffix_len
            <= self.text@.len())
        &&& self.range.end <= usize::MAX - 32
    }
}

/// The immediate structural parent of a string token, as reported by
/// the surrounding system's tree-lookup capability.
#[derive(Debug, Clone)]
pub enum EnclosingCall {
    /// The token has no parent node.
    NoParent,
    /// The parent is a call-like node with the given callee name.
    MacroCall { name: Vec<u8> },
    /// The parent is some other node.
    NotACall,
}

/// The string token covering the requested position, when the
/// surrounding system found one: its range, the range strictly between
/// its quotes, and its immediate structural parent.
#[derive(Debug, Clone)]
pub struct StringToken {
    pub range: TextRange,
    pub between_quotes: Option<TextRange>,
    pub enclosing: EnclosingCall,
}

impl StringToken {
    /// The quoted interior sits strictly inside the token (one quote
    /// character on each side), and offsets leave headroom for the
    /// fragments a split inserts.
    pub open spec fn wf(self) -> bool {
        &&& self.range.wf()
        &&& (self.between_quotes matches Some(bq) ==> bq.wf() && self.range.start < bq.start
            && bq.end < self.range.end)
        &&& self.range.end <= usize::MAX - 32
    }
}

/// Everything a handler sees: the requested selection, the covering
/// tokens the surrounding system looked up for it, and whether the
/// caller wants the full edit or only applicability.
#[derive(Debug, Clone)]
pub struct AssistCtx {
    /// The caret position or selection the assist was requested at.
    pub frange: TextRange,
    /// The covering literal token, if the lookup found one.
    pub literal: Option<LiteralToken>,
    /// The covering string token, if the lookup found one.
    pub string_token: Option<StringToken>,
    /// Resolve fully, or only check applicability.
    pub should_resolve: bool,
}

impl AssistCtx {
    pub open spec fn wf(self) -> bool {
        &&& self.frange.wf()
        &&& (self.literal matches Some(t) ==> t.wf())
        &&& (self.string_token matches Some(t) ==> t.wf())
    }
}

/// The transformations this library provides, in registration order.
#[derive(Debug, Clone, Copy, PartialEq, Eq, Structural)]
pub enum AssistHandler {
    SplitString,
    RemoveDigitSeparators,
    SeparateNumberLiteral,
}

/// What each handler's result satisfies.
pub open spec fn handler_post(h: AssistHandler, ctx: AssistCtx, r: Option<Assist>) -> bool {
    match h {
        AssistHandler::SplitString => split_string_post(ctx, r),
        AssistHandler::RemoveDigitSeparators => remove_digit_separators_post(ctx, r),
        AssistHandler::SeparateNumberLiteral => separate_number_literal_post(ctx, r),
    }
}

/// Every handler of the library, in registration order.
pub fn all() -> (r: Vec<AssistHandler>)
    ensures
        r@ == seq![
            AssistHandler::SplitString,
            AssistHandler::RemoveDigitSeparators,
            AssistHandler::SeparateNumberLiteral,
        ],
{
    let mut r: Vec<AssistHandler> = Vec::new();
    r.push(AssistHandler::SplitString);
    r.push(AssistHandler::RemoveDigitSeparators);
    r.push(AssistHandler::SeparateNumberLiteral);
    proof {
        assert(r@ =~= seq![
            AssistHandler::SplitString,
            AssistHandler::RemoveDigitSeparators,
            AssistHandler::SeparateNumberLiteral,
        ]);
    }
    r
}

/// Runs one handler on the context.
pub fn dispatch(h: AssistHandler, ctx: &AssistCtx) -> (r: Option<Assist>)
    requires
        ctx.wf(),
    ensures
        handler_post(h, *ctx, r),
{
    match h {
        AssistHandler::SplitString => split_string(ctx),
        AssistHandler::RemoveDigitSeparators => remove_digit_separators(ctx),
        AssistHandler::SeparateNumberLiteral => separate_number_literal(ctx),
    }
}

/// The sort key of a resolved assist: the length of its target range; a
/// missing target sorts last.
pub open spec fn spec_sort_key(a: ResolvedAssist) -> int {
    match a.action.target {
        Some(t) => t.spec_len(),
        None => usize::MAX as int,
    }
}

/// The key is computable: a present target is a valid range.
pub open spec fn key_wf(a: ResolvedAssist) -> bool {
    a.action.target matches Some(t) ==> t.wf()
}

fn sort_key(a: &ResolvedAssist) -> (r: usize)
    requires
        key_wf(*a),
    ensures
        r == spec_sort_key(*a),
{
    match &a.action.target {
        Some(t) => t.len(),
        None => usize::MAX,
    }
}

/// Results ordered ascending by target length: the narrowest, most
/// specific assist comes first.
pub open spec fn assists_sorted(s: Seq<ResolvedAssist>) -> bool {
    forall|i: int, j: int|
        0 <= i < j < s.len() ==> spec_sort_key(#[trigger] s[i]) <= spec_sort_key(#[trigger] s[j])
}

/// Stable insertion by sort key: a result added later goes after the
/// ones already there with the same key.
pub open spec fn assists_sorted_insert(s: Seq<ResolvedAssist>, a: ResolvedAssist) -> Seq<
    ResolvedAssist,
>
    decreases s.len(),
{
    if s.len() == 0 {
        seq![a]
    } else if spec_sort_key(s.last()) <= spec_sort_key(a) {
        s.push(a)
    } else {
        assists_sorted_insert(s.drop_last(), a).push(s.last())
    }
}

/// The stable sort of the handlers' results by target length.
pub open spec fn assists_sort(s: Seq<ResolvedAssist>) -> Seq<ResolvedAssist>
    decreases s.len(),
{
    if s.len() == 0 {
        Seq::empty()
    } else {
        assists_sorted_insert(assists_sort(s.drop_last()), s.last())
    }
}

proof fn lemma_assists_sorted_insert_at(s: Seq<ResolvedAssist>, a: ResolvedAssist, j: int)
    requires
        0 <= j <= s.len(),
        forall|k: int| j <= k < s.len() ==> spec_sort_key(#[trigger] s[k]) > spec_sort_key(a),
        j > 0 ==> spec_sort_key(s[j - 1]) <= spec_sort_key(a),
    ensures
        assists_sorted_insert(s, a) == s.subrange(0, j) + seq![a] + s.subrange(j, s.len() as int),
    decreases s.len(),
{
    let n = s.len() as int;
    if n == 0 {
        assert(assists_sorted_insert(s, a) =~= s.subrange(0, j) + seq![a] + s.subrange(j, n));
    } else if spec_sort_key(s.last()) <= spec_sort_key(a) {
        assert(j == n);
        assert(s.push(a) =~= s.subrange(0, j) + seq![a] + s.subrange(j, n));
    } else {
        assert(j < n);
        lemma_assists_sorted_insert_at(s.drop_last(), a, j);
        assert(assists_sorted_insert(s, a) =~= s.subrange(0, j) + seq![a] + s.subrange(j, n));
    }
}

fn push_sorted(v: &mut Vec<ResolvedAssist>, a: ResolvedAssist)
    requires
        assists_sorted(old(v)@),
        forall|i: int| 0 <= i < old(v)@.len() ==> key_wf(#[trigger] old(v)@[i]),
        key_wf(a),
    ensures
        final(v)@ == assists_sorted_insert(old(v)@, a),
        assists_sorted(final(v)@),
        forall|i: int| 0 <= i < final(v)@.len() ==> key_wf(#[trigger] final(v)@[i]),
{
    let key = sort_key(&a);
    let mut idx: usize = v.len();
    while idx > 0 && sort_key(&v[idx - 1]) > key
        invariant
            idx <= v.len(),
            key == spec_sort_key(a),
            forall|i: int| 0 <= i < v@.len() ==> key_wf(#[trigger] v@[i]),
            forall|k: int| idx <= k < v@.len() ==> spec_sort_key(#[trigger] v@[k]) > spec_sort_key(a),
            v == old(v),
        decreases idx,
    {
        idx = idx - 1;
    }
    proof {
        lemma_assists_sorted_insert_at(v@, a, idx as int);
    }
    let ghost prev = v@;
    v.insert(idx, a);
    proof {
        assert(v@ =~= prev.subrange(0, idx as int) + seq![a] + prev.subrange(
            idx as int,
            prev.len() as int,
        ));
        assert forall|i: int, j: int| 0 <= i < j < v@.len() implies spec_sort_key(
            #[trigger] v@[i],
        ) <= spec_sort_key(#[trigger] v@[j]) by {
            if i < idx && j == idx {
                assert(spec_sort_key(prev[idx - 1]) <= spec_sort_key(a));
                if i < idx - 1 {
                    assert(spec_sort_key(prev[i]) <= spec_sort_key(prev[idx - 1]));
                }
            }
        }
    }
}

/// How many handlers apply to the context.
pub open spec fn candidate_count(ctx: AssistCtx) -> int {
    (if split_applicable(ctx) {
        1int
    } else {
        0
    }) + (if remove_applicable(ctx) {
        1int
    } else {
        0
    }) + (if separate_applicable(ctx) {
        1int
    } else {
        0
    })
}

/// The resolved results of the applicable handlers, in registration
/// order: the split assist, then separator removal, then digit
/// grouping.
pub open spec fn collected_resolved(ctx: AssistCtx, s: Seq<ResolvedAssist>) -> bool {
    let n0: int = if split_applicable(ctx) {
        1
    } else {
        0
    };
    let n1: int = if remove_applicable(ctx) {
        1
    } else {
        0
    };
    &&& s.len() == candidate_count(ctx)
    &&& (split_applicable(ctx) ==> split_resolved_matches(ctx, s[0]))
    &&& (remove_applicable(ctx) ==> remove_resolved_matches(ctx, s[n0]))
    &&& (separate_applicable(ctx) ==> separate_resolved_matches(ctx, s[n0 + n1]))
}

/// The labels of the applicable handlers, in registration order.
pub open spec fn collected_labels(ctx: AssistCtx, s: Seq<AssistLabel>) -> bool {
    let n0: int = if split_applicable(ctx) {
        1
    } else {
        0
    };
    let n1: int = if remove_applicable(ctx) {
        1
    } else {
        0
    };
    &&& s.len() == candidate_count(ctx)
    &&& (split_applicable(ctx) ==> split_label_matches(s[0]))
    &&& (remove_applicable(ctx) ==> remove_label_matches(s[n0]))
    &&& (separate_applicable(ctx) ==> separate_label_matches(ctx, s[n0 + n1]))
}

/// Return all the assists applicable at the given position.
///
/// Assists are returned in the "unresolved" state, that is only labels
/// are returned, without actual edits.
pub fn unresolved_assists(ctx: &AssistCtx) -> (r: Vec<AssistLabel>)
    requires
        ctx.wf(),
    ensures
        collected_labels(*ctx, r@),
{
    let mut r: Vec<AssistLabel> = Vec::new();
    if let Some(a) = split_string(ctx) {
        r.push(a.label);
    }
    if let Some(a) = remove_digit_separators(ctx) {
        r.push(a.label);
    }
    if let Some(a) = separate_number_literal(ctx) {
        r.push(a.label);
    }
    r
}

/// Return all the assists applicable at the given position.
///
/// Assists are returned in the "resolved" state, that is with the edit
/// fully computed, sorted ascending by target-range length so the most
/// specific assist comes first.
pub fn resolved_assists(ctx: &AssistCtx) -> (r: Vec<ResolvedAssist>)
    requires
        ctx.wf(),
        ctx.should_resolve,
    ensures
        assists_sorted(r@),
        exists|c: Seq<ResolvedAssist>|
            collected_resolved(*ctx, c) && r@ == #[trigger] assists_sort(c),
{
    let mut candidates: Vec<ResolvedAssist> = Vec::new();
    if let Some(a) = split_string(ctx) {
        let res = match a.into_resolved() {
            Some(res) => res,
            None => unreached(),
        };
        candidates.push(res);
    }
    if let Some(a) = remove_digit_separators(ctx) {
        let res = match a.into_resolved() {
            Some(res) => res,
            None => unreached(),
        };
        candidates.push(res);
    }
    if let Some(a) = separate_number_literal(ctx) {
        let res = match a.into_resolved() {
            Some(res) => res,
            None => unreached(),
        };
        candidates.push(res);
    }
    let ghost c = candidates@;
    proof {
        assert(collected_resolved(*ctx, c));
        assert forall|i: int| 0 <= i < c.len() implies key_wf(#[trigger] c[i]) by {
            let n0: int = if split_applicable(*ctx) {
                1
            } else {
                0
            };
            let n1: int = if remove_applicable(*ctx) {
                1
            } else {
                0
            };
            if split_applicable(*ctx) && i == 0 {
                assert(split_resolved_matches(*ctx, c[i]));
            } else if remove_applicable(*ctx) && i == n0 {
                assert(remove_resolved_matches(*ctx, c[i]));
            } else {
                assert(separate_applicable(*ctx) && i == n0 + n1);
                assert(separate_resolved_matches(*ctx, c[i]));
            }
        }
        assert(c.take(0) =~= Seq::<ResolvedAssist>::empty());
    }
    let mut rest = candidates;
    let mut result: Vec<ResolvedAssist> = Vec::new();
    while rest.len() > 0
        invariant
            rest@.len() <= c.len(),
            rest@ == c.skip(c.len() - rest@.len()),
            result@ == assists_sort(c.take(c.len() - rest@.len())),
            assists_sorted(result@),
            forall|i: int| 0 <= i < result@.len() ==> key_wf(#[trigger] result@[i]),
            forall|i: int| 0 <= i < c.len() ==> key_wf(#[trigger] c[i]),
        decreases rest@.len(),
    {
        let ghost k = c.len() - rest@.len();
        let a = rest.remove(0);
        proof {
            assert(a == c.skip(k as int)[0]);
            assert(c.skip(k as int)[0] == c[k as int]);
            assert(c.skip(k as int).remove(0) =~= c.skip(k as int + 1));
        }
        push_sorted(&mut result, a);
        proof {
            assert(c.take(k as int + 1).drop_last() =~= c.take(k as int));
            assert(c.take(k as int + 1).last() == c[k as int]);
            assert(result@ == assists_sort(c.take(k as int + 1)));
        }
    }
    proof {
        assert(c.take(c.len() as int) =~= c);
        assert(result@ == assists_sort(c));
    }
    result
}

} // verus!
