//! Integer-literal assists: the decomposition of a literal token into
//! prefix, digits and suffix, the digit-grouping engine that inserts
//! `_` separators at fixed intervals counted from the right, and the two
//! handlers built on them (removing all separators, and re-grouping the
//! digits of a decimal, hexadecimal or binary literal).

use vstd::prelude::*;

use crate::Assist;
use crate::AssistAction;
use crate::AssistCtx;
use crate::AssistId;
use crate::AssistLabel;
use crate::LiteralKind;
use crate::LiteralToken;
use crate::ResolvedAssist;
use crate::label_starts_uppercase;
use crate::text_edit::TextEditBuilder;
use crate::text_edit::bytes_eq;
use crate::text_edit::push_range;

verus! {

/// The digit-group separator character.
pub const SEPARATOR: u8 = 95u8;  // b'_'

pub open spec fn is_sep(c: u8) -> bool {
    c == SEPARATOR
}

/// The canonical digit sequence: `s` with every separator removed.
pub open spec fn spec_strip(s: Seq<u8>) -> Seq<u8> {
    s.filter(|c: u8| !is_sep(c))
}

proof fn lemma_strip_push(s: Seq<u8>, x: u8)
    ensures
        spec_strip(s.push(x)) == (if is_sep(x) {
            spec_strip(s)
        } else {
            spec_strip(s).push(x)
        }),
{
    reveal(Seq::<_>::filter);
    assert(s.push(x).drop_last() =~= s);
    assert(s.push(x).last() == x);
}

proof fn lemma_strip_idempotent(s: Seq<u8>)
    ensures
        spec_strip(spec_strip(s)) == spec_strip(s),
    decreases s.len(),
{
    reveal(Seq::<_>::filter);
    if s.len() == 0 {
        assert(spec_strip(Seq::<u8>::empty()) =~= Seq::<u8>::empty());
    } else {
        let dl = s.drop_last();
        lemma_strip_idempotent(dl);
        assert(dl.push(s.last()) =~= s);
        lemma_strip_push(dl, s.last());
        if !is_sep(s.last()) {
            lemma_strip_push(spec_strip(dl), s.last());
        }
    }
}

/// Removes every separator character; pure and total.
pub fn remove_separator_from_string(text: &Vec<u8>) -> (r: Vec<u8>)
    ensures
        r@ == spec_strip(text@),
{
    let mut result: Vec<u8> = Vec::new();
    let mut i: usize = 0;
    proof {
        reveal(Seq::<_>::filter);
        assert(text@.take(0) =~= Seq::<u8>::empty());
        assert(spec_strip(Seq::<u8>::empty()) =~= Seq::<u8>::empty());
    }
    while i < text.len()
        invariant
            0 <= i <= text@.len(),
            result@ == spec_strip(text@.take(i as int)),
        decreases text@.len() - i,
    {
        let c = text[i];
        proof {
            assert(text@.take(i as int).push(text@[i as int]) =~= text@.take(i as int + 1));
            lemma_strip_push(text@.take(i as int), text@[i as int]);
        }
        if c != SEPARATOR {
            result.push(c);
        }
        i = i + 1;
    }
    proof {
        assert(text@.take(text@.len() as int) =~= text@);
    }
    result
}

/// How far the leftmost (possibly partial) group shifts the separator
/// pattern: with `n` canonical digits in groups of `g`, a separator goes
/// before position `i` exactly when `i != 0` and `g` divides
/// `i + sep_offset(n, g)`.
pub open spec fn sep_offset(n: int, g: int) -> int {
    g - (n % g)
}

pub open spec fn sep_before(i: int, n: int, g: int) -> bool {
    i != 0 && (i + sep_offset(n, g)) % g == 0
}

/// The first `i` canonical digits of `s`, with separators inserted so
/// that groups of exactly `g` digits are counted from the right of the
/// whole sequence, the leftmost group absorbing any remainder.
pub open spec fn spec_group_upto(s: Seq<u8>, g: int, i: int) -> Seq<u8>
    decreases i,
{
    if i <= 0 {
        Seq::empty()
    } else {
        spec_group_upto(s, g, i - 1) + (if sep_before(i - 1, s.len() as int, g) {
            seq![SEPARATOR]
        } else {
            Seq::empty()
        }) + seq![s[i - 1]]
    }
}

/// `s` (a canonical, separator-free digit sequence) grouped by `g`.
pub open spec fn spec_group(s: Seq<u8>, g: int) -> Seq<u8> {
    spec_group_upto(s, g, s.len() as int)
}

proof fn lemma_strip_group_upto(s: Seq<u8>, g: int, i: int)
    requires
        0 <= i <= s.len(),
    ensures
        spec_strip(spec_group_upto(s, g, i)) == spec_strip(s.take(i)),
    decreases i,
{
    broadcast use Seq::filter_distributes_over_add;

    reveal(Seq::<_>::filter);
    if i <= 0 {
        assert(s.take(0) =~= Seq::<u8>::empty());
        assert(spec_strip(Seq::<u8>::empty()) =~= Seq::<u8>::empty());
    } else {
        lemma_strip_group_upto(s, g, i - 1);
        let a = spec_group_upto(s, g, i - 1);
        let mid: Seq<u8> = if sep_before(i - 1, s.len() as int, g) {
            seq![SEPARATOR]
        } else {
            Seq::empty()
        };
        let c1: Seq<u8> = seq![s[i - 1]];
        assert(spec_strip(Seq::<u8>::empty()) =~= Seq::<u8>::empty());
        assert(Seq::<u8>::empty().push(SEPARATOR) =~= seq![SEPARATOR]);
        lemma_strip_push(Seq::<u8>::empty(), SEPARATOR);
        assert(Seq::<u8>::empty().push(s[i - 1]) =~= c1);
        lemma_strip_push(Seq::<u8>::empty(), s[i - 1]);
        assert(s.take(i - 1).push(s[i - 1]) =~= s.take(i));
        lemma_strip_push(s.take(i - 1), s[i - 1]);
        assert(spec_group_upto(s, g, i) == a + mid + c1);
        assert(spec_strip(a + mid + c1) == spec_strip(a + mid) + spec_strip(c1));
        assert(spec_strip(a + mid) == spec_strip(a) + spec_strip(mid));
        assert(spec_strip(spec_group_upto(s, g, i)) =~= spec_strip(s.take(i)));
    }
}

/// Stripping a grouped sequence recovers exactly what stripping the
/// input does: grouping inserts separators and nothing else.
pub proof fn lemma_strip_group(s: Seq<u8>, g: int)
    ensures
        spec_strip(spec_group(s, g)) == spec_strip(s),
{
    lemma_strip_group_upto(s, g, s.len() as int);
    assert(s.take(s.len() as int) =~= s);
}

/// Grouping preserves the digit values: for any raw digit string,
/// stripping the grouped form of its canonical digits gives back those
/// canonical digits — the characters and their order are untouched.
pub proof fn lemma_group_round_trip(digits: Seq<u8>, g: int)
    requires
        g >= 1,
    ensures
        spec_strip(spec_group(spec_strip(digits), g)) == spec_strip(digits),
{
    lemma_strip_group(spec_strip(digits), g);
    lemma_strip_idempotent(digits);
}

/// Grouping is idempotent: stripping a grouped digit string and grouping
/// it again by the same size reproduces it exactly.
pub proof fn lemma_group_idempotent(digits: Seq<u8>, g: int)
    requires
        g >= 1,
    ensures
        spec_group(spec_strip(spec_group(spec_strip(digits), g)), g) == spec_group(
            spec_strip(digits),
            g,
        ),
{
    lemma_group_round_trip(digits, g);
}

/// The kind of an integer literal.
#[derive(Debug, Clone, Copy, PartialEq, Eq, Structural)]
pub enum NumberLiteralType {
    /// A literal without prefix, `42`
    Decimal,
    /// Hexadecimal literal, `0x2A`
    PrefixHex,
    /// Octal literal, `0o52`
    PrefixOctal,
    /// Binary literal, `0b00101010`
    PrefixBinary,
}

/// An integer literal decomposed into its parts. Reassembling
/// `prefix + text + suffix` always reproduces a literal of the same
/// kind: a digit transformation touches only `text`.
#[derive(Debug, Clone)]
pub struct NumberLiteral {
    /// The type of literal (no prefix, hex, octal or binary)
    pub number_type: NumberLiteralType,
    /// The suffix, for example `i32`
    pub suffix: Option<Vec<u8>>,
    /// The prefix, for example `0x`
    pub prefix: Option<Vec<u8>>,
    /// The digits of the literal, possibly still holding separators
    pub text: Vec<u8>,
}

/// The token text with its suffix removed.
pub open spec fn spec_non_suffix(text: Seq<u8>, suffix_len: int) -> Seq<u8> {
    text.take(text.len() - suffix_len)
}

/// The literal kind read off a two-character prefix (lowercase only); a
/// token too short to carry a prefix is decimal.
pub open spec fn spec_number_type(text: Seq<u8>, suffix_len: int) -> NumberLiteralType {
    let ns = spec_non_suffix(text, suffix_len);
    if ns.len() < 2 {
        NumberLiteralType::Decimal
    } else if ns[0] == 48 && ns[1] == 120 {  // "0x"
        NumberLiteralType::PrefixHex
    } else if ns[0] == 48 && ns[1] == 98 {  // "0b"
        NumberLiteralType::PrefixBinary
    } else if ns[0] == 48 && ns[1] == 111 {  // "0o"
        NumberLiteralType::PrefixOctal
    } else {
        NumberLiteralType::Decimal
    }
}

pub open spec fn spec_prefix_len(t: NumberLiteralType) -> int {
    if t is Decimal {
        0
    } else {
        2
    }
}

/// The digit part: everything between prefix and suffix, separators
/// included (normalization is deferred to the grouping stage).
pub open spec fn spec_digits(text: Seq<u8>, suffix_len: int) -> Seq<u8> {
    spec_non_suffix(text, suffix_len).skip(spec_prefix_len(spec_number_type(text, suffix_len)))
}

pub open spec fn spec_prefix_seq(text: Seq<u8>, suffix_len: int) -> Seq<u8> {
    spec_non_suffix(text, suffix_len).take(spec_prefix_len(spec_number_type(text, suffix_len)))
}

pub open spec fn spec_suffix_seq(text: Seq<u8>, suffix_len: int) -> Seq<u8> {
    text.skip(text.len() - suffix_len)
}

/// How `identify_number_literal` decomposes a token text with the given
/// suffix length.
pub open spec fn identified(text: Seq<u8>, suffix_len: int, lit: NumberLiteral) -> bool {
    &&& lit.number_type == spec_number_type(text, suffix_len)
    &&& (lit.prefix is Some <==> !(spec_number_type(text, suffix_len) is Decimal))
    &&& (lit.prefix matches Some(p) ==> p@ == spec_prefix_seq(text, suffix_len))
    &&& (lit.suffix is Some <==> suffix_len > 0)
    &&& (lit.suffix matches Some(sfx) ==> sfx@ == spec_suffix_seq(text, suffix_len))
    &&& lit.text@ == spec_digits(text, suffix_len)
}

/// Copies `src[from..to]` into a fresh buffer.
fn copy_range(src: &Vec<u8>, from: usize, to: usize) -> (r: Vec<u8>)
    requires
        from <= to <= src@.len(),
    ensures
        r@ == src@.subrange(from as int, to as int),
{
    let mut r: Vec<u8> = Vec::new();
    push_range(&mut r, src, from, to);
    proof {
        assert(r@ =~= src@.subrange(from as int, to as int));
    }
    r
}

/// Whether the covering token is an integer-like literal.
pub fn is_int_number(token: &LiteralToken) -> (r: bool)
    ensures
        r == (token.kind is IntNumber),
{
    match token.kind {
        LiteralKind::IntNumber { .. } => true,
        _ => false,
    }
}

/// Decomposes an integer-like literal token into prefix, digits and
/// suffix; any other token is not a number literal.
pub fn identify_number_literal(token: &LiteralToken) -> (r: Option<NumberLiteral>)
    requires
        token.wf(),
    ensures
        r is Some <==> token.kind is IntNumber,
        r matches Some(lit) ==> (token.kind matches LiteralKind::IntNumber { suffix_len }
            && identified(token.text@, suffix_len as int, lit)),
{
    match token.kind {
        LiteralKind::IntNumber { suffix_len } => {
            let full_len = token.text.len();
            let non_suffix_len = full_len - suffix_len;
            let has_prefix = if non_suffix_len < 2 {
                false
            } else {
                let b0 = token.text[0];
                let b1 = token.text[1];
                b0 == 48 && (b1 == 120 || b1 == 98 || b1 == 111)
            };
            let number_type = if !has_prefix {
                NumberLiteralType::Decimal
            } else {
                let b1 = token.text[1];
                if b1 == 120 {
                    NumberLiteralType::PrefixHex
                } else if b1 == 98 {
                    NumberLiteralType::PrefixBinary
                } else {
                    NumberLiteralType::PrefixOctal
                }
            };
            let prefix_len: usize = if has_prefix {
                2
            } else {
                0
            };
            let prefix = if has_prefix {
                Some(copy_range(&token.text, 0, 2))
            } else {
                None
            };
            let suffix = if suffix_len > 0 {
                Some(copy_range(&token.text, non_suffix_len, full_len))
            } else {
                None
            };
            let digits = copy_range(&token.text, prefix_len, non_suffix_len);
            proof {
                let text = token.text@;
                let sl = suffix_len as int;
                let ns = spec_non_suffix(text, sl);
                assert(ns =~= text.take(text.len() - sl));
                assert forall|k: int| 0 <= k < ns.len() implies ns[k] == text[k] by {}
                assert(digits@ =~= spec_digits(text, sl));
                if has_prefix {
                    assert(prefix->Some_0@ =~= spec_prefix_seq(text, sl));
                }
                if suffix_len > 0 {
                    assert(suffix->Some_0@ =~= spec_suffix_seq(text, sl));
                }
            }
            Some(NumberLiteral { number_type, suffix, prefix, text: digits })
        },
        _ => None,
    }
}

impl NumberLiteral {
    /// The reassembled token text: prefix, digits, suffix.
    pub open spec fn spec_render(self) -> Seq<u8> {
        (match self.prefix {
            Some(p) => p@,
            None => Seq::empty(),
        }) + self.text@ + (match self.suffix {
            Some(sfx) => sfx@,
            None => Seq::empty(),
        })
    }

    /// Writes the literal back out as token text.
    pub fn render(&self) -> (r: Vec<u8>)
        ensures
            r@ == self.spec_render(),
    {
        let mut r: Vec<u8> = Vec::new();
        if let Some(p) = &self.prefix {
            push_range(&mut r, p, 0, p.len());
        }
        push_range(&mut r, &self.text, 0, self.text.len());
        if let Some(sfx) = &self.suffix {
            push_range(&mut r, sfx, 0, sfx.len());
        }
        proof {
            assert(r@ =~= self.spec_render());
        }
        r
    }
}

/// Groups the canonical digits of `text` (separators stripped first) into
/// groups of `every`, counted from the right; the leftmost group absorbs
/// any remainder. `every` must be positive, and the grouped result must
/// be addressable.
pub fn separate_number(text: &Vec<u8>, every: usize) -> (r: Vec<u8>)
    requires
        every >= 1,
        text@.len() + every <= usize::MAX,
    ensures
        r@ == spec_group(spec_strip(text@), every as int),
{
    let without_separators = remove_separator_from_string(text);
    let len = without_separators.len();
    proof {
        Seq::lemma_filter_len(text@, |c: u8| !is_sep(c));
    }
    let offset = every - (len % every);
    let mut result: Vec<u8> = Vec::new();
    let mut i: usize = 0;
    while i < len
        invariant
            0 <= i <= len,
            len == without_separators@.len(),
            without_separators@ == spec_strip(text@),
            every >= 1,
            len + every <= usize::MAX,
            offset == sep_offset(len as int, every as int),
            result@ == spec_group_upto(without_separators@, every as int, i as int),
        decreases len - i,
    {
        if i != 0 && (i + offset) % every == 0 {
            result.push(SEPARATOR);
        }
        let c = without_separators[i];
        result.push(c);
        proof {
            assert(sep_before(i as int, len as int, every as int) == (i != 0 && ((i + offset) as int)
                % (every as int) == 0));
            assert(result@ =~= spec_group_upto(without_separators@, every as int, i as int + 1));
        }
        i = i + 1;
    }
    result
}

/// Whether `text` holds at least one separator character.
pub fn contains_separator(text: &Vec<u8>) -> (r: bool)
    ensures
        r == text@.contains(SEPARATOR),
{
    let mut i: usize = 0;
    while i < text.len()
        invariant
            0 <= i <= text@.len(),
            forall|k: int| 0 <= k < i ==> text@[k] != SEPARATOR,
        decreases text@.len() - i,
    {
        if text[i] == SEPARATOR {
            return true;
        }
        i = i + 1;
    }
    false
}

/// Whether the assist that removes digit separators applies: the
/// covering token is an integer literal whose raw text holds at least
/// one separator.
pub open spec fn remove_applicable(ctx: AssistCtx) -> bool {
    match ctx.literal {
        Some(tok) => tok.kind is IntNumber && tok.text@.contains(SEPARATOR),
        None => false,
    }
}

/// The action of the separator-removal assist: it replaces the whole
/// token by its separator-stripped text, sets no explicit caret, and
/// targets the whole token.
pub open spec fn remove_action_matches(ctx: AssistCtx, act: AssistAction) -> bool {
    let tok = ctx.literal->Some_0;
    &&& act.target == Some(tok.range)
    &&& act.cursor_position is None
    &&& act.edit.wf()
    &&& act.edit@.len() == 1
    &&& act.edit@[0].delete == tok.range
    &&& act.edit@[0].insert@ == spec_strip(tok.text@)
}

pub open spec fn remove_label_matches(label: AssistLabel) -> bool {
    label.label@ == "Remove digit separators"@ && label.id.0@ == "remove_digit_separators"@
}

/// A resolved separator-removal assist, as the driver reports it.
pub open spec fn remove_resolved_matches(ctx: AssistCtx, a: ResolvedAssist) -> bool {
    &&& remove_label_matches(a.label)
    &&& a.group_label is None
    &&& remove_action_matches(ctx, a.action)
}

/// The full contract of `remove_digit_separators`: an assist comes back
/// exactly when applicable, labelled for separator removal, and its
/// action (present exactly when resolution was asked for) replaces the
/// whole token by its separator-stripped text.
pub open spec fn remove_digit_separators_post(ctx: AssistCtx, r: Option<Assist>) -> bool {
    &&& (r is Some <==> remove_applicable(ctx))
    &&& (r matches Some(a) ==> {
        &&& remove_label_matches(a.label)
        &&& a.group_label is None
        &&& (a.action is Some <==> ctx.should_resolve)
        &&& (a.action matches Some(act) ==> remove_action_matches(ctx, act))
    })
}

/// Replaces an integer literal that holds `_` separators by the same
/// literal with every separator removed.
pub fn remove_digit_separators(ctx: &AssistCtx) -> (r: Option<Assist>)
    requires
        ctx.wf(),
    ensures
        remove_digit_separators_post(*ctx, r),
{
    let literal = match &ctx.literal {
        Some(l) => l,
        None => {
            return None;
        },
    };
    if !is_int_number(literal) {
        return None;
    }
    if !contains_separator(&literal.text) {
        return None;
    }
    proof {
        reveal_strlit("Remove digit separators");
    }
    let label = AssistLabel::new(
        "Remove digit separators".to_owned(),
        AssistId("remove_digit_separators"),
    );
    let action = if ctx.should_resolve {
        let new_text = remove_separator_from_string(&literal.text);
        let mut builder = TextEditBuilder::new();
        builder.replace(literal.range, new_text);
        let edit = match builder.finish() {
            Some(e) => e,
            None => unreached(),
        };
        Some(AssistAction { edit, cursor_position: None, target: Some(literal.range) })
    } else {
        None
    };
    Some(Assist { label, group_label: None, action })
}

/// The per-kind grouping rule: group size, identifier and label of the
/// grouping assist. Octal has none, by design.
#[derive(Debug, Clone)]
pub struct SeparateNumberDetails {
    pub id: AssistId,
    pub label: String,
    pub every: usize,
}

/// The group size defined for each literal kind; octal literals have no
/// defined grouping.
pub open spec fn spec_every(t: NumberLiteralType) -> Option<int> {
    match t {
        NumberLiteralType::Decimal => Some(3),
        NumberLiteralType::PrefixHex => Some(4),
        NumberLiteralType::PrefixBinary => Some(8),
        NumberLiteralType::PrefixOctal => None,
    }
}

pub open spec fn spec_separate_id(t: NumberLiteralType) -> Seq<char> {
    match t {
        NumberLiteralType::Decimal => "separate_decimal_thousands"@,
        NumberLiteralType::PrefixHex => "separate_hexadecimal_word"@,
        NumberLiteralType::PrefixBinary => "separate_binary_bytes"@,
        NumberLiteralType::PrefixOctal => Seq::empty(),
    }
}

pub open spec fn spec_separate_label(t: NumberLiteralType) -> Seq<char> {
    match t {
        NumberLiteralType::Decimal => "Separate thousands"@,
        NumberLiteralType::PrefixHex => "Separate 16-bit words"@,
        NumberLiteralType::PrefixBinary => "Separate bytes"@,
        NumberLiteralType::PrefixOctal => Seq::empty(),
    }
}

/// Looks up the grouping rule for the literal's kind; octal literals
/// have none.
pub fn get_separate_number_details(literal: &NumberLiteral) -> (r: Option<SeparateNumberDetails>)
    ensures
        r is Some <==> spec_every(literal.number_type) is Some,
        r matches Some(d) ==> {
            &&& Some(d.every as int) == spec_every(literal.number_type)
            &&& d.id.0@ == spec_separate_id(literal.number_type)
            &&& d.label@ == spec_separate_label(literal.number_type)
        },
{
    match literal.number_type {
        NumberLiteralType::Decimal => Some(
            SeparateNumberDetails {
                id: AssistId("separate_decimal_thousands"),
                label: "Separate thousands".to_owned(),
                every: 3,
            },
        ),
        NumberLiteralType::PrefixHex => Some(
            SeparateNumberDetails {
                id: AssistId("separate_hexadecimal_word"),
                label: "Separate 16-bit words".to_owned(),
                every: 4,
            },
        ),
        NumberLiteralType::PrefixBinary => Some(
            SeparateNumberDetails {
                id: AssistId("separate_binary_bytes"),
                label: "Separate bytes".to_owned(),
                every: 8,
            },
        ),
        _ => None,
    }
}

/// Whether the grouping assist applies: the literal's kind has a defined
/// grouping, the canonical (stripped) digit count exceeds the group
/// size, and the freshly grouped digits differ from the current raw
/// digits — an already correctly grouped literal is not offered the
/// assist again.
pub open spec fn separate_applicable(ctx: AssistCtx) -> bool {
    match ctx.literal {
        Some(tok) => match tok.kind {
            LiteralKind::IntNumber { suffix_len } => {
                let t = spec_number_type(tok.text@, suffix_len as int);
                let digits = spec_digits(tok.text@, suffix_len as int);
                match spec_every(t) {
                    Some(g) => spec_strip(digits).len() > g && spec_group(spec_strip(digits), g)
                        != digits,
                    None => false,
                }
            },
            _ => false,
        },
        None => false,
    }
}

/// The action of the grouping assist: it replaces the whole token by
/// prefix, regrouped digits and suffix, sets no explicit caret, and
/// targets the whole token.
pub open spec fn separate_action_matches(ctx: AssistCtx, act: AssistAction) -> bool {
    let tok = ctx.literal->Some_0;
    let sl = tok.kind->suffix_len as int;
    let t = spec_number_type(tok.text@, sl);
    let digits = spec_digits(tok.text@, sl);
    &&& act.target == Some(tok.range)
    &&& act.cursor_position is None
    &&& act.edit.wf()
    &&& act.edit@.len() == 1
    &&& act.edit@[0].delete == tok.range
    &&& act.edit@[0].insert@ == spec_prefix_seq(tok.text@, sl) + spec_group(
        spec_strip(digits),
        spec_every(t)->Some_0,
    ) + spec_suffix_seq(tok.text@, sl)
}

/// The grouping assist's label and identifier vary by literal kind.
pub open spec fn separate_label_matches(ctx: AssistCtx, label: AssistLabel) -> bool {
    let tok = ctx.literal->Some_0;
    let t = spec_number_type(tok.text@, tok.kind->suffix_len as int);
    label.label@ == spec_separate_label(t) && label.id.0@ == spec_separate_id(t)
}

/// A resolved grouping assist, as the driver reports it.
pub open spec fn separate_resolved_matches(ctx: AssistCtx, a: ResolvedAssist) -> bool {
    &&& separate_label_matches(ctx, a.label)
    &&& a.group_label is None
    &&& separate_action_matches(ctx, a.action)
}

/// The full contract of `separate_number_literal`: an assist comes back
/// exactly when applicable, labelled for the literal's kind, and its
/// action (present exactly when resolution was asked for) replaces the
/// whole token by prefix, regrouped digits and suffix.
pub open spec fn separate_number_literal_post(ctx: AssistCtx, r: Option<Assist>) -> bool {
    &&& (r is Some <==> separate_applicable(ctx))
    &&& (r matches Some(a) ==> {
        &&& separate_label_matches(ctx, a.label)
        &&& a.group_label is None
        &&& (a.action is Some <==> ctx.should_resolve)
        &&& (a.action matches Some(act) ==> separate_action_matches(ctx, act))
    })
}

/// Regroups the digits of a decimal, hexadecimal or binary literal with
/// `_` separators at the kind's interval; octal literals are never
/// offered this assist.
#[verifier::rlimit(100)]
pub fn separate_number_literal(ctx: &AssistCtx) -> (r: Option<Assist>)
    requires
        ctx.wf(),
    ensures
        separate_number_literal_post(*ctx, r),
{
    let literal = match &ctx.literal {
        Some(l) => l,
        None => {
            return None;
        },
    };
    let number_literal = match identify_number_literal(literal) {
        Some(n) => n,
        None => {
            return None;
        },
    };
    let details = match get_separate_number_details(&number_literal) {
        Some(d) => d,
        None => {
            return None;
        },
    };

    let stripped = remove_separator_from_string(&number_literal.text);
    if stripped.len() <= details.every {
        return None;
    }

    proof {
        Seq::lemma_filter_len(number_literal.text@, |c: u8| !is_sep(c));
    }
    let grouped = separate_number(&number_literal.text, details.every);
    if bytes_eq(&grouped, &number_literal.text) {
        return None;
    }

    proof {
        reveal_strlit("Separate thousands");
        reveal_strlit("Separate 16-bit words");
        reveal_strlit("Separate bytes");
        assert(label_starts_uppercase(details.label@));
    }
    let label = AssistLabel::new(details.label, details.id);
    let action = if ctx.should_resolve {
        let new_literal = NumberLiteral {
            number_type: number_literal.number_type,
            suffix: number_literal.suffix,
            prefix: number_literal.prefix,
            text: grouped,
        };
        let new_text = new_literal.render();
        let mut builder = TextEditBuilder::new();
        builder.replace(literal.range, new_text);
        let edit = match builder.finish() {
            Some(e) => e,
            None => unreached(),
        };
        Some(AssistAction { edit, cursor_position: None, target: Some(literal.range) })
    } else {
        None
    };
    Some(Assist { label, group_label: None, action })
}

/// A literal whose digits are already exactly in grouped form is never
/// offered the grouping assist.
pub proof fn lemma_no_op_suppressed(ctx: AssistCtx, g: int)
    requires
        match ctx.literal {
            Some(tok) => match tok.kind {
                LiteralKind::IntNumber { suffix_len } => {
                    let digits = spec_digits(tok.text@, suffix_len as int);
                    &&& spec_every(spec_number_type(tok.text@, suffix_len as int)) == Some(g)
                    &&& spec_group(spec_strip(digits), g) == digits
                },
                _ => false,
            },
            None => false,
        },
    ensures
        !separate_applicable(ctx),
{
}

/// An octal literal is never offered the grouping assist, whatever its
/// digit count: octal has no defined grouping, by design.
pub proof fn lemma_octal_excluded(ctx: AssistCtx)
    requires
        match ctx.literal {
            Some(tok) => match tok.kind {
                LiteralKind::IntNumber { suffix_len } => spec_number_type(
                    tok.text@,
                    suffix_len as int,
                ) is PrefixOctal,
                _ => false,
            },
            None => false,
        },
    ensures
        !separate_applicable(ctx),
{
}

} // verus!
