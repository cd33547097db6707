//! The edit composer: positioned insert/replace operations over a byte
//! buffer, combined into one atomic edit, plus the translation of a
//! pre-edit offset into its post-edit location.
//!
//! Offsets are byte offsets into the original buffer; they stay in the
//! original coordinate space until the edit is applied. All offset
//! arithmetic the assists need lives here, behind one `apply_to_offset`
//! entry point.

use vstd::prelude::*;

verus! {

/// A half-open interval `[start, end)` of byte offsets.
#[derive(Debug, Clone, Copy, PartialEq, Eq, Structural)]
pub struct TextRange {
    pub start: usize,
    pub end: usize,
}

impl TextRange {
    /// A range is well-formed when it does not run backwards.
    pub open spec fn wf(self) -> bool {
        self.start <= self.end
    }

    pub open spec fn spec_len(self) -> int {
        self.end - self.start
    }

    pub fn new(start: usize, end: usize) -> (r: TextRange)
        requires
            start <= end,
        ensures
            r == (TextRange { start, end }),
    {
        TextRange { start, end }
    }

    pub fn len(&self) -> (r: usize)
        requires
            self.wf(),
        ensures
            r == self.spec_len(),
    {
        self.end - self.start
    }

    /// Whether `self` lies within `other` (boundaries included).
    pub fn is_subrange(&self, other: &TextRange) -> (r: bool)
        ensures
            r == (other.start <= self.start && self.end <= other.end),
    {
        other.start <= self.start && self.end <= other.end
    }
}

/// One positioned operation: replace the bytes of `delete` with `insert`.
/// An insertion is a replacement of an empty range.
#[derive(Debug, Clone)]
pub struct EditOp {
    pub delete: TextRange,
    pub insert: Vec<u8>,
}

/// Every operation's range is well-formed.
pub open spec fn ops_wf(ops: Seq<EditOp>) -> bool {
    forall|i: int| 0 <= i < ops.len() ==> (#[trigger] ops[i]).delete.wf()
}

/// Operations are ordered by start offset.
pub open spec fn ops_sorted(ops: Seq<EditOp>) -> bool {
    forall|i: int, j: int|
        0 <= i < j < ops.len() ==> (#[trigger] ops[i]).delete.start <= (#[trigger] ops[j]).delete.start
}

/// No two operations overlap: each ends before the next begins.
pub open spec fn ops_disjoint(ops: Seq<EditOp>) -> bool {
    forall|i: int|
        0 <= i < ops.len() - 1 ==> (#[trigger] ops[i]).delete.end <= ops[i + 1].delete.start
}

/// All operations fall inside a buffer of length `n`.
pub open spec fn ops_in_bounds(ops: Seq<EditOp>, n: int) -> bool {
    forall|i: int| 0 <= i < ops.len() ==> (#[trigger] ops[i]).delete.end <= n
}

/// Stable insertion into a sequence sorted by start offset: the new
/// operation goes after every operation that starts no later than it.
pub open spec fn sorted_insert(ops: Seq<EditOp>, op: EditOp) -> Seq<EditOp>
    decreases ops.len(),
{
    if ops.len() == 0 {
        seq![op]
    } else if ops.last().delete.start <= op.delete.start {
        ops.push(op)
    } else {
        sorted_insert(ops.drop_last(), op).push(ops.last())
    }
}

/// `sorted_insert` splices the new operation in at the position found by
/// scanning from the right: the first index below which no operation
/// starts later than the new one.
proof fn lemma_sorted_insert_at(ops: Seq<EditOp>, op: EditOp, j: int)
    requires
        0 <= j <= ops.len(),
        forall|k: int| j <= k < ops.len() ==> (#[trigger] ops[k]).delete.start > op.delete.start,
        j > 0 ==> ops[j - 1].delete.start <= op.delete.start,
    ensures
        sorted_insert(ops, op) == ops.subrange(0, j) + seq![op] + ops.subrange(
            j,
            ops.len() as int,
        ),
    decreases ops.len(),
{
    let n = ops.len() as int;
    if n == 0 {
        assert(sorted_insert(ops, op) =~= ops.subrange(0, j) + seq![op] + ops.subrange(j, n));
    } else if ops.last().delete.start <= op.delete.start {
        assert(j == n);
        assert(ops.push(op) =~= ops.subrange(0, j) + seq![op] + ops.subrange(j, n));
    } else {
        assert(j < n);
        lemma_sorted_insert_at(ops.drop_last(), op, j);
        assert(sorted_insert(ops, op) =~= ops.subrange(0, j) + seq![op] + ops.subrange(j, n));
    }
}

/// Accumulates positioned operations for one composed edit, keeping them
/// ordered by start offset whatever order they are added in.
pub struct TextEditBuilder {
    ops: Vec<EditOp>,
}

impl View for TextEditBuilder {
    type V = Seq<EditOp>;

    closed spec fn view(&self) -> Seq<EditOp> {
        self.ops@
    }
}

impl TextEditBuilder {
    pub open spec fn wf(self) -> bool {
        ops_wf(self@) && ops_sorted(self@)
    }

    pub fn new() -> (r: TextEditBuilder)
        ensures
            r.wf(),
            r@ == Seq::<EditOp>::empty(),
    {
        let r = TextEditBuilder { ops: Vec::new() };
        proof {
            assert(r@ =~= Seq::<EditOp>::empty());
        }
        r
    }

    /// Adds one operation, keeping the list ordered by start offset; an
    /// operation added later goes after the ones already there that start
    /// at the same offset.
    fn add(&mut self, op: EditOp)
        requires
            old(self).wf(),
            op.delete.wf(),
        ensures
            final(self).wf(),
            final(self)@ == sorted_insert(old(self)@, op),
    {
        let mut idx: usize = self.ops.len();
        while idx > 0 && self.ops[idx - 1].delete.start > op.delete.start
            invariant
                idx <= self.ops.len(),
                forall|k: int|
                    idx <= k < self.ops@.len() ==> (#[trigger] self.ops@[k]).delete.start
                        > op.delete.start,
                self == old(self),
            decreases idx,
        {
            idx = idx - 1;
        }
        proof {
            lemma_sorted_insert_at(self.ops@, op, idx as int);
        }
        let ghost prev = self.ops@;
        self.ops.insert(idx, op);
        proof {
            assert(self.ops@ =~= prev.subrange(0, idx as int) + seq![op] + prev.subrange(
                idx as int,
                prev.len() as int,
            ));
            assert forall|i: int, j: int| 0 <= i < j < self.ops@.len() implies (
            #[trigger] self.ops@[i]).delete.start <= (#[trigger] self.ops@[j]).delete.start by {
                if i < idx && j == idx {
                    assert(prev[idx - 1].delete.start <= op.delete.start);
                    if i < idx - 1 {
                        assert(prev[i].delete.start <= prev[idx - 1].delete.start);
                    }
                }
            }
        }
    }

    /// Records the insertion of `text` at `offset`.
    pub fn insert(&mut self, offset: usize, text: Vec<u8>)
        requires
            old(self).wf(),
        ensures
            final(self).wf(),
            final(self)@ == sorted_insert(
                old(self)@,
                (EditOp { delete: TextRange { start: offset, end: offset }, insert: text }),
            ),
    {
        self.add(EditOp { delete: TextRange { start: offset, end: offset }, insert: text });
    }

    /// Records the replacement of `range` by `text`.
    pub fn replace(&mut self, range: TextRange, text: Vec<u8>)
        requires
            old(self).wf(),
            range.wf(),
        ensures
            final(self).wf(),
            final(self)@ == sorted_insert(old(self)@, (EditOp { delete: range, insert: text })),
    {
        self.add(EditOp { delete: range, insert: text });
    }

    /// Composes the accumulated operations into one atomic edit. Two
    /// operations that overlap are a programming error in the caller, not
    /// user input: composition fails rather than corrupt text.
    pub fn finish(self) -> (r: Option<TextEdit>)
        requires
            self.wf(),
        ensures
            r is Some <==> ops_disjoint(self@),
            r is Some ==> r->Some_0@ == self@ && r->Some_0.wf(),
    {
        let n = self.ops.len();
        let mut i: usize = 1;
        while i < n
            invariant
                1 <= i,
                n == self.ops@.len(),
                forall|k: int|
                    0 <= k < i - 1 && k < n - 1 ==> (#[trigger] self.ops@[k]).delete.end
                        <= self.ops@[k + 1].delete.start,
            decreases n - i,
        {
            if self.ops[i - 1].delete.end > self.ops[i].delete.start {
                return None;
            }
            i = i + 1;
        }
        Some(TextEdit { ops: self.ops })
    }
}

/// An ordered, non-overlapping set of operations, applied together.
#[derive(Debug, Clone)]
pub struct TextEdit {
    ops: Vec<EditOp>,
}

impl View for TextEdit {
    type V = Seq<EditOp>;

    closed spec fn view(&self) -> Seq<EditOp> {
        self.ops@
    }
}

impl TextEdit {
    /// Well-formed edits hold ordered, non-overlapping, valid ranges.
    pub open spec fn wf(self) -> bool {
        ops_wf(self@) && ops_sorted(self@) && ops_disjoint(self@)
    }
}

/// Total length of the inserted texts of `ops`.
pub open spec fn inserted_len(ops: Seq<EditOp>) -> int
    decreases ops.len(),
{
    if ops.len() == 0 {
        0
    } else {
        ops[0].insert.len() + inserted_len(ops.drop_first())
    }
}

pub(crate) proof fn lemma_inserted_len_nonneg(ops: Seq<EditOp>)
    ensures
        inserted_len(ops) >= 0,
    decreases ops.len(),
{
    if ops.len() > 0 {
        lemma_inserted_len_nonneg(ops.drop_first());
    }
}

pub(crate) proof fn lemma_inserted_len_step(ops: Seq<EditOp>, k: int)
    requires
        0 <= k < ops.len(),
    ensures
        inserted_len(ops.skip(k)) == ops[k].insert.len() + inserted_len(ops.skip(k + 1)),
{
    assert(ops.skip(k).drop_first() =~= ops.skip(k + 1));
    assert(ops.skip(k)[0] == ops[k]);
}

/// Appending an operation adds exactly its text length to the total.
pub proof fn lemma_inserted_len_push(ops: Seq<EditOp>, op: EditOp)
    ensures
        inserted_len(ops.push(op)) == inserted_len(ops) + op.insert.len(),
    decreases ops.len(),
{
    if ops.len() == 0 {
        assert(ops.push(op).drop_first() =~= Seq::<EditOp>::empty());
        assert(inserted_len(ops) == 0);
        assert(inserted_len(Seq::<EditOp>::empty()) == 0);
        assert(ops.push(op)[0] == op);
        assert(inserted_len(ops.push(op)) == op.insert.len() + inserted_len(
            ops.push(op).drop_first(),
        ));
    } else {
        assert(ops.push(op).drop_first() =~= ops.drop_first().push(op));
        lemma_inserted_len_push(ops.drop_first(), op);
        assert(ops.push(op)[0] == ops[0]);
        assert(inserted_len(ops.push(op)) == ops[0].insert.len() + inserted_len(
            ops.drop_first().push(op),
        ));
        assert(inserted_len(ops) == ops[0].insert.len() + inserted_len(ops.drop_first()));
    }
}

/// Where an original offset `o` lands once the operations are applied,
/// with `delta` the shift contributed by operations already accounted
/// for. An offset strictly inside a replaced span has no exact image; it
/// maps to the start of the replacement.
pub open spec fn translate_rec(ops: Seq<EditOp>, o: int, delta: int) -> int
    decreases ops.len(),
{
    if ops.len() == 0 {
        o + delta
    } else {
        let a = ops[0];
        if a.delete.start >= o {
            o + delta
        } else if o < a.delete.end {
            a.delete.start + delta
        } else {
            translate_rec(ops.drop_first(), o, delta + a.insert.len() - a.delete.spec_len())
        }
    }
}

/// The post-edit location of pre-edit offset `o`.
pub open spec fn spec_translate(ops: Seq<EditOp>, o: int) -> int {
    translate_rec(ops, o, 0)
}

/// The buffer that results from applying `ops` to `text`, starting from
/// position `pos` of the original.
pub open spec fn apply_from(ops: Seq<EditOp>, text: Seq<u8>, pos: int) -> Seq<u8>
    decreases ops.len(),
{
    if ops.len() == 0 {
        text.subrange(pos, text.len() as int)
    } else {
        text.subrange(pos, ops[0].delete.start as int) + ops[0].insert@ + apply_from(
            ops.drop_first(),
            text,
            ops[0].delete.end as int,
        )
    }
}

/// The buffer that results from applying `ops` to `text`.
pub open spec fn spec_apply(ops: Seq<EditOp>, text: Seq<u8>) -> Seq<u8> {
    apply_from(ops, text, 0)
}

/// Whether two byte buffers hold the same bytes.
pub fn bytes_eq(a: &Vec<u8>, b: &Vec<u8>) -> (r: bool)
    ensures
        r == (a@ == b@),
{
    if a.len() != b.len() {
        return false;
    }
    let mut i: usize = 0;
    while i < a.len()
        invariant
            0 <= i <= a@.len(),
            a@.len() == b@.len(),
            forall|k: int| 0 <= k < i ==> a@[k] == b@[k],
        decreases a@.len() - i,
    {
        if a[i] != b[i] {
            return false;
        }
        i = i + 1;
    }
    proof {
        assert(a@ =~= b@);
    }
    true
}

/// Appends `src[from..to]` to `dst`.
pub(crate) fn push_range(dst: &mut Vec<u8>, src: &Vec<u8>, from: usize, to: usize)
    requires
        from <= to <= src@.len(),
    ensures
        final(dst)@ == old(dst)@ + src@.subrange(from as int, to as int),
{
    let mut k: usize = from;
    while k < to
        invariant
            from <= k <= to <= src@.len(),
            dst@ == old(dst)@ + src@.subrange(from as int, k as int),
        decreases to - k,
    {
        let b = src[k];
        dst.push(b);
        proof {
            assert(dst@ =~= old(dst)@ + src@.subrange(from as int, k as int + 1));
        }
        k = k + 1;
    }
}

impl TextEdit {
    /// Applies the composed operations to `text`, left to right, and
    /// returns the new buffer.
    pub fn apply(&self, text: &Vec<u8>) -> (r: Vec<u8>)
        requires
            self.wf(),
            ops_in_bounds(self@, text@.len() as int),
        ensures
            r@ == spec_apply(self@, text@),
    {
        let ghost ops = self@;
        let n = self.ops.len();
        let mut result: Vec<u8> = Vec::new();
        let mut pos: usize = 0;
        let mut i: usize = 0;
        proof {
            assert(result@ + apply_from(ops.skip(0), text@, 0) =~= spec_apply(ops, text@)) by {
                assert(ops.skip(0) =~= ops);
            }
        }
        while i < n
            invariant
                0 <= i <= n,
                n == ops.len(),
                ops == self@,
                self.wf(),
                ops_in_bounds(ops, text@.len() as int),
                pos <= text@.len(),
                i < n ==> pos <= ops[i as int].delete.start,
                result@ + apply_from(ops.skip(i as int), text@, pos as int) == spec_apply(
                    ops,
                    text@,
                ),
            decreases n - i,
        {
            let op_start = self.ops[i].delete.start;
            let op_end = self.ops[i].delete.end;
            push_range(&mut result, text, pos, op_start);
            let ghost mid = result@;
            push_range(&mut result, &self.ops[i].insert, 0, self.ops[i].insert.len());
            proof {
                assert(ops.skip(i as int)[0] == ops[i as int]);
                assert(ops.skip(i as int).drop_first() =~= ops.skip(i as int + 1));
                assert(ops[i as int].insert@.subrange(0, ops[i as int].insert.len() as int) =~= ops[
                    i as int
                ].insert@);
                if i + 1 < n {
                    assert(ops[i as int].delete.end <= ops[i as int + 1].delete.start);
                }
                assert(result@ + apply_from(ops.skip(i as int + 1), text@, op_end as int)
                    =~= spec_apply(ops, text@));
            }
            pos = op_end;
            i = i + 1;
        }
        push_range(&mut result, text, pos, text.len());
        proof {
            assert(ops.skip(n as int) =~= Seq::<EditOp>::empty());
            assert(result@ =~= spec_apply(ops, text@));
        }
        result
    }

    /// Translates a pre-edit offset into its post-edit location: identity
    /// before all operations, shifted by the accumulated length difference
    /// of the operations strictly before it, and the start of the
    /// replacement for an offset inside a replaced span.
    pub fn apply_to_offset(&self, offset: usize) -> (r: usize)
        requires
            self.wf(),
            offset + inserted_len(self@) <= usize::MAX,
        ensures
            r == spec_translate(self@, offset as int),
    {
        let ghost ops = self@;
        let n = self.ops.len();
        let mut ins: usize = 0;
        let mut del: usize = 0;
        let mut i: usize = 0;
        proof {
            assert(ops.skip(0) =~= ops);
        }
        while i < n
            invariant
                0 <= i <= n,
                n == ops.len(),
                ops == self@,
                self.wf(),
                offset + inserted_len(ops) <= usize::MAX,
                del <= offset,
                i < n ==> del <= ops[i as int].delete.start,
                ins + inserted_len(ops.skip(i as int)) == inserted_len(ops),
                translate_rec(ops.skip(i as int), offset as int, ins - del) == spec_translate(
                    ops,
                    offset as int,
                ),
            decreases n - i,
        {
            let op_start = self.ops[i].delete.start;
            let op_end = self.ops[i].delete.end;
            proof {
                assert(ops.skip(i as int)[0] == ops[i as int]);
                lemma_inserted_len_step(ops, i as int);
                lemma_inserted_len_nonneg(ops.skip(i as int + 1));
            }
            if op_start >= offset {
                return offset + ins - del;
            }
            if offset < op_end {
                return op_start + ins - del;
            }
            proof {
                assert(ops.skip(i as int).drop_first() =~= ops.skip(i as int + 1));
                if i + 1 < n {
                    assert(ops[i as int].delete.end <= ops[i as int + 1].delete.start);
                }
            }
            ins = ins + self.ops[i].insert.len();
            del = del + (op_end - op_start);
            i = i + 1;
        }
        offset + ins - del
    }
}

/// The translated offset never runs past the original position plus the
/// total length of the inserted texts.
pub proof fn lemma_translate_upper_bound(ops: Seq<EditOp>, o: int, delta: int)
    requires
        ops_wf(ops),
    ensures
        translate_rec(ops, o, delta) <= o + delta + inserted_len(ops),
    decreases ops.len(),
{
    lemma_inserted_len_nonneg(ops);
    if ops.len() > 0 {
        let a = ops[0];
        assert(a.delete.wf());
        lemma_inserted_len_nonneg(ops.drop_first());
        if a.delete.start < o && o >= a.delete.end {
            assert(ops_wf(ops.drop_first())) by {
                assert forall|i: int| 0 <= i < ops.drop_first().len() implies (#[trigger] ops.drop_first()[i]).delete.wf() by {
                    assert(ops.drop_first()[i] == ops[i + 1]);
                }
            }
            lemma_translate_upper_bound(
                ops.drop_first(),
                o,
                delta + a.insert.len() - a.delete.spec_len(),
            );
        }
    }
}

/// Total length of the replaced spans of `ops`.
pub open spec fn deleted_len(ops: Seq<EditOp>) -> int
    decreases ops.len(),
{
    if ops.len() == 0 {
        0
    } else {
        ops[0].delete.spec_len() + deleted_len(ops.drop_first())
    }
}

proof fn lemma_ops_preds_drop_first(ops: Seq<EditOp>, n: int)
    requires
        ops.len() > 0,
        ops_wf(ops),
        ops_sorted(ops),
        ops_disjoint(ops),
        ops_in_bounds(ops, n),
    ensures
        ops_wf(ops.drop_first()),
        ops_sorted(ops.drop_first()),
        ops_disjoint(ops.drop_first()),
        ops_in_bounds(ops.drop_first(), n),
{
    let rest = ops.drop_first();
    assert forall|i: int| 0 <= i < rest.len() implies (#[trigger] rest[i]).delete.wf()
        && rest[i].delete.end <= n by {
        assert(rest[i] == ops[i + 1]);
    }
    assert forall|i: int, j: int| 0 <= i < j < rest.len() implies (
    #[trigger] rest[i]).delete.start <= (#[trigger] rest[j]).delete.start by {
        assert(rest[i] == ops[i + 1]);
        assert(rest[j] == ops[j + 1]);
    }
    assert forall|i: int|
        0 <= i < rest.len() - 1 implies (#[trigger] rest[i]).delete.end <= rest[
        i + 1
    ].delete.start by {
        assert(rest[i] == ops[i + 1]);
        assert(rest[i + 1] == ops[i + 2]);
    }
}

/// Ordered, disjoint spans that fit in a buffer of length `n` delete at
/// most the text from the first span's start to the buffer's end.
proof fn lemma_deleted_len_bound(ops: Seq<EditOp>, n: int)
    requires
        ops_wf(ops),
        ops_sorted(ops),
        ops_disjoint(ops),
        ops_in_bounds(ops, n),
    ensures
        ops.len() == 0 ==> deleted_len(ops) == 0,
        ops.len() > 0 ==> deleted_len(ops) <= n - ops[0].delete.start,
    decreases ops.len(),
{
    if ops.len() > 0 {
        lemma_ops_preds_drop_first(ops, n);
        lemma_deleted_len_bound(ops.drop_first(), n);
        if ops.len() > 1 {
            assert(ops.drop_first()[0] == ops[1]);
            assert(ops[0].delete.end <= ops[1].delete.start);
        }
    }
}

/// The length of the edited buffer: the original length plus everything
/// inserted, minus everything replaced.
proof fn lemma_apply_from_len(ops: Seq<EditOp>, text: Seq<u8>, pos: int)
    requires
        ops_wf(ops),
        ops_sorted(ops),
        ops_disjoint(ops),
        ops_in_bounds(ops, text.len() as int),
        0 <= pos <= text.len(),
        ops.len() > 0 ==> pos <= ops[0].delete.start,
    ensures
        apply_from(ops, text, pos).len() == text.len() - pos + inserted_len(ops) - deleted_len(
            ops,
        ),
    decreases ops.len(),
{
    if ops.len() > 0 {
        let a = ops[0];
        lemma_ops_preds_drop_first(ops, text.len() as int);
        if ops.len() > 1 {
            assert(ops.drop_first()[0] == ops[1]);
            assert(a.delete.end <= ops[1].delete.start);
        }
        lemma_apply_from_len(ops.drop_first(), text, a.delete.end as int);
    }
}

pub proof fn lemma_apply_len(ops: Seq<EditOp>, text: Seq<u8>)
    requires
        ops_wf(ops),
        ops_sorted(ops),
        ops_disjoint(ops),
        ops_in_bounds(ops, text.len() as int),
    ensures
        spec_apply(ops, text).len() == text.len() + inserted_len(ops) - deleted_len(ops),
{
    lemma_apply_from_len(ops, text, 0);
}

proof fn lemma_translate_rec_bounds(ops: Seq<EditOp>, n: int, o: int, delta: int)
    requires
        ops_wf(ops),
        ops_sorted(ops),
        ops_disjoint(ops),
        ops_in_bounds(ops, n),
        0 <= o <= n,
        delta >= -o,
        ops.len() > 0 ==> delta >= -ops[0].delete.start,
    ensures
        0 <= translate_rec(ops, o, delta),
        translate_rec(ops, o, delta) <= n + delta + inserted_len(ops) - deleted_len(ops),
    decreases ops.len(),
{
    lemma_inserted_len_nonneg(ops);
    lemma_deleted_len_bound(ops, n);
    if ops.len() > 0 {
        let a = ops[0];
        if a.delete.start < o && o >= a.delete.end {
            lemma_ops_preds_drop_first(ops, n);
            if ops.len() > 1 {
                assert(ops.drop_first()[0] == ops[1]);
                assert(a.delete.end <= ops[1].delete.start);
            }
            lemma_translate_rec_bounds(
                ops.drop_first(),
                n,
                o,
                delta + a.insert.len() - a.delete.spec_len(),
            );
        }
    }
}

/// Operations that only insert delete nothing.
pub(crate) proof fn lemma_deleted_len_zero(ops: Seq<EditOp>)
    requires
        forall|i: int|
            0 <= i < ops.len() ==> (#[trigger] ops[i]).delete.start == ops[i].delete.end,
    ensures
        deleted_len(ops) == 0,
    decreases ops.len(),
{
    if ops.len() > 0 {
        let rest = ops.drop_first();
        assert forall|i: int|
            0 <= i < rest.len() implies (#[trigger] rest[i]).delete.start == rest[
            i
        ].delete.end by {
            assert(rest[i] == ops[i + 1]);
        }
        lemma_deleted_len_zero(rest);
    }
}

pub(crate) proof fn lemma_inserted_len_split(ops: Seq<EditOp>, j: int)
    requires
        0 <= j <= ops.len(),
    ensures
        inserted_len(ops) == inserted_len(ops.take(j)) + inserted_len(ops.skip(j)),
    decreases ops.len(),
{
    if j == 0 {
        assert(ops.take(0) =~= Seq::<EditOp>::empty());
        assert(inserted_len(Seq::<EditOp>::empty()) == 0);
        assert(ops.skip(0) =~= ops);
    } else {
        let rest = ops.drop_first();
        lemma_inserted_len_split(rest, j - 1);
        assert(ops.take(j).drop_first() =~= rest.take(j - 1));
        assert(ops.take(j)[0] == ops[0]);
        assert(ops.skip(j) =~= rest.skip(j - 1));
        assert(inserted_len(ops.take(j)) == ops[0].insert.len() + inserted_len(rest.take(j - 1)));
    }
}

/// Translation stops at the first operation at or past the offset: the
/// shift comes only from the operations strictly before it.
pub(crate) proof fn lemma_translate_stops(ops: Seq<EditOp>, o: int, delta: int, j: int)
    requires
        ops_wf(ops),
        ops_sorted(ops),
        0 <= j < ops.len(),
        ops[j].delete.start >= o,
    ensures
        translate_rec(ops, o, delta) <= o + delta + inserted_len(ops.take(j)),
    decreases ops.len(),
{
    lemma_inserted_len_nonneg(ops.take(j));
    let a = ops[0];
    assert(a.delete.wf());
    if a.delete.start < o && o >= a.delete.end {
        assert(j >= 1);
        let rest = ops.drop_first();
        assert forall|i: int| 0 <= i < rest.len() implies (#[trigger] rest[i]).delete.wf() by {
            assert(rest[i] == ops[i + 1]);
        }
        assert forall|i: int, k: int| 0 <= i < k < rest.len() implies (
        #[trigger] rest[i]).delete.start <= (#[trigger] rest[k]).delete.start by {
            assert(rest[i] == ops[i + 1]);
            assert(rest[k] == ops[k + 1]);
        }
        assert(rest[j - 1] == ops[j]);
        lemma_translate_stops(rest, o, delta + a.insert.len() - a.delete.spec_len(), j - 1);
        assert(ops.take(j).drop_first() =~= rest.take(j - 1));
        assert(ops.take(j)[0] == ops[0]);
        assert(inserted_len(ops.take(j)) == a.insert.len() + inserted_len(rest.take(j - 1)));
    }
}

/// A translated offset always lands inside the edited buffer: it is
/// never negative and never runs past the new end — a caret computed
/// through `apply_to_offset` is always a valid position in the text
/// `apply` returns.
pub proof fn lemma_translate_in_new_buffer(ops: Seq<EditOp>, text: Seq<u8>, o: int)
    requires
        ops_wf(ops),
        ops_sorted(ops),
        ops_disjoint(ops),
        ops_in_bounds(ops, text.len() as int),
        0 <= o <= text.len(),
    ensures
        0 <= spec_translate(ops, o) <= spec_apply(ops, text).len(),
{
    lemma_translate_rec_bounds(ops, text.len() as int, o, 0);
    lemma_apply_len(ops, text);
}

/// Translating through two insertions: an offset before the first
/// insertion point is unmoved, and the second insertion point is shifted
/// by exactly the length of the text inserted at the first.
pub proof fn lemma_translate_two_insertions(ops: Seq<EditOp>, x: int)
    requires
        ops.len() == 2,
        ops[0].delete.start == ops[0].delete.end,
        ops[1].delete.start == ops[1].delete.end,
        ops[0].delete.start < ops[1].delete.start,
    ensures
        spec_translate(ops, ops[1].delete.start as int) == ops[1].delete.start
            + ops[0].insert.len(),
        x < ops[0].delete.start ==> spec_translate(ops, x) == x,
{
    let rest = ops.drop_first();
    assert(rest[0] == ops[1]);
    assert(translate_rec(rest, ops[1].delete.start as int, ops[0].insert.len() as int) == ops[
        1
    ].delete.start + ops[0].insert.len());
}

} // verus!
