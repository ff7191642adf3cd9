//! Formatting spans, tracked while text is being produced.
use vstd::prelude::*;

verus! {

/// The character formatting in force.
#[derive(Clone, Copy, Debug, PartialEq, Eq, Structural)]
pub struct FmtState {
    /// Bold.
    pub bold: bool,
    /// Italic.
    pub italic: bool,
    /// Underlined.
    pub underline: bool,
    /// Struck through.
    pub strikethrough: bool,
    /// Index into the colour table; zero is the automatic colour.
    pub color_idx: u16,
}

/// No formatting at all.
pub open spec fn plain() -> FmtState {
    FmtState { bold: false, italic: false, underline: false, strikethrough: false, color_idx: 0 }
}

impl Default for FmtState {
    fn default() -> (r: Self)
        ensures
            r == plain(),
    {
        FmtState { bold: false, italic: false, underline: false, strikethrough: false, color_idx: 0 }
    }
}

/// A byte range of the produced text and its formatting.
#[derive(Clone, Copy, Debug, PartialEq, Eq, Structural)]
pub struct RtfFormattingSpan {
    /// First byte.
    pub start: usize,
    /// Byte after the last one.
    pub end: usize,
    /// Bold.
    pub bold: bool,
    /// Italic.
    pub italic: bool,
    /// Underlined.
    pub underline: bool,
    /// Struck through.
    pub strikethrough: bool,
    /// Index into the colour table; zero is the automatic colour.
    pub color_index: u16,
}

/// The span of a range under the given formatting.
pub open spec fn span_of(start: usize, end: usize, fmt: FmtState) -> RtfFormattingSpan {
    RtfFormattingSpan {
        start,
        end,
        bold: fmt.bold,
        italic: fmt.italic,
        underline: fmt.underline,
        strikethrough: fmt.strikethrough,
        color_index: fmt.color_idx,
    }
}

/// What a tracker holds.
#[verifier::ext_equal]
pub struct SpanTrack {
    /// The formatting in force.
    pub fmt: FmtState,
    /// The formatting of the enclosing groups, outermost first.
    pub stack: Seq<FmtState>,
    /// Where the open span starts.
    pub span_start: usize,
    /// The closed spans.
    pub spans: Seq<RtfFormattingSpan>,
}

/// A tracker before any text.
pub open spec fn untracked() -> SpanTrack {
    SpanTrack { fmt: plain(), stack: Seq::empty(), span_start: 0, spans: Seq::empty() }
}

impl SpanTrack {
    /// The open span closed at an offset; an empty one leaves no trace.
    pub open spec fn closed(self, offset: usize) -> SpanTrack {
        SpanTrack {
            span_start: offset,
            spans: if offset > self.span_start {
                self.spans.push(span_of(self.span_start, offset, self.fmt))
            } else {
                self.spans
            },
            ..self
        }
    }

    /// A change of formatting at an offset; the same formatting changes nothing.
    pub open spec fn changed(self, offset: usize, fmt: FmtState) -> SpanTrack {
        if fmt == self.fmt {
            self
        } else {
            SpanTrack { fmt, ..self.closed(offset) }
        }
    }

    /// A group opened.
    pub open spec fn pushed(self) -> SpanTrack {
        SpanTrack { stack: self.stack.push(self.fmt), ..self }
    }

    /// A group closed at an offset: the formatting before it is back. An unbalanced close changes
    /// nothing.
    pub open spec fn popped(self, offset: usize) -> SpanTrack {
        if self.stack.len() == 0 {
            self
        } else {
            SpanTrack { stack: self.stack.drop_last(), ..self }.changed(offset, self.stack.last())
        }
    }

    /// The end of the text at an offset: an open span is kept if it is formatted at all.
    pub open spec fn finalized(self, offset: usize) -> Seq<RtfFormattingSpan> {
        if offset > self.span_start && self.fmt != plain() {
            self.spans.push(span_of(self.span_start, offset, self.fmt))
        } else {
            self.spans
        }
    }

    /// The closed spans are non-empty, in order, without a gap from the start of the text on, and end where the open
    /// span starts, which is not past the given offset.
    pub open spec fn ordered(self, offset: usize) -> bool {
        &&& self.span_start <= offset
        &&& tiles(self.spans, self.span_start)
        &&& spans_ordered(self.spans)
        &&& forall|i: int| 0 <= i < self.spans.len() ==> (#[trigger] self.spans[i]).end <= self.span_start
    }
}

/// Non-empty spans that follow each other without a gap from the start of the text to an offset.
pub open spec fn tiles(spans: Seq<RtfFormattingSpan>, end: usize) -> bool {
    &&& end == reached(spans)
    &&& spans.len() > 0 ==> spans[0].start == 0
    &&& forall|i: int| 0 <= i < spans.len() ==> (#[trigger] spans[i]).start < spans[i].end
    &&& forall|i: int, j: int|
        0 <= i && j == i + 1 && j < spans.len() ==> (#[trigger] spans[i]).end == (#[trigger] spans[j]).start
}

/// Where the last span ends.
pub open spec fn reached(spans: Seq<RtfFormattingSpan>) -> usize {
    if spans.len() == 0 {
        0
    } else {
        spans.last().end
    }
}

/// Non-empty spans, in order and apart.
pub open spec fn spans_ordered(spans: Seq<RtfFormattingSpan>) -> bool {
    &&& forall|i: int| 0 <= i < spans.len() ==> (#[trigger] spans[i]).start < spans[i].end
    &&& forall|i: int, j: int| 0 <= i < j < spans.len() ==> (#[trigger] spans[i]).end <= (#[trigger] spans[j]).start
}

/// Tracks formatting spans while text is being produced. Offsets are bytes of that text.
#[derive(Clone, Debug)]
pub struct FormattingTracker {
    /// The formatting in force.
    pub fmt: FmtState,
    /// The formatting of the enclosing groups.
    pub fmt_stack: Vec<FmtState>,
    /// Where the open span starts.
    pub span_start: usize,
    /// The closed spans.
    pub spans: Vec<RtfFormattingSpan>,
}

impl View for FormattingTracker {
    type V = SpanTrack;

    open spec fn view(&self) -> SpanTrack {
        SpanTrack { fmt: self.fmt, stack: self.fmt_stack@, span_start: self.span_start, spans: self.spans@ }
    }
}

impl FormattingTracker {
    /// A tracker before any text.
    pub fn new() -> (r: Self)
        ensures
            r@ == untracked(),
    {
        FormattingTracker { fmt: FmtState::default(), fmt_stack: Vec::new(), span_start: 0, spans: Vec::new() }
    }

    /// Opens a group.
    pub fn push(&mut self)
        ensures
            final(self)@ == old(self)@.pushed(),
    {
        self.fmt_stack.push(self.fmt);
    }

    /// Closes a group.
    pub fn pop(&mut self, text_offset: usize)
        ensures
            final(self)@ == old(self)@.popped(text_offset),
    {
        if let Some(parent) = self.fmt_stack.pop() {
            self.change(text_offset, parent);
        }
        proof {
            assert(final(self)@ =~= old(self)@.popped(text_offset));
        }
    }

    /// Puts other formatting in force.
    fn change(&mut self, text_offset: usize, fmt: FmtState)
        ensures
            final(self)@ == old(self)@.changed(text_offset, fmt),
    {
        if fmt != self.fmt {
            self.close_span(text_offset);
            self.fmt = fmt;
        }
    }

    /// Turns bold on or off.
    pub fn update_bold(&mut self, text_offset: usize, val: bool)
        ensures
            final(self)@ == old(self)@.changed(text_offset, FmtState { bold: val, ..old(self)@.fmt }),
    {
        let mut fmt = self.fmt;
        fmt.bold = val;
        self.change(text_offset, fmt);
    }

    /// Turns italic on or off.
    pub fn update_italic(&mut self, text_offset: usize, val: bool)
        ensures
            final(self)@ == old(self)@.changed(text_offset, FmtState { italic: val, ..old(self)@.fmt }),
    {
        let mut fmt = self.fmt;
        fmt.italic = val;
        self.change(text_offset, fmt);
    }

    /// Turns underlining on or off.
    pub fn update_underline(&mut self, text_offset: usize, val: bool)
        ensures
            final(self)@ == old(self)@.changed(text_offset, FmtState { underline: val, ..old(self)@.fmt }),
    {
        let mut fmt = self.fmt;
        fmt.underline = val;
        self.change(text_offset, fmt);
    }

    /// Turns striking through on or off.
    pub fn update_strikethrough(&mut self, text_offset: usize, val: bool)
        ensures
            final(self)@ == old(self)@.changed(text_offset, FmtState { strikethrough: val, ..old(self)@.fmt }),
    {
        let mut fmt = self.fmt;
        fmt.strikethrough = val;
        self.change(text_offset, fmt);
    }

    /// Selects a colour.
    pub fn update_color(&mut self, text_offset: usize, val: u16)
        ensures
            final(self)@ == old(self)@.changed(text_offset, FmtState { color_idx: val, ..old(self)@.fmt }),
    {
        let mut fmt = self.fmt;
        fmt.color_idx = val;
        self.change(text_offset, fmt);
    }

    /// Drops all formatting.
    pub fn reset_all(&mut self, text_offset: usize)
        ensures
            final(self)@ == old(self)@.changed(text_offset, plain()),
    {
        self.change(text_offset, FmtState::default());
    }

    /// Closes the open span.
    pub fn close_span(&mut self, text_offset: usize)
        ensures
            final(self)@ == old(self)@.closed(text_offset),
    {
        if text_offset > self.span_start {
            self.push_span(text_offset);
        }
        self.span_start = text_offset;
    }

    fn push_span(&mut self, text_offset: usize)
        ensures
            final(self)@ == (SpanTrack {
                spans: old(self)@.spans.push(span_of(old(self)@.span_start, text_offset, old(self)@.fmt)),
                ..old(self)@
            }),
    {
        let fmt = self.fmt;
        self.spans.push(
            RtfFormattingSpan {
                start: self.span_start,
                end: text_offset,
                bold: fmt.bold,
                italic: fmt.italic,
                underline: fmt.underline,
                strikethrough: fmt.strikethrough,
                color_index: fmt.color_idx,
            },
        );
    }

    /// Closes the last span at the end of the text.
    pub fn finalize(&mut self, text_offset: usize)
        ensures
            final(self)@ == (SpanTrack { spans: old(self)@.finalized(text_offset), ..old(self)@ }),
    {
        let fmt = self.fmt;
        if text_offset > self.span_start && (fmt.bold || fmt.italic || fmt.underline || fmt.strikethrough
            || fmt.color_idx != 0) {
            self.push_span(text_offset);
        }
    }

    /// Moves every span to the offsets that a normalisation of the text gave its ends; spans that
    /// become empty are dropped.
    pub fn remap_spans(&mut self, mapping: &[(usize, usize)])
        ensures
            final(self)@ == (SpanTrack { spans: remapped(old(self)@.spans, mapping@), ..old(self)@ }),
    {
        let ghost before = self@;
        let mut kept: Vec<RtfFormattingSpan> = Vec::new();
        let mut i: usize = 0;
        proof {
            reveal_with_fuel(remapped, 1);
        }
        while i < self.spans.len()
            invariant
                i <= self.spans.len(),
                self@ == before,
                kept@ == remapped(before.spans.take(i as int), mapping@),
            decreases self.spans.len() - i,
        {
            let span = self.spans[i];
            let moved = RtfFormattingSpan {
                start: map_offset(mapping, span.start),
                end: map_offset(mapping, span.end),
                ..span
            };
            proof {
                assert(before.spans.take(i + 1).drop_last() =~= before.spans.take(i as int));
            }
            if moved.start < moved.end {
                kept.push(moved);
            }
            i = i + 1;
        }
        proof {
            assert(before.spans.take(before.spans.len() as int) =~= before.spans);
        }
        self.spans = kept;
    }
}

/// Where a normalisation put an offset: the new offset of the last mapped position that is not
/// past it.
pub open spec fn mapped_offset(mapping: Seq<(usize, usize)>, offset: usize) -> usize
    decreases mapping.len(),
{
    if mapping.len() == 0 {
        0
    } else if mapping.last().0 <= offset {
        mapping.last().1
    } else {
        mapped_offset(mapping.drop_last(), offset)
    }
}

/// Where a normalisation put an offset.
pub fn map_offset(mapping: &[(usize, usize)], offset: usize) -> (r: usize)
    ensures
        r == mapped_offset(mapping@, offset),
{
    let mut n: usize = mapping.len();
    proof {
        assert(mapping@.take(n as int) =~= mapping@);
    }
    while n > 0
        invariant
            n <= mapping.len(),
            mapped_offset(mapping@.take(n as int), offset) == mapped_offset(mapping@, offset),
        decreases n,
    {
        proof {
            assert(mapping@.take(n as int).drop_last() =~= mapping@.take(n - 1));
        }
        if mapping[n - 1].0 <= offset {
            return mapping[n - 1].1;
        }
        n = n - 1;
    }
    0
}

/// Spans moved by a normalisation, without those that become empty.
pub open spec fn remapped(spans: Seq<RtfFormattingSpan>, mapping: Seq<(usize, usize)>) -> Seq<RtfFormattingSpan>
    decreases spans.len(),
{
    if spans.len() == 0 {
        Seq::empty()
    } else {
        let before = remapped(spans.drop_last(), mapping);
        let span = spans.last();
        let moved = RtfFormattingSpan {
            start: mapped_offset(mapping, span.start),
            end: mapped_offset(mapping, span.end),
            ..span
        };
        if moved.start < moved.end {
            before.push(moved)
        } else {
            before
        }
    }
}

/// Something that happens while text is being produced.
pub enum Act {
    /// Formatting is put in force at an offset.
    Change(usize, FmtState),
    /// A group is opened.
    Open,
    /// A group is closed at an offset.
    Close(usize),
}

/// How many more groups some acts open than they close.
pub open spec fn groups_open(acts: Seq<Act>) -> int
    decreases acts.len(),
{
    if acts.len() == 0 {
        0
    } else {
        groups_open(acts.drop_last()) + match acts.last() {
            Act::Change(_, _) => 0int,
            Act::Open => 1,
            Act::Close(_) => -1,
        }
    }
}

/// Whether acts never close a group that they have not opened.
pub open spec fn closes_own_groups(acts: Seq<Act>) -> bool
    decreases acts.len(),
{
    acts.len() == 0 || (closes_own_groups(acts.drop_last()) && groups_open(acts) >= 0)
}

impl SpanTrack {
    /// After some acts.
    pub open spec fn after_all(self, acts: Seq<Act>) -> SpanTrack
        decreases acts.len(),
    {
        if acts.len() == 0 {
            self
        } else {
            let before = self.after_all(acts.drop_last());
            match acts.last() {
                Act::Change(offset, fmt) => before.changed(offset, fmt),
                Act::Open => before.pushed(),
                Act::Close(offset) => before.popped(offset),
            }
        }
    }
}

#[verifier::spinoff_prover]
proof fn lemma_enclosing_formatting_stays(t: SpanTrack, acts: Seq<Act>)
    requires
        closes_own_groups(acts),
    ensures
        groups_open(acts) >= 0,
        t.after_all(acts).stack.len() == t.stack.len() + groups_open(acts),
        t.after_all(acts).stack.take(t.stack.len() as int) == t.stack,
    decreases acts.len(),
{
    if acts.len() == 0 {
        assert(t.stack.take(t.stack.len() as int) =~= t.stack);
    } else {
        lemma_enclosing_formatting_stays(t, acts.drop_last());
        let before = t.after_all(acts.drop_last());
        let after = t.after_all(acts);
        let n = t.stack.len() as int;
        match acts.last() {
            Act::Change(offset, fmt) => {
                assert(after == before.changed(offset, fmt));
                assert(after.stack == before.stack);
            },
            Act::Open => {
                assert(after.stack == before.stack.push(before.fmt));
                assert(after.stack.take(n) =~= before.stack.take(n));
            },
            Act::Close(offset) => {
                assert(before.stack.len() > n);
                assert(after == before.popped(offset));
                assert(after.stack == before.stack.drop_last());
                assert(after.stack.take(n) =~= before.stack.take(n));
            },
        }
    }
}

proof fn lemma_earlier_spans_stay(t: SpanTrack, acts: Seq<Act>)
    ensures
        t.spans.is_prefix_of(t.after_all(acts).spans),
    decreases acts.len(),
{
    if acts.len() == 0 {
        assert(t.spans =~= t.spans.subrange(0, t.spans.len() as int));
    } else {
        lemma_earlier_spans_stay(t, acts.drop_last());
        let before = t.after_all(acts.drop_last());
        let after = t.after_all(acts);
        assert(after.spans == before.spans || (after.spans.len() == before.spans.len() + 1 && after.spans.drop_last()
            =~= before.spans));
        assert(after.spans.subrange(0, t.spans.len() as int) =~= before.spans.subrange(0, t.spans.len() as int));
    }
}

/// Opening a group and closing it again puts the formatting before the group back in force, however often the
/// formatting was changed in between and whatever groups were opened and closed. The spans before it stay.
pub proof fn law_group_restores_formatting(t: SpanTrack, acts: Seq<Act>, closed_at: usize)
    requires
        closes_own_groups(acts),
        groups_open(acts) == 0,
    ensures
        t.pushed().after_all(acts).popped(closed_at).fmt == t.fmt,
        t.pushed().after_all(acts).popped(closed_at).stack == t.stack,
        t.spans.is_prefix_of(t.pushed().after_all(acts).popped(closed_at).spans),
{
    lemma_enclosing_formatting_stays(t.pushed(), acts);
    let stack = t.pushed().after_all(acts).stack;
    assert(stack =~= t.pushed().stack);
    assert(stack.drop_last() =~= t.stack);
    let all = acts.push(Act::Close(closed_at));
    lemma_earlier_spans_stay(t.pushed(), all);
    assert(all.drop_last() =~= acts);
}

/// Tracking keeps the spans non-empty, in order and without a gap, as long as the text only grows.
pub proof fn law_tracking_keeps_spans_ordered(t: SpanTrack, offset: usize, later: usize, fmt: FmtState)
    requires
        t.ordered(offset),
        offset <= later,
    ensures
        t.pushed().ordered(later),
        t.changed(later, fmt).ordered(later),
        t.popped(later).ordered(later),
        spans_ordered(t.finalized(later)),
        tiles(t.finalized(later), reached(t.finalized(later))),
{
    let closed = t.closed(later);
    assert(closed.ordered(later));
    if t.stack.len() > 0 {
        let inner = SpanTrack { stack: t.stack.drop_last(), ..t };
        assert(inner.closed(later).ordered(later));
    }
}

/// Every span that a normalisation leaves is non-empty.
pub proof fn law_remapped_spans_are_nonempty(spans: Seq<RtfFormattingSpan>, mapping: Seq<(usize, usize)>)
    ensures
        forall|i: int|
            0 <= i < remapped(spans, mapping).len() ==> (#[trigger] remapped(spans, mapping)[i]).start < remapped(
                spans,
                mapping,
            )[i].end,
    decreases spans.len(),
{
    if spans.len() > 0 {
        law_remapped_spans_are_nonempty(spans.drop_last(), mapping);
        let before = remapped(spans.drop_last(), mapping);
        let all = remapped(spans, mapping);
        assert forall|i: int| 0 <= i < all.len() implies (#[trigger] all[i]).start < all[i].end by {
            if i < before.len() {
                assert(all[i] == before[i]);
            }
        }
    }
}

} // verus!
