//! Laws of notebooks kept as text.
use crate::laws::myst::{
    are_options, lemma_closing_line, lemma_line_feed, lemma_options, lemma_with_joined, options_on,
};
use crate::laws::text::{fed, is_line, law_lines_are_read_back};
use crate::myst;
use crate::myst::{Cell, Pending, Reading, Render};
use crate::text;
use vstd::prelude::*;

verus! {

/// Whether a cell holds the code of lines in a language.
pub open spec fn is_code_of(cell: Cell, lines: Seq<Seq<char>>, language: Seq<char>) -> bool {
    &&& cell.cell_type is Code
    &&& cell.source == text::join(lines, seq!['\n'])
    &&& language.len() > 0 ==> cell.language == Some(language)
    &&& language.len() == 0 ==> cell.language is None
}

/// The cells that text becomes: one, unless it holds nothing but white space.
pub open spec fn is_text_of(found: Seq<Cell>, lines: Seq<Seq<char>>) -> bool {
    let source = text::join(lines, seq!['\n']);
    if text::trimmed(source).len() == 0 {
        found.len() == 0
    } else {
        &&& found.len() == 1
        &&& found[0].cell_type is Markdown
        &&& found[0].source == source
        &&& found[0].language is None
        &&& found[0].tags.len() == 0
    }
}

proof fn lemma_text_cell(reading: Reading, lines: Seq<Seq<char>>)
    requires
        reading.render.text.len() == 0,
        !reading.with_markdown(lines).render.failed(),
    ensures
        !reading.render.failed(),
        reading.with_markdown(lines).render.text.len() == 0,
        reading.cells.len() <= reading.with_markdown(lines).cells.len(),
        reading.with_markdown(lines).cells.take(reading.cells.len() as int) == reading.cells,
        is_text_of(reading.with_markdown(lines).cells.skip(reading.cells.len() as int), lines),
{
    let joined = reading.render.with_joined(lines);
    assert(!joined.failed());
    lemma_with_joined(reading.render, lines);
    assert(joined.text =~= text::join(lines, seq!['\n']));
    let after = reading.with_markdown(lines).cells;
    assert(after.take(reading.cells.len() as int) =~= reading.cells);
}

/// A code cell holds every line of its code after its options, in order, with line feeds between them, and its
/// language, if it names one.
#[verifier::spinoff_prover]
#[verifier::rlimit(60)]
pub proof fn law_code_cell_keeps_every_line(
    reading: Reading,
    lines: Seq<Seq<char>>,
    start: int,
    end: int,
    body_start: int,
    language: Seq<char>,
)
    requires
        reading.render.text.len() == 0,
        are_options(lines, start, end, body_start),
        !myst::code_cell_read(reading, lines, start, end, language).render.failed(),
    ensures
        !reading.render.failed(),
        myst::code_cell_read(reading, lines, start, end, language).render.text.len() == 0,
        myst::code_cell_read(reading, lines, start, end, language).cells.len() == reading.cells.len() + 1,
        myst::code_cell_read(reading, lines, start, end, language).cells.drop_last() == reading.cells,
        is_code_of(
            myst::code_cell_read(reading, lines, start, end, language).cells.last(),
            lines.subrange(body_start, end),
            language,
        ),
        myst::option_of(options_on(lines.subrange(start, body_start)), "tags"@) is None ==> myst::code_cell_read(
            reading,
            lines,
            start,
            end,
            language,
        ).cells.last().tags.len() == 0,
{
    let r = reading.render;
    let (ledger, options, at) = myst::directive_options(r.ledger, lines, start, end, Seq::empty());
    lemma_options(r.ledger, lines, start, end, body_start, Seq::empty());
    let wanted = options_on(lines.subrange(start, body_start));
    assert(Seq::empty() + wanted =~= wanted);
    let (tagged, tags) = match myst::option_of(options, "tags"@) {
        Some(value) => myst::tags_of(r.paid(ledger), value),
        None => (r.paid(ledger), Seq::empty()),
    };
    let after = myst::code_cell_read(reading, lines, start, end, language);
    if r.failed() || ledger.verdict is Err {
        assert(false);
    }
    let body = lines.subrange(at, end);
    let joined = tagged.with_joined(body);
    assert(!joined.failed());
    lemma_with_joined(tagged, body);
    if let Some(value) = myst::option_of(options, "tags"@) {
        lemma_tags_leave_no_text(r.paid(ledger), text::split_on(myst::unbracketed(value), ','));
    }
    assert(joined.text =~= text::join(body, seq!['\n']));
    assert(after.cells.drop_last() =~= reading.cells);
}

proof fn lemma_tags_leave_no_text(r: Render, pieces: Seq<Seq<char>>)
    requires
        r.text.len() == 0,
    ensures
        myst::tags_read(r, pieces).0.text.len() == 0,
    decreases pieces.len(),
{
    if pieces.len() > 0 {
        lemma_tags_leave_no_text(r, pieces.drop_last());
    }
}

/// Whether a line opens a code cell in a language.
pub open spec fn opens_code(line: Seq<char>, language: Seq<char>) -> bool {
    myst::fenced_directive(text::trimmed(line)) == Some(("code-cell"@, language))
}

/// Whether a line opens no code cell.
pub open spec fn opens_no_code(line: Seq<char>) -> bool {
    myst::fenced_directive(text::trimmed(line)) is None || (myst::fenced_directive(text::trimmed(line))->0).0
        != "code-cell"@
}

/// Lines without a code cell, up to a line that opens one.
#[verifier::spinoff_prover]
#[verifier::rlimit(100)]
proof fn lemma_text_up_to_code(reading: Reading, lines: Seq<Seq<char>>, start: int, i: int, at: int)
    requires
        0 <= start <= i <= at < lines.len(),
        forall|k: int| i <= k < at ==> opens_no_code(#[trigger] lines[k]),
        reading.render.text.len() == 0,
        !myst::myst_cells(reading, lines, start, i).render.failed(),
    ensures
        exists|later: Reading|
            #[trigger] myst::myst_cells(later, lines, start, at) == myst::myst_cells(reading, lines, start, i)
                && later.cells == reading.cells && later.render.text.len() == 0,
    decreases at - i,
{
    if i == at {
        assert(myst::myst_cells(reading, lines, start, at) == myst::myst_cells(reading, lines, start, i));
    } else {
        assert(opens_no_code(lines[i]));
        let stepped = Reading { render: reading.render.stepped(), ..reading };
        assert(!stepped.render.failed());
        assert(myst::myst_cells(reading, lines, start, i) == myst::myst_cells(stepped, lines, start, i + 1));
        lemma_text_up_to_code(stepped, lines, start, i + 1, at);
        let later = choose|later: Reading|
            #[trigger] myst::myst_cells(later, lines, start, at) == myst::myst_cells(stepped, lines, start, i + 1)
                && later.cells == stepped.cells && later.render.text.len() == 0;
        assert(myst::myst_cells(later, lines, start, at) == myst::myst_cells(reading, lines, start, i));
    }
}

/// Lines without a code cell, up to the last.
#[verifier::spinoff_prover]
#[verifier::rlimit(100)]
proof fn lemma_text_up_to_end(reading: Reading, lines: Seq<Seq<char>>, start: int, i: int)
    requires
        0 <= start <= i <= lines.len(),
        forall|k: int| i <= k < lines.len() ==> opens_no_code(#[trigger] lines[k]),
        reading.render.text.len() == 0,
        !myst::myst_cells(reading, lines, start, i).render.failed(),
    ensures
        ({
            let found = myst::myst_cells(reading, lines, start, i).cells;
            &&& reading.cells.len() <= found.len()
            &&& found.take(reading.cells.len() as int) == reading.cells
            &&& is_text_of(found.skip(reading.cells.len() as int), lines.skip(start))
        }),
    decreases lines.len() - i,
{
    if i == lines.len() {
        if start < lines.len() {
            lemma_text_cell(reading, lines.skip(start));
        } else {
            assert(reading.cells.take(reading.cells.len() as int) =~= reading.cells);
            assert(reading.cells.skip(reading.cells.len() as int) =~= Seq::empty());
            assert(lines.skip(start) =~= Seq::empty());
            assert(text::join(lines.skip(start), seq!['\n']) =~= Seq::empty());
            crate::laws::text::law_trimmed_text_stays(Seq::empty());
        }
    } else {
        assert(opens_no_code(lines[i]));
        let stepped = Reading { render: reading.render.stepped(), ..reading };
        assert(!stepped.render.failed());
        lemma_text_up_to_end(stepped, lines, start, i + 1);
    }
}

/// The text after the last code cell of a notebook becomes a cell of its own, unless it is blank.
pub proof fn law_last_text_becomes_a_cell(reading: Reading, lines: Seq<Seq<char>>, i: int)
    requires
        0 <= i <= lines.len(),
        forall|k: int| i <= k < lines.len() ==> opens_no_code(#[trigger] lines[k]),
        reading.render.text.len() == 0,
        !myst::myst_cells(reading, lines, i, i).render.failed(),
    ensures
        ({
            let found = myst::myst_cells(reading, lines, i, i).cells;
            &&& reading.cells.len() <= found.len()
            &&& found.take(reading.cells.len() as int) == reading.cells
            &&& is_text_of(found.skip(reading.cells.len() as int), lines.skip(i))
        }),
{
    lemma_text_up_to_end(reading, lines, i, i);
}

#[verifier::spinoff_prover]
#[verifier::rlimit(100)]
proof fn lemma_code_after_text(
    reading: Reading,
    lines: Seq<Seq<char>>,
    start: int,
    at: int,
    end: int,
    body_start: int,
    language: Seq<char>,
)
    requires
        0 <= start <= at < lines.len(),
        opens_code(lines[at], language),
        are_options(lines, at + 1, end, body_start),
        forall|k: int| at < k < end ==> text::trimmed(#[trigger] lines[k]) != "```"@,
        end < lines.len() ==> text::trimmed(lines[end]) == "```"@,
        reading.render.text.len() == 0,
        !myst::myst_cells(reading, lines, start, at).render.failed(),
    ensures
        exists|later: Reading|
            #[trigger] myst::myst_cells(
                later,
                lines,
                myst::after_line(lines, end),
                myst::after_line(lines, end),
            ) == myst::myst_cells(reading, lines, start, at) && follows(
                reading.cells,
                later.cells,
                lines.subrange(start, at),
                lines.subrange(body_start, end),
                language,
            ) && later.render.text.len() == 0,
{
    let stepped = Reading { render: reading.render.stepped(), ..reading };
    assert(!stepped.render.failed());
    let own = lines.subrange(start, at);
    let before = stepped.with_markdown(own);
    let (searched, found_end) = myst::closing_line(before.render.ledger, lines, at + 1, "```"@);
    let next = myst::after_line(lines, found_end);
    let paid = Reading { render: before.render.paid(searched), ..before };
    let later = myst::code_cell_read(paid, lines, at + 1, found_end, language);
    assert(!before.render.failed());
    myst::lemma_ends_are_within(before.render.ledger, lines, at + 1, 0, 1, "```"@);
    assert(myst::myst_cells(reading, lines, start, at) == myst::myst_cells(later, lines, next, next));
    if later.render.failed() {
        assert(myst::myst_cells(later, lines, next, next).render.failed()) by {
            lemma_cells_stay_failed(later, lines, next);
        }
    }
    lemma_text_cell(stepped, own);
    if searched.verdict is Err {
        assert(later.render.failed());
    }
    lemma_closing_line(before.render.ledger, lines, at + 1, end, "```"@);
    law_code_cell_keeps_every_line(paid, lines, at + 1, end, body_start, language);
    let n = reading.cells.len() as int;
    assert(later.cells.drop_last() == before.cells);
    assert(later.cells.take(n) =~= before.cells.take(n));
    assert(later.cells.subrange(n, later.cells.len() - 1) =~= before.cells.skip(n));
    assert(follows(reading.cells, later.cells, own, lines.subrange(body_start, end), language));
}

proof fn lemma_cells_stay_failed(reading: Reading, lines: Seq<Seq<char>>, i: int)
    requires
        0 <= i <= lines.len(),
        reading.render.failed(),
    ensures
        myst::myst_cells(reading, lines, i, i).render.failed(),
{
}

/// Whether cells go on with a cell for some text, unless it is blank, and a cell for some code.
pub open spec fn follows(
    before: Seq<Cell>,
    after: Seq<Cell>,
    words: Seq<Seq<char>>,
    code: Seq<Seq<char>>,
    language: Seq<char>,
) -> bool {
    let n = before.len() as int;
    &&& n < after.len()
    &&& after.take(n) == before
    &&& is_text_of(after.subrange(n, after.len() - 1), words)
    &&& is_code_of(after.last(), code, language)
}

/// The text before a code cell becomes a cell of its own, unless it is blank, and the code cell follows it, with every
/// line of its code; what comes after it is read as if the notebook started there.
pub proof fn law_text_and_code_become_cells(
    reading: Reading,
    lines: Seq<Seq<char>>,
    start: int,
    at: int,
    end: int,
    body_start: int,
    language: Seq<char>,
)
    requires
        0 <= start <= at < lines.len(),
        forall|k: int| start <= k < at ==> opens_no_code(#[trigger] lines[k]),
        opens_code(lines[at], language),
        are_options(lines, at + 1, end, body_start),
        forall|k: int| at < k < end ==> text::trimmed(#[trigger] lines[k]) != "```"@,
        end < lines.len() ==> text::trimmed(lines[end]) == "```"@,
        reading.render.text.len() == 0,
        !myst::myst_cells(reading, lines, start, start).render.failed(),
    ensures
        exists|later: Reading|
            #[trigger] myst::myst_cells(
                later,
                lines,
                myst::after_line(lines, end),
                myst::after_line(lines, end),
            ) == myst::myst_cells(reading, lines, start, start) && follows(
                reading.cells,
                later.cells,
                lines.subrange(start, at),
                lines.subrange(body_start, end),
                language,
            ) && later.render.text.len() == 0,
{
    lemma_text_up_to_code(reading, lines, start, start, at);
    let first = choose|later: Reading|
        #[trigger] myst::myst_cells(later, lines, start, at) == myst::myst_cells(reading, lines, start, start)
            && later.cells == reading.cells && later.render.text.len() == 0;
    lemma_code_after_text(first, lines, start, at, end, body_start, language);
}

/// Whether a line is no marker of a cell.
pub open spec fn marks_nothing(line: Seq<char>, light: bool) -> bool {
    if light {
        myst::cell_marker(line, "+"@) is None && myst::cell_marker(line, "-"@) is None
    } else {
        myst::cell_marker(line, "%%"@) is None
    }
}

/// A cell of code that is being read takes in every line up to the next marker, unchanged and in order.
#[verifier::spinoff_prover]
#[verifier::rlimit(60)]
pub proof fn law_code_takes_in_every_line(p: Pending, lines: Seq<Seq<char>>, light: bool)
    requires
        p.current is Some,
        (p.current->0).0.cell_type is Code,
        forall|k: int| 0 <= k < lines.len() ==> marks_nothing(#[trigger] lines[k], light),
        !myst::lines_taken(p, lines, light).reading.render.failed(),
    ensures
        !p.reading.render.failed(),
        ({
            let after = myst::lines_taken(p, lines, light);
            &&& after.current is Some
            &&& (after.current->0).1 == (p.current->0).1
            &&& (after.current->0).0 == (Cell {
                source: (p.current->0).0.source + fed(lines),
                ..(p.current->0).0
            })
            &&& after.reading.cells == p.reading.cells
        }),
    decreases lines.len(),
{
    broadcast use myst::lemma_appended;

    let cell = (p.current->0).0;
    if lines.len() == 0 {
        assert(cell.source + fed(lines) =~= cell.source);
    } else {
        lemma_line_feed();
        let init = lines.drop_last();
        let line = lines.last();
        assert(marks_nothing(lines[lines.len() - 1], light));
        assert forall|k: int| 0 <= k < init.len() implies marks_nothing(#[trigger] init[k], light) by {
            assert(marks_nothing(lines[k], light));
        }
        let before = myst::lines_taken(p, init, light);
        law_code_takes_in_every_line(p, init, light);
        let now = (before.current->0).0;
        assert(myst::cell_line(now, line, (before.current->0).1) == line);
        assert(now.source + line + "\n"@ =~= cell.source + fed(lines));
    }
}

/// What is left of a cell when it ends: its text without the line feeds at its end, unless it is blank.
#[verifier::spinoff_prover]
#[verifier::rlimit(60)]
pub proof fn law_cell_ends_with_its_text(p: Pending)
    requires
        p.current is Some,
        !p.reading.render.failed(),
    ensures
        ({
            let source = (p.current->0).0.source;
            let after = p.closed().reading.cells;
            &&& p.closed().current is None
            &&& text::trimmed(text::stripped_end(source, '\n')).len() == 0 ==> after == p.reading.cells
            &&& text::trimmed(text::stripped_end(source, '\n')).len() > 0 ==> after.len() == p.reading.cells.len() + 1
                && after.drop_last() == p.reading.cells && after.last().cell_type == (p.current->0).0.cell_type
                && after.last().tags == (p.current->0).0.tags && (exists|k: nat|
                source == after.last().source + #[trigger] feeds(k)) && (after.last().source.len() > 0 ==> after.last().source.last()
                != '\n')
        }),
{
    let source = (p.current->0).0.source;
    lemma_feeds(source);
    let k = (source.len() - text::stripped_end(source, '\n').len()) as nat;
    assert(source == text::stripped_end(source, '\n') + feeds(k));
    let after = p.closed().reading.cells;
    if text::trimmed(text::stripped_end(source, '\n')).len() > 0 {
        assert(after.drop_last() =~= p.reading.cells);
    }
}

/// So many line feeds.
pub open spec fn feeds(n: nat) -> Seq<char> {
    Seq::new(n, |k: int| '\n')
}

proof fn lemma_feeds(s: Seq<char>)
    ensures
        text::stripped_end(s, '\n').len() <= s.len(),
        s == text::stripped_end(s, '\n') + feeds((s.len() - text::stripped_end(s, '\n').len()) as nat),
        text::stripped_end(s, '\n').len() > 0 ==> text::stripped_end(s, '\n').last() != '\n',
    decreases s.len(),
{
    let t = text::stripped_end(s, '\n');
    if s.len() > 0 && s.last() == '\n' {
        lemma_feeds(s.drop_last());
        let n = (s.len() - 1 - t.len()) as nat;
        assert(s =~= (t + feeds(n)).push('\n'));
        assert(feeds(n).push('\n') =~= feeds(n + 1));
        assert(s =~= t + feeds((s.len() - t.len()) as nat));
    } else {
        assert(s =~= t + feeds(0));
    }
}

/// What stands between two lines of three hyphens at the start of a text is told apart from what follows them.
pub proof fn law_front_matter_is_told_apart(inner: Seq<Seq<char>>, rest: Seq<Seq<char>>)
    requires
        forall|k: int| 0 <= k < inner.len() ==> is_line(#[trigger] inner[k]) && text::trimmed_end(inner[k]) != "---"@,
        forall|k: int| 0 <= k < rest.len() ==> is_line(#[trigger] rest[k]),
    ensures
        myst::frontmatter(fed(seq!["---"@] + inner + seq!["---"@] + rest)) == Some(
            (text::join(inner, seq!['\n']), text::join(rest, seq!['\n'])),
        ),
{
    let lines = seq!["---"@] + inner + seq!["---"@] + rest;
    lemma_line_feed();
    reveal_strlit("---");
    assert("---"@.len() == 3 && "---"@[0] == '-' && "---"@[1] == '-' && "---"@[2] == '-');
    assert(text::trimmed_end("---"@) == "---"@);
    assert(is_line("---"@));
    assert forall|k: int| 0 <= k < lines.len() implies is_line(#[trigger] lines[k]) by {
        if 1 <= k <= inner.len() {
            assert(lines[k] == inner[k - 1]);
        } else if k > inner.len() + 1 {
            assert(lines[k] == rest[k - inner.len() - 2]);
        }
    }
    law_lines_are_read_back(lines, Seq::empty());
    let end = inner.len() + 1;
    assert(lines[0] == "---"@);
    assert(lines[end as int] == "---"@);
    assert forall|k: int| 1 <= k < end implies text::trimmed_end(#[trigger] lines[k]) != "---"@ by {
        assert(lines[k] == inner[k - 1]);
    }
    lemma_fence_line(lines, 1, end as int);
    assert(lines.subrange(1, end as int) =~= inner);
    assert(lines.skip(end as int + 1) =~= rest);
}

proof fn lemma_fence_line(lines: Seq<Seq<char>>, i: int, end: int)
    requires
        0 <= i <= end < lines.len(),
        forall|k: int| i <= k < end ==> text::trimmed_end(#[trigger] lines[k]) != "---"@,
        text::trimmed_end(lines[end]) == "---"@,
    ensures
        myst::fence_line(lines, i) == Some(end),
    decreases end - i,
{
    if i < end {
        lemma_fence_line(lines, i + 1, end);
    }
}

} // verus!
