//! Laws of roles, options, admonitions and ordinary blocks in extended Markdown.
use crate::laws::myst::{
    admonition_above, are_options, begins, goes_on, lemma_admonition_head, lemma_block_appends, lemma_closing_line,
    lemma_first_position, lemma_kinds_differ, lemma_line_feed, lemma_no_prefix, lemma_opened, lemma_options, lemma_with_joined,
    lemma_with_image, lemma_with_lines, lemma_with_target, law_rendering_only_appends, marker, opens, options_on, prefixed,
};
use crate::laws::text::{
    fed, is_line, law_lines_are_read_back, law_position_is_the_first, law_trimmed_text_stays, lemma_trimmed_ends,
};
use crate::myst;
use crate::myst::{Block, Render};
use crate::security::Ledger;
use crate::text;
use vstd::prelude::*;

verus! {

/// A name and a value between colons are read back as an option.
pub proof fn law_options_are_read_back(name: Seq<char>, value: Seq<char>)
    requires
        name.len() > 0,
        forall|i: int| 0 <= i < name.len() ==> text::is_letter(#[trigger] name[i]) || text::is_digit(name[i]) || name[i]
            == '-' || name[i] == '_',
        value.len() > 0,
        text::trimmed(value) == value,
    ensures
        myst::option_on_line(seq![':'] + name + seq![':', ' '] + value) == Some((name, value)),
{
    let line = seq![':'] + name + seq![':', ' '] + value;
    lemma_trimmed_ends(value);
    assert(line.last() == value.last());
    law_trimmed_text_stays(line);
    let rest = line.skip(1);
    assert(rest =~= name + seq![':', ' '] + value);
    assert forall|k: int| 0 <= k < name.len() implies rest[k] != ':' by {
        assert(rest[k] == name[k]);
    }
    lemma_first_position(rest, ':', 0, name.len() as int);
    assert(rest.take(name.len() as int) =~= name);
    assert(!text::is_white(name[0]) && !text::is_white(name[name.len() - 1]));
    law_trimmed_text_stays(name);
    let after = rest.skip(name.len() as int + 1);
    assert(after =~= seq![' '] + value);
    assert(after.drop_first() =~= value);
    assert(text::trimmed_start(after) == text::trimmed_start(value));
}

/// A line that does not start with a colon, white space aside, gives no option.
pub proof fn law_other_lines_give_no_option(line: Seq<char>)
    requires
        text::trimmed(line).len() == 0 || text::trimmed(line)[0] != ':',
    ensures
        myst::option_on_line(line) is None,
{
}

/// Of the options of one name the last one counts, if it has a value; options of other names do not matter.
pub proof fn law_last_option_counts(
    options: Seq<(Seq<char>, Seq<char>)>,
    name: Seq<char>,
    value: Seq<char>,
    other: (Seq<char>, Seq<char>),
)
    requires
        value.len() > 0,
        other.0 != name,
    ensures
        myst::option_of(options.push((name, value)), name) == Some(value),
        myst::option_of(options.push(other), name) == myst::option_of(options, name),
        myst::option_of(Seq::empty(), name) is None,
{
    assert(options.push(other).drop_last() =~= options);
}

/// A role that names its label and its target is told apart; one that names only a target is its own label.
pub proof fn law_label_and_target_are_told_apart(label: Seq<char>, target: Seq<char>)
    requires
        label.len() > 0,
        text::trimmed(label) == label,
        target.len() > 0,
        text::trimmed(target) == target,
        !target.contains('<'),
    ensures
        myst::label_and_target(label + seq![' ', '<'] + target + seq!['>']) == (label, target),
        target.last() != '>' ==> myst::label_and_target(target) == (target, target),
{
    let value = label + seq![' ', '<'] + target + seq!['>'];
    lemma_trimmed_ends(label);
    lemma_trimmed_ends(target);
    assert(value[0] == label[0] && value.last() == '>');
    law_trimmed_text_stays(value);
    let inner = value.drop_last();
    assert(inner =~= label + seq![' ', '<'] + target);
    let p = label.len() as int + 1;
    assert(inner[p] == '<');
    assert forall|k: int| p < k < inner.len() implies inner[k] != '<' by {
        assert(inner[k] == target[k - p - 1]);
        assert(target.contains(target[k - p - 1]));
    }
    lemma_last_position(inner, '<', p);
    let left = inner.take(p);
    assert(left =~= label + seq![' ']);
    assert(left.drop_last() =~= label);
    assert(text::trimmed_start(left) == left) by {
        assert(left[0] == label[0]);
    }
    assert(text::trimmed_end(left) == text::trimmed_end(label));
    assert(text::trimmed_start(label) == label);
    assert(text::trimmed(left) == label);
    assert(inner.skip(p + 1) =~= target);
}

proof fn lemma_last_position(s: Seq<char>, c: char, p: int)
    requires
        0 <= p < s.len(),
        s[p] == c,
        forall|k: int| p < k < s.len() ==> s[k] != c,
    ensures
        text::last_position_of(s, c) == Some(p),
    decreases s.len(),
{
    if p < s.len() - 1 {
        assert(s[s.len() - 1] != c);
        lemma_last_position(s.drop_last(), c, p);
    }
}

proof fn lemma_role_words()
    ensures
        "{ref}`"@.len() == 6,
        "{cite}`"@.len() == 7,
        "{ref}`"@[0] == '{',
        "{cite}`"@[0] == '{',
        "{ref}`"@[1] == 'r',
        "{cite}`"@[1] == 'c',
        "{"@ == seq!['{'],
{
    reveal_strlit("{ref}`");
    reveal_strlit("{cite}`");
    reveal_strlit("{");
    assert("{"@ =~= seq!['{']);
}

/// A line with a role in it.
pub open spec fn role_line(before: Seq<char>, cites: bool, value: Seq<char>, after: Seq<char>) -> Seq<char> {
    before + (if cites {
        "{cite}`"@
    } else {
        "{ref}`"@
    }) + value + seq!['`'] + after
}

/// Where the parts of a line with a role stand.
#[verifier::spinoff_prover]
#[verifier::rlimit(60)]
proof fn lemma_role_parts(before: Seq<char>, cites: bool, value: Seq<char>, after: Seq<char>)
    requires
        !before.contains('{'),
        !value.contains('`'),
    ensures
        ({
            let line = role_line(before, cites, value, after);
            let p = before.len() as int;
            let length: int = if cites {
                7
            } else {
                6
            };
            let end = p + length + value.len();
            &&& text::position_of(line, '{', 0) == Some(p)
            &&& myst::role_at(line, p) == Some(
                (length, if cites {
                    "cite:"@
                } else {
                    "#"@
                }),
            )
            &&& text::position_of(line, '`', p + length) == Some(end)
            &&& end + 1 + after.len() == line.len()
            &&& line.subrange(0, p) == before
            &&& line.subrange(p + length, end) == value
        }),
{
    let opening = if cites {
        "{cite}`"@
    } else {
        "{ref}`"@
    };
    let line = role_line(before, cites, value, after);
    let p = before.len() as int;
    lemma_role_words();
    let start = p + opening.len();
    let end = start + value.len();
    assert forall|k: int| 0 <= k < p implies line[k] != '{' by {
        assert(line[k] == before[k]);
        assert(before.contains(before[k]));
    }
    assert(line[p] == opening[0]);
    lemma_first_position(line, '{', 0, p);
    assert(line.subrange(p, start) =~= opening);
    if cites {
        assert(line[p + 1] == opening[1]);
        assert(line.subrange(p, p + 6)[1] == line[p + 1]);
        assert(!text::occurs_at(line, "{ref}`"@, p));
    }
    assert forall|k: int| start <= k < end implies line[k] != '`' by {
        assert(line[k] == value[k - start]);
        assert(value.contains(value[k - start]));
    }
    assert(line[end] == '`');
    lemma_first_position(line, '`', start, end);
    assert(line.subrange(start, end) =~= value);
    assert(line.subrange(0, p) =~= before);
}

/// A reference in a line becomes a link to its target in the document, and a citation one to its source, with what
/// stands before them unchanged. What follows is rendered as if the line started there.
#[verifier::spinoff_prover]
#[verifier::rlimit(60)]
pub proof fn law_roles_become_links(r: Render, before: Seq<char>, cites: bool, value: Seq<char>, after: Seq<char>)
    requires
        !before.contains('{'),
        !value.contains('`'),
        !myst::with_roles(r, role_line(before, cites, value, after), 0).failed(),
    ensures
        exists|later: Render|
            #[trigger] myst::with_roles(
                later,
                role_line(before, cites, value, after),
                role_line(before, cites, value, after).len() - after.len(),
            ) == myst::with_roles(r, role_line(before, cites, value, after), 0) && (later.failed() || later.text == r.text
                + before + "["@ + myst::label_and_target(value).0 + "]("@ + (if cites {
                "cite:"@
            } else {
                "#"@
            }) + myst::label_and_target(value).1 + ")"@),
{
    let line = role_line(before, cites, value, after);
    lemma_role_parts(before, cites, value, after);
    let prefix = if cites {
        "cite:"@
    } else {
        "#"@
    };
    let stepped = r.stepped().appended(before);
    let later = myst::with_role(stepped, value, prefix);
    assert(myst::with_roles(r, line, 0) == myst::with_roles(later, line, line.len() - after.len()));
    lemma_link(r.stepped(), before, value, prefix);
}

proof fn lemma_link(r: Render, before: Seq<char>, value: Seq<char>, prefix: Seq<char>)
    ensures
        ({
            let later = myst::with_role(r.appended(before), value, prefix);
            later.failed() || later.text == r.text + before + "["@ + myst::label_and_target(value).0 + "]("@ + prefix
                + myst::label_and_target(value).1 + ")"@
        }),
{
    broadcast use myst::lemma_appended;

}

/// An alert has one of five kinds: an admonition that names one of them has that kind, and the others have the kind
/// that comes closest.
pub proof fn law_alerts_have_the_kind_of_their_admonition(kind: Seq<char>)
    ensures
        kind == "tip"@ || kind == "important"@ || kind == "warning"@ || kind == "caution"@ || kind == "note"@
            ==> myst::alert_kind(kind) == text::uppercased(kind),
        kind == "hint"@ ==> myst::alert_kind(kind) == text::uppercased("tip"@),
        kind == "danger"@ || kind == "error"@ ==> myst::alert_kind(kind) == text::uppercased("caution"@),
        kind == "attention"@ || kind == "seealso"@ ==> myst::alert_kind(kind) == text::uppercased("note"@),
{
    lemma_alert_words();
}

#[verifier::spinoff_prover]
#[verifier::rlimit(60)]
proof fn lemma_alert_words()
    ensures
        "TIP"@ == text::uppercased("tip"@),
        "IMPORTANT"@ == text::uppercased("important"@),
        "WARNING"@ == text::uppercased("warning"@),
        "CAUTION"@ == text::uppercased("caution"@),
        "NOTE"@ == text::uppercased("note"@),
        "tip"@.len() == 3,
        "hint"@.len() == 4,
        "note"@.len() == 4,
        "hint"@ != "note"@,
        "error"@.len() == 5,
        "danger"@.len() == 6,
        "warning"@.len() == 7,
        "caution"@.len() == 7,
        "seealso"@.len() == 7,
        "warning"@ != "caution"@,
        "warning"@ != "seealso"@,
        "caution"@ != "seealso"@,
        "important"@.len() == 9,
        "attention"@.len() == 9,
        "important"@ != "attention"@,
{
    reveal_strlit("TIP");
    reveal_strlit("tip");
    reveal_strlit("IMPORTANT");
    reveal_strlit("important");
    reveal_strlit("WARNING");
    reveal_strlit("warning");
    reveal_strlit("CAUTION");
    reveal_strlit("caution");
    reveal_strlit("NOTE");
    reveal_strlit("note");
    reveal_strlit("hint");
    reveal_strlit("error");
    reveal_strlit("danger");
    reveal_strlit("seealso");
    reveal_strlit("attention");
    assert("TIP"@ =~= text::uppercased("tip"@));
    assert("IMPORTANT"@ =~= text::uppercased("important"@));
    assert("WARNING"@ =~= text::uppercased("warning"@));
    assert("CAUTION"@ =~= text::uppercased("caution"@));
    assert("NOTE"@ =~= text::uppercased("note"@));
    assert("hint"@[0] != "note"@[0]);
    assert("warning"@[0] != "caution"@[0]);
    assert("warning"@[0] != "seealso"@[0]);
    assert("caution"@[0] != "seealso"@[0]);
    assert("important"@[0] != "attention"@[0]);
}

/// A body without extensions of Markdown, rendered apart, is the body.
#[verifier::spinoff_prover]
#[verifier::rlimit(100)]
proof fn lemma_plain_body(r: Render, body: Seq<Seq<char>>, depth: nat)
    requires
        depth < 64,
        body.len() > 0,
        body.last().len() > 0,
        forall|k: int| 0 <= k < body.len() ==> is_line(#[trigger] body[k]) && myst::is_plain(body[k]),
        !myst::nested_body(r, body, depth).failed(),
    ensures
        !r.failed(),
        myst::nested_body(r, body, depth).text == fed(body),
{
    let entered = myst::blank_after(r).paid(r.ledger.entered());
    assert(!r.failed() && !entered.failed());
    let source = entered.with_joined(body);
    assert(!source.failed());
    lemma_with_joined(entered, body);
    assert(source.text =~= text::join(body, seq!['\n']));
    lemma_lines_of_joined(body);
    let start = myst::blank_after(source);
    let done = myst::with_content(start, source.text, depth + 1);
    assert(myst::nested_body(r, body, depth) == done.paid(done.ledger.unwound()));
    assert(done == myst::with_document(start, body, 0, depth + 1));
    myst::lemma_plain_document_keeps(start, body, 0, depth + 1);
    assert(body.skip(0) =~= body);
    lemma_ended_is_fed(body);
    assert(done.text =~= fed(body));
}

proof fn lemma_ended_is_fed(lines: Seq<Seq<char>>)
    ensures
        myst::ended(lines) == fed(lines),
    decreases lines.len(),
{
    lemma_line_feed();
    if lines.len() > 0 {
        lemma_ended_is_fed(lines.drop_last());
        assert(myst::ended(lines) =~= fed(lines));
    }
}

proof fn lemma_lines_of_joined(lines: Seq<Seq<char>>)
    requires
        lines.len() > 0,
        lines.last().len() > 0,
        forall|k: int| 0 <= k < lines.len() ==> is_line(#[trigger] lines[k]),
    ensures
        text::lines_of(text::join(lines, seq!['\n'])) == lines,
{
    assert forall|k: int| 0 <= k < lines.len() implies !(#[trigger] lines[k]).contains('\n') by {
        assert(is_line(lines[k]));
    }
    text::lemma_split_of_join(lines, '\n');
    let pieces = text::split_on(text::join(lines, seq!['\n']), '\n');
    let found = text::lines_of(text::join(lines, seq!['\n']));
    assert forall|k: int| 0 <= k < lines.len() implies found[k] == lines[k] by {
        assert(is_line(lines[k]));
    }
    assert(found =~= lines);
}

/// The lines of an admonition without extensions of Markdown in it are quoted below its head, unchanged and in order.
#[verifier::spinoff_prover]
#[verifier::rlimit(100)]
pub proof fn law_admonition_quotes_every_line(
    r: Render,
    lines: Seq<Seq<char>>,
    start: int,
    end: int,
    body_start: int,
    kind: Seq<char>,
    argument: Seq<char>,
    depth: nat,
)
    requires
        depth < 64,
        kind != "math"@,
        kind != "code-cell"@,
        kind != "code-block"@,
        kind != "image"@,
        kind != "figure"@,
        kind != "table"@,
        are_options(lines, start, end, body_start),
        body_start < end,
        lines[end - 1].len() > 0,
        forall|k: int| body_start <= k < end ==> is_line(#[trigger] lines[k]) && myst::is_plain(lines[k]),
        !myst::with_directive(r, lines, start, end, kind, argument, depth).failed(),
    ensures
        myst::with_directive(r, lines, start, end, kind, argument, depth).text == r.text + (admonition_above(
            kind,
            argument,
            options_on(lines.subrange(start, body_start)),
        ) + prefixed(seq!['>', ' '], lines.subrange(body_start, end)) + seq!['\n']),
{
    lemma_options(r.ledger, lines, start, end, body_start, Seq::empty());
    let options = options_on(lines.subrange(start, body_start));
    assert(Seq::empty() + options =~= options);
    let paid = r.paid(myst::directive_options(r.ledger, lines, start, end, Seq::empty()).0);
    let body = lines.subrange(body_start, end);
    let head = myst::with_admonition_head(paid, kind, argument, options);
    assert forall|k: int| 0 <= k < body.len() implies is_line(#[trigger] body[k]) && myst::is_plain(body[k]) by {
        assert(body[k] == lines[body_start + k]);
    }
    assert(body.last() == lines[end - 1]);
    assert(myst::with_directive(r, lines, start, end, kind, argument, depth) == myst::with_quoted(head, body, depth));
    lemma_plain_quoted(head, body, depth);
    lemma_admonition_head(paid, kind, argument, options);
    let above = admonition_above(kind, argument, options);
    let quoted = prefixed(seq!['>', ' '], body);
    assert(r.text + above + quoted + seq!['\n'] =~= r.text + (above + quoted + seq!['\n']));
}

/// A body without extensions of Markdown, quoted.
#[verifier::spinoff_prover]
#[verifier::rlimit(100)]
proof fn lemma_plain_quoted(head: Render, body: Seq<Seq<char>>, depth: nat)
    requires
        depth < 64,
        body.len() > 0,
        body.last().len() > 0,
        forall|k: int| 0 <= k < body.len() ==> is_line(#[trigger] body[k]) && myst::is_plain(body[k]),
        !myst::with_quoted(head, body, depth).failed(),
    ensures
        !head.failed(),
        myst::with_quoted(head, body, depth).text == head.text + prefixed(seq!['>', ' '], body) + seq!['\n'],
{
    let apart = myst::nested_body(head, body, depth);
    assert(!apart.failed());
    lemma_plain_body(head, body, depth);
    law_lines_are_read_back(body, Seq::empty());
    lemma_quoted_lines(Render { text: head.text, ..apart }, body);
}

proof fn lemma_quoted_lines(kept: Render, body: Seq<Seq<char>>)
    requires
        !kept.with_lines("> "@, body).appended("\n"@).failed(),
    ensures
        kept.with_lines("> "@, body).appended("\n"@).text == kept.text + prefixed(seq!['>', ' '], body) + seq!['\n'],
{
    broadcast use myst::lemma_appended;

    lemma_line_feed();
    reveal_strlit("> ");
    assert("> "@ =~= seq!['>', ' ']);
    lemma_with_lines(kept, "> "@, body);
}

/// An ordinary block of code passes unchanged, with its fences, and the rendering goes on behind it.
#[verifier::spinoff_prover]
#[verifier::rlimit(100)]
pub proof fn law_ordinary_blocks_pass_unchanged(
    r: Render,
    lines: Seq<Seq<char>>,
    i: int,
    end: int,
    depth: nat,
)
    requires
        depth <= 64,
        0 <= i < end < lines.len(),
        text::occurs_at(text::trimmed(lines[i]), "```"@, 0),
        !text::occurs_at(text::trimmed(lines[i]), "```{"@, 0),
        forall|k: int| i < k < end ==> text::trimmed(#[trigger] lines[k]) != "```"@,
        text::trimmed(lines[end]) == "```"@,
        !myst::with_document(r, lines, i, depth).failed(),
    ensures
        begins(
            myst::with_document(r, lines, i, depth).text,
            r.text + fed(lines.subrange(i, end + 1)),
        ),
        goes_on(r, lines, i, depth, fed(lines.subrange(i, end + 1)), end + 1),
{
    let stepped = r.stepped();
    let t = text::trimmed(lines[i]);
    reveal_strlit("```");
    reveal_strlit("~~~");
    assert("```"@.len() == 3 && "```"@[0] == '`' && "~~~"@.len() == 3 && "~~~"@[0] == '~');
    assert(t.subrange(0, 3)[0] == t[0]);
    assert(t[0] == '`');
    assert(myst::colon_directive(t) is None);
    assert(myst::fenced_directive(t) is None);
    let (searched, block) = myst::block_at(stepped.ledger, lines, i);
    let next = myst::block_next(lines, i, block);
    let start = stepped.paid(searched);
    let after = myst::with_block(start, lines, i, block, depth);
    myst::lemma_block_advances(stepped.ledger, lines, i);
    if after.failed() {
        myst::lemma_document_stays_failed(after, lines, next, depth);
    }
    lemma_block_appends(start, lines, i, block, depth);
    lemma_closing_line(stepped.ledger, lines, i + 1, end, "```"@);
    assert(block == Block::Fence(end + 1));
    lemma_with_lines(start, Seq::empty(), lines.subrange(i, end + 1));
    lemma_no_prefix(lines.subrange(i, end + 1));
    law_rendering_only_appends(after, lines, next, depth);
    assert(myst::with_document(after, lines, next, depth) == myst::with_document(r, lines, i, depth));
}

/// The body of a table without extensions of Markdown in it stands below its title and the marker of its target,
/// unchanged and in order.
#[verifier::spinoff_prover]
#[verifier::rlimit(100)]
pub proof fn law_table_keeps_every_line(
    r: Render,
    lines: Seq<Seq<char>>,
    start: int,
    end: int,
    body_start: int,
    title: Seq<char>,
    depth: nat,
)
    requires
        depth < 64,
        are_options(lines, start, end, body_start),
        body_start < end,
        lines[end - 1].len() > 0,
        forall|k: int| body_start <= k < end ==> is_line(#[trigger] lines[k]) && myst::is_plain(lines[k]),
        !myst::with_directive(r, lines, start, end, "table"@, title, depth).failed(),
    ensures
        ({
            let options = options_on(lines.subrange(start, body_start));
            let above = (if title.len() > 0 {
                title + "\n\n"@
            } else {
                Seq::empty()
            }) + marker(myst::option_of(options, "name"@));
            myst::with_directive(r, lines, start, end, "table"@, title, depth).text == r.text + (above + fed(
                lines.subrange(body_start, end),
            ) + seq!['\n'])
        }),
{
    lemma_options(r.ledger, lines, start, end, body_start, Seq::empty());
    let options = options_on(lines.subrange(start, body_start));
    assert(Seq::empty() + options =~= options);
    lemma_kinds_differ();
    let paid = r.paid(myst::directive_options(r.ledger, lines, start, end, Seq::empty()).0);
    let body = lines.subrange(body_start, end);
    let head = myst::with_table_head(paid, title, options);
    assert forall|k: int| 0 <= k < body.len() implies is_line(#[trigger] body[k]) && myst::is_plain(body[k]) by {
        assert(body[k] == lines[body_start + k]);
    }
    assert(body.last() == lines[end - 1]);
    assert(myst::with_directive(r, lines, start, end, "table"@, title, depth) == myst::with_nested(head, body, depth).appended(
        "\n"@,
    ));
    lemma_plain_nested(head, body, depth);
    lemma_table_head(paid, title, options);
    let above = (if title.len() > 0 {
        title + "\n\n"@
    } else {
        Seq::empty()
    }) + marker(myst::option_of(options, "name"@));
    assert(r.text + above + fed(body) + seq!['\n'] =~= r.text + (above + fed(body) + seq!['\n']));
}

proof fn lemma_table_head(r: Render, title: Seq<char>, options: Seq<(Seq<char>, Seq<char>)>)
    requires
        !myst::with_table_head(r, title, options).failed(),
    ensures
        !r.failed(),
        myst::with_table_head(r, title, options).text == r.text + ((if title.len() > 0 {
            title + "\n\n"@
        } else {
            Seq::empty()
        }) + marker(myst::option_of(options, "name"@))),
{
    broadcast use myst::lemma_appended;

    let target = myst::option_of(options, "name"@);
    let titled = if title.len() > 0 {
        r.appended(title).appended("\n\n"@)
    } else {
        r
    };
    lemma_with_target(titled, target);
    let own = if title.len() > 0 {
        title + "\n\n"@
    } else {
        Seq::empty()
    };
    assert(titled.text =~= r.text + own);
    assert(r.text + own + marker(target) =~= r.text + (own + marker(target)));
}

/// A body without extensions of Markdown, below a head.
#[verifier::spinoff_prover]
#[verifier::rlimit(100)]
proof fn lemma_plain_nested(head: Render, body: Seq<Seq<char>>, depth: nat)
    requires
        depth < 64,
        body.len() > 0,
        body.last().len() > 0,
        forall|k: int| 0 <= k < body.len() ==> is_line(#[trigger] body[k]) && myst::is_plain(body[k]),
        !myst::with_nested(head, body, depth).appended("\n"@).failed(),
    ensures
        !head.failed(),
        myst::with_nested(head, body, depth).appended("\n"@).text == head.text + fed(body) + seq!['\n'],
{
    broadcast use myst::lemma_appended;

    lemma_line_feed();
    let apart = myst::nested_body(head, body, depth);
    assert(!myst::with_nested(head, body, depth).failed());
    assert(!apart.failed());
    lemma_plain_body(head, body, depth);
}

/// The caption of a figure without extensions of Markdown in it stands below its image, unchanged and in order.
#[verifier::spinoff_prover]
#[verifier::rlimit(100)]
pub proof fn law_figure_keeps_its_caption(
    r: Render,
    lines: Seq<Seq<char>>,
    start: int,
    end: int,
    body_start: int,
    source: Seq<char>,
    depth: nat,
)
    requires
        depth < 64,
        are_options(lines, start, end, body_start),
        body_start < end,
        lines[end - 1].len() > 0,
        forall|k: int| body_start <= k < end ==> is_line(#[trigger] lines[k]) && myst::is_plain(lines[k]),
        !myst::with_directive(r, lines, start, end, "figure"@, source, depth).failed(),
    ensures
        ({
            let options = options_on(lines.subrange(start, body_start));
            let alt = myst::option_of(options, "alt"@);
            let label = if alt is Some {
                alt->0
            } else {
                source
            };
            let image = marker(myst::option_of(options, "name"@)) + ("!["@ + label + "]("@ + source + ")\n\n"@);
            myst::with_directive(r, lines, start, end, "figure"@, source, depth).text == r.text + (image + fed(
                lines.subrange(body_start, end),
            ) + seq!['\n'])
        }),
{
    lemma_options(r.ledger, lines, start, end, body_start, Seq::empty());
    let options = options_on(lines.subrange(start, body_start));
    assert(Seq::empty() + options =~= options);
    lemma_kinds_differ();
    let paid = r.paid(myst::directive_options(r.ledger, lines, start, end, Seq::empty()).0);
    let body = lines.subrange(body_start, end);
    let head = myst::with_image(paid, source, options);
    assert forall|k: int| 0 <= k < body.len() implies is_line(#[trigger] body[k]) && myst::is_plain(body[k]) by {
        assert(body[k] == lines[body_start + k]);
    }
    assert(body.last() == lines[end - 1]);
    assert(myst::with_directive(r, lines, start, end, "figure"@, source, depth) == myst::with_nested(
        head,
        body,
        depth,
    ).appended("\n"@));
    lemma_plain_nested(head, body, depth);
    lemma_with_image(paid, source, options);
    let alt = myst::option_of(options, "alt"@);
    let label = if alt is Some {
        alt->0
    } else {
        source
    };
    let image = marker(myst::option_of(options, "name"@)) + ("!["@ + label + "]("@ + source + ")\n\n"@);
    assert(r.text + image + fed(body) + seq!['\n'] =~= r.text + (image + fed(body) + seq!['\n']));
}

/// The rest of a line without an opening brace is kept as it is.
pub proof fn law_text_without_roles_is_kept(r: Render, line: Seq<char>, cursor: int)
    requires
        0 <= cursor <= line.len(),
        forall|k: int| cursor <= k < line.len() ==> line[k] != '{',
        !myst::with_roles(r, line, cursor).failed(),
    ensures
        !r.failed(),
        myst::with_roles(r, line, cursor).text == r.text + line.skip(cursor),
{
    broadcast use myst::lemma_appended;

    law_position_is_the_first(line, '{', cursor);
}

/// A name in brackets before an equals sign is a target.
pub proof fn law_target_lines_are_read(name: Seq<char>)
    requires
        myst::valid_target(name),
    ensures
        myst::target_on_line(seq!['('] + name + seq![')', '=']) == Some(name),
{
    let line = seq!['('] + name + seq![')', '='];
    reveal_strlit(")=");
    assert(")="@ =~= seq![')', '=']);
    assert(line[0] == '(');
    let rest = line.skip(1);
    assert(rest =~= name + seq![')', '=']);
    assert(rest.skip(rest.len() - 2) =~= seq![')', '=']);
    assert(rest.take(rest.len() - 2) =~= name);
    assert(line.subrange(1, line.len() - 2) =~= name);
}

proof fn lemma_colon_end(l: Ledger, lines: Seq<Seq<char>>, i: int, end: int, fence: nat)
    requires
        0 <= i <= end <= lines.len(),
        forall|k: int|
            i <= k < end ==> (myst::colon_directive(text::trimmed(#[trigger] lines[k])) is None || (
            myst::colon_directive(text::trimmed(lines[k]))->0).fence != fence) && (text::trimmed(lines[k]).len() != fence
                || text::leading(text::trimmed(lines[k]), ':') != fence),
        end < lines.len() ==> text::trimmed(lines[end]).len() == fence && text::leading(text::trimmed(lines[end]), ':')
            == fence && (myst::colon_directive(text::trimmed(lines[end])) is None),
    ensures
        myst::colon_end(l, lines, i, fence, 1).0.verdict is Ok ==> myst::colon_end(l, lines, i, fence, 1).1 == end,
    decreases end - i,
{
    if i < end {
        assert(text::trimmed(lines[i]).len() == text::trimmed(lines[i]).len());
        lemma_colon_end(l.stepped(), lines, i + 1, end, fence);
    }
}

/// A directive that colons open ends at the first line of as many colons, if no other one of that length opens before,
/// and its body is all that stands between them.
pub proof fn law_colon_directive_ends_at_its_fence(l: Ledger, lines: Seq<Seq<char>>, i: int, end: int)
    requires
        0 <= i < end <= lines.len(),
        myst::colon_directive(text::trimmed(lines[i])) is Some,
        myst::is_supported((myst::colon_directive(text::trimmed(lines[i]))->0).kind),
        ({
            let fence = (myst::colon_directive(text::trimmed(lines[i]))->0).fence;
            &&& forall|k: int|
                i + 1 <= k < end ==> (myst::colon_directive(text::trimmed(#[trigger] lines[k])) is None || (
                myst::colon_directive(text::trimmed(lines[k]))->0).fence != fence) && (text::trimmed(lines[k]).len()
                    != fence || text::leading(text::trimmed(lines[k]), ':') != fence)
            &&& end < lines.len() ==> text::trimmed(lines[end]).len() == fence && text::leading(
                text::trimmed(lines[end]),
                ':',
            ) == fence && (myst::colon_directive(text::trimmed(lines[end])) is None)
        }),
        myst::block_at(l, lines, i).0.verdict is Ok,
    ensures
        myst::block_at(l, lines, i).1 == Block::Directive(
            (myst::colon_directive(text::trimmed(lines[i]))->0).kind,
            (myst::colon_directive(text::trimmed(lines[i]))->0).argument,
            end,
        ),
{
    lemma_colon_end(l, lines, i + 1, end, (myst::colon_directive(text::trimmed(lines[i]))->0).fence);
}

/// Three or more colons, a kind in braces and an argument open a directive of that kind with that argument.
pub proof fn law_colon_directives_are_read(n: nat, kind: Seq<char>, argument: Seq<char>)
    requires
        n >= 3,
        !kind.contains('}'),
        text::trimmed(kind) == kind,
        text::trimmed(argument) == argument,
    ensures
        myst::colon_directive(colons(n) + seq!['{'] + kind + seq!['}'] + argument) == Some(
            myst::Directive { fence: n, kind, argument },
        ),
{
    let line = colons(n) + seq!['{'] + kind + seq!['}'] + argument;
    lemma_leading(line, n);
    let rest = line.skip(n as int);
    assert(rest =~= seq!['{'] + kind + seq!['}'] + argument);
    let header = rest.skip(1);
    assert(header =~= kind + seq!['}'] + argument);
    assert forall|k: int| 0 <= k < kind.len() implies header[k] != '}' by {
        assert(header[k] == kind[k]);
        assert(kind.contains(kind[k]));
    }
    assert(header[kind.len() as int] == '}');
    lemma_first_position(header, '}', 0, kind.len() as int);
    assert(header.take(kind.len() as int) =~= kind);
    assert(header.skip(kind.len() as int + 1) =~= argument);
}

/// So many colons.
pub open spec fn colons(n: nat) -> Seq<char> {
    Seq::new(n, |k: int| ':')
}

proof fn lemma_leading(line: Seq<char>, n: nat)
    requires
        n < line.len(),
        forall|k: int| 0 <= k < n ==> line[k] == ':',
        line[n as int] != ':',
    ensures
        text::leading(line, ':') == n,
    decreases n,
{
    if n > 0 {
        let rest = line.skip(1);
        assert(line[0] == ':');
        assert(rest[n - 1] == line[n as int]);
        assert forall|k: int| 0 <= k < n - 1 implies rest[k] == ':' by {
            assert(line[k + 1] == ':');
        }
        lemma_leading(rest, (n - 1) as nat);
    }
}

/// Whether rendering from a line on renders a directive, and then goes on at another line.
pub open spec fn renders_directive(
    r: Render,
    lines: Seq<Seq<char>>,
    i: int,
    depth: nat,
    kind: Seq<char>,
    argument: Seq<char>,
    end: int,
) -> bool {
    exists|start: Render|
        start.text == r.text && myst::with_document(
            #[trigger] myst::with_directive(start, lines, i + 1, end, kind, argument, depth),
            lines,
            myst::after_line(lines, end),
            depth,
        ) == myst::with_document(r, lines, i, depth)
}

/// A directive that back quotes open ends at the first line of three of them; all that stands between is its own, and
/// the rendering goes on behind it.
#[verifier::spinoff_prover]
#[verifier::rlimit(100)]
pub proof fn law_rendering_goes_on_behind_fenced_directives(
    r: Render,
    lines: Seq<Seq<char>>,
    i: int,
    end: int,
    kind: Seq<char>,
    argument: Seq<char>,
    depth: nat,
)
    requires
        depth <= 64,
        0 <= i < end <= lines.len(),
        myst::is_supported(kind),
        !kind.contains('}'),
        text::trimmed(kind) == kind,
        text::trimmed(argument) == argument,
        opens(lines[i], kind, argument),
        forall|k: int| i < k < end ==> text::trimmed(#[trigger] lines[k]) != "```"@,
        end < lines.len() ==> text::trimmed(lines[end]) == "```"@,
        !myst::with_document(r, lines, i, depth).failed(),
    ensures
        renders_directive(r, lines, i, depth, kind, argument, end),
{
    let stepped = r.stepped();
    lemma_opened(lines[i], kind, argument);
    let (searched, block) = myst::block_at(stepped.ledger, lines, i);
    let next = myst::block_next(lines, i, block);
    let start = stepped.paid(searched);
    let after = myst::with_block(start, lines, i, block, depth);
    myst::lemma_block_advances(stepped.ledger, lines, i);
    assert(myst::with_document(after, lines, next, depth) == myst::with_document(r, lines, i, depth));
    if after.failed() {
        myst::lemma_document_stays_failed(after, lines, next, depth);
    }
    lemma_block_appends(start, lines, i, block, depth);
    lemma_closing_line(stepped.ledger, lines, i + 1, end, "```"@);
    assert(block == Block::Directive(kind, argument, end));
    assert(after == myst::with_directive(start, lines, i + 1, end, kind, argument, depth));
}

/// A directive that colons open ends at its fence; all that stands between is its own, and the rendering goes on behind
/// it.
#[verifier::spinoff_prover]
#[verifier::rlimit(100)]
pub proof fn law_rendering_goes_on_behind_colon_directives(
    r: Render,
    lines: Seq<Seq<char>>,
    i: int,
    end: int,
    depth: nat,
)
    requires
        depth <= 64,
        0 <= i < end <= lines.len(),
        myst::colon_directive(text::trimmed(lines[i])) is Some,
        myst::is_supported((myst::colon_directive(text::trimmed(lines[i]))->0).kind),
        ({
            let fence = (myst::colon_directive(text::trimmed(lines[i]))->0).fence;
            &&& forall|k: int|
                i + 1 <= k < end ==> (myst::colon_directive(text::trimmed(#[trigger] lines[k])) is None || (
                myst::colon_directive(text::trimmed(lines[k]))->0).fence != fence) && (text::trimmed(lines[k]).len()
                    != fence || text::leading(text::trimmed(lines[k]), ':') != fence)
            &&& end < lines.len() ==> text::trimmed(lines[end]).len() == fence && text::leading(
                text::trimmed(lines[end]),
                ':',
            ) == fence && (myst::colon_directive(text::trimmed(lines[end])) is None)
        }),
        !myst::with_document(r, lines, i, depth).failed(),
    ensures
        renders_directive(
            r,
            lines,
            i,
            depth,
            (myst::colon_directive(text::trimmed(lines[i]))->0).kind,
            (myst::colon_directive(text::trimmed(lines[i]))->0).argument,
            end,
        ),
{
    let stepped = r.stepped();
    let found = myst::colon_directive(text::trimmed(lines[i]))->0;
    let (searched, block) = myst::block_at(stepped.ledger, lines, i);
    let next = myst::block_next(lines, i, block);
    let start = stepped.paid(searched);
    let after = myst::with_block(start, lines, i, block, depth);
    myst::lemma_block_advances(stepped.ledger, lines, i);
    assert(myst::with_document(after, lines, next, depth) == myst::with_document(r, lines, i, depth));
    if after.failed() {
        myst::lemma_document_stays_failed(after, lines, next, depth);
    }
    lemma_block_appends(start, lines, i, block, depth);
    law_colon_directive_ends_at_its_fence(stepped.ledger, lines, i, end);
    assert(after == myst::with_directive(start, lines, i + 1, end, found.kind, found.argument, depth));
}

/// A target on a line of its own becomes its marker, and the rendering goes on with the next line.
#[verifier::spinoff_prover]
#[verifier::rlimit(100)]
pub proof fn law_targets_become_markers(r: Render, lines: Seq<Seq<char>>, i: int, name: Seq<char>, depth: nat)
    requires
        depth <= 64,
        0 <= i < lines.len(),
        myst::valid_target(name),
        text::trimmed(lines[i]) == seq!['('] + name + seq![')', '='],
        !myst::with_document(r, lines, i, depth).failed(),
    ensures
        goes_on(r, lines, i, depth, "<!--xberg-myst-target:"@ + name + "-->\n\n"@, i + 1),
{
    let stepped = r.stepped();
    let t = text::trimmed(lines[i]);
    law_target_lines_are_read(name);
    reveal_strlit("```{");
    reveal_strlit("```");
    reveal_strlit("~~~");
    assert(t[0] == '(');
    assert("```{"@[0] == '`' && "```"@[0] == '`' && "~~~"@[0] == '~');
    assert("```{"@.len() == 4 && "```"@.len() == 3 && "~~~"@.len() == 3);
    assert(t.len() >= 3 ==> t.subrange(0, 3)[0] == t[0]);
    assert(t.len() >= 4 ==> t.subrange(0, 4)[0] == t[0]);
    assert(myst::colon_directive(t) is None);
    assert(myst::fenced_directive(t) is None);
    let (searched, block) = myst::block_at(stepped.ledger, lines, i);
    assert(block == Block::Target(name));
    let start = stepped.paid(searched);
    let after = myst::with_block(start, lines, i, block, depth);
    assert(myst::with_document(after, lines, i + 1, depth) == myst::with_document(r, lines, i, depth));
    if after.failed() {
        myst::lemma_document_stays_failed(after, lines, i + 1, depth);
    }
    lemma_with_target(start, Some(name));
}

} // verus!
