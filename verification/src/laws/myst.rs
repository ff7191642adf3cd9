//! Laws of extended Markdown.
use crate::laws::text::{fed, law_lines_are_read_back, law_trimmed_text_stays};
use crate::myst;
use crate::myst::{Block, Render};
use crate::security::{Ledger, SecurityBudget};
use crate::text;
use vstd::prelude::*;

verus! {

/// Whether a text begins with another.
pub open spec fn begins(s: Seq<char>, head: Seq<char>) -> bool {
    head.len() <= s.len() && s.take(head.len() as int) == head
}

pub proof fn lemma_begins(a: Seq<char>, b: Seq<char>)
    ensures
        begins(a + b, a),
{
    assert((a + b).take(a.len() as int) =~= a);
}

proof fn lemma_begins_in_turn(a: Seq<char>, b: Seq<char>, c: Seq<char>)
    requires
        begins(b, a),
        begins(c, b),
    ensures
        begins(c, a),
{
    assert(c.take(a.len() as int) =~= b.take(a.len() as int)) by {
        assert forall|k: int| 0 <= k < a.len() implies c[k] == b[k] by {
            assert(c.take(b.len() as int)[k] == b[k]);
        }
    }
}

/// Lines, each after a text and followed by a line feed.
pub open spec fn prefixed(prefix: Seq<char>, lines: Seq<Seq<char>>) -> Seq<char> {
    fed(lines.map_values(|line: Seq<char>| prefix + line))
}

pub proof fn lemma_line_feed()
    ensures
        "\n"@ == seq!['\n'],
{
    reveal_strlit("\n");
    assert("\n"@ =~= seq!['\n']);
}

pub proof fn lemma_with_lines(r: Render, prefix: Seq<char>, lines: Seq<Seq<char>>)
    requires
        !r.with_lines(prefix, lines).failed(),
    ensures
        !r.failed(),
        r.with_lines(prefix, lines).text == r.text + prefixed(prefix, lines),
    decreases lines.len(),
{
    broadcast use myst::lemma_appended;

    let all = lines.map_values(|line: Seq<char>| prefix + line);
    if lines.len() == 0 {
        assert(r.text + prefixed(prefix, lines) =~= r.text);
    } else {
        lemma_line_feed();
        let init = lines.drop_last();
        lemma_with_lines(r, prefix, init);
        assert(all.drop_last() =~= init.map_values(|line: Seq<char>| prefix + line));
        assert(all.last() == prefix + lines.last());
        assert(r.with_lines(prefix, lines).text =~= r.text + fed(all.drop_last()) + (prefix + lines.last()).push('\n'));
        assert(r.with_lines(prefix, lines).text =~= r.text + prefixed(prefix, lines));
    }
}

pub proof fn lemma_no_prefix(lines: Seq<Seq<char>>)
    ensures
        prefixed(Seq::empty(), lines) == fed(lines),
{
    let all = lines.map_values(|line: Seq<char>| Seq::<char>::empty() + line);
    assert forall|k: int| 0 <= k < lines.len() implies all[k] == lines[k] by {
        assert(Seq::<char>::empty() + lines[k] =~= lines[k]);
    }
    assert(all =~= lines);
}

pub proof fn lemma_with_joined(r: Render, lines: Seq<Seq<char>>)
    requires
        !r.with_joined(lines).failed(),
    ensures
        !r.failed(),
        r.with_joined(lines).text == r.text + text::join(lines, seq!['\n']),
    decreases lines.len(),
{
    broadcast use myst::lemma_appended;

    if lines.len() == 0 {
        assert(r.text + text::join(lines, seq!['\n']) =~= r.text);
    } else {
        lemma_line_feed();
        lemma_with_joined(r, lines.drop_last());
        if lines.len() == 1 {
            assert(r.text + text::join(lines.drop_last(), seq!['\n']) =~= r.text);
        }
        assert(r.with_joined(lines).text =~= r.text + text::join(lines, seq!['\n']));
    }
}

/// The marker of a target, if it is valid.
pub open spec fn marker(target: Option<Seq<char>>) -> Seq<char> {
    match target {
        Some(name) => if myst::valid_target(name) {
            "<!--xberg-myst-target:"@ + name + "-->\n\n"@
        } else {
            Seq::empty()
        },
        None => Seq::empty(),
    }
}

#[verifier::spinoff_prover]
#[verifier::rlimit(60)]
pub proof fn lemma_with_target(r: Render, target: Option<Seq<char>>)
    requires
        !r.with_optional_target(target).failed(),
    ensures
        !r.failed(),
        r.with_optional_target(target).text == r.text + marker(target),
{
    broadcast use myst::lemma_appended;

    reveal_strlit("-->");
    reveal_strlit("\n\n");
    reveal_strlit("-->\n\n");
    assert("-->"@ + "\n\n"@ =~= "-->\n\n"@);
    match target {
        Some(name) => {
            if myst::valid_target(name) {
                assert(r.text + "<!--xberg-myst-target:"@ + name + "-->"@ + "\n\n"@ =~= r.text
                    + ("<!--xberg-myst-target:"@ + name + ("-->"@ + "\n\n"@)));
            } else {
                assert(r.text + marker(target) =~= r.text);
            }
        },
        None => {
            assert(r.text + marker(target) =~= r.text);
        },
    }
}

/// A caption and the blank line below it, if there is one.
pub open spec fn captioned(caption: Option<Seq<char>>) -> Seq<char> {
    match caption {
        Some(t) => t + "\n\n"@,
        None => Seq::empty(),
    }
}

/// A block of code between its fences, with the caption and the target above it.
#[verifier::spinoff_prover]
#[verifier::rlimit(60)]
proof fn lemma_with_code(r: Render, body: Seq<Seq<char>>, language: Seq<char>, options: Seq<(Seq<char>, Seq<char>)>)
    requires
        !myst::with_code(r, body, language, options).failed(),
    ensures
        !r.failed(),
        myst::with_code(r, body, language, options).text == r.text + (captioned(
            myst::option_of(options, "caption"@),
        ) + marker(myst::option_or(options, "name"@, "label"@)) + ("```"@ + language + "\n"@ + fed(body) + "```\n\n"@)),
{
    broadcast use myst::lemma_appended;

    let caption = myst::option_of(options, "caption"@);
    let target = myst::option_or(options, "name"@, "label"@);
    let first = match caption {
        Some(t) => r.appended(t).appended("\n\n"@),
        None => r,
    };
    let second = first.with_optional_target(target);
    let third = second.appended("```"@).appended(language).appended("\n"@);
    let fourth = third.with_lines(Seq::empty(), body);
    assert(!fourth.failed());
    lemma_with_lines(third, Seq::empty(), body);
    lemma_no_prefix(body);
    assert(!second.failed());
    lemma_with_target(first, target);
    assert(first.text =~= r.text + captioned(caption));
    let code = "```"@ + language + "\n"@ + fed(body) + "```\n\n"@;
    assert(third.text == second.text + "```"@ + language + "\n"@);
    assert(myst::with_code(r, body, language, options).text == third.text + fed(body) + "```\n\n"@);
    assert(third.text + fed(body) + "```\n\n"@ =~= second.text + code);
    assert(second.text + code =~= r.text + (captioned(caption) + marker(target) + code));
}

/// The options that lines give.
pub open spec fn options_on(lines: Seq<Seq<char>>) -> Seq<(Seq<char>, Seq<char>)> {
    lines.map_values(|line: Seq<char>| myst::option_on_line(line)->0)
}

/// Whether the options of a directive are these lines: each gives an option, and the line after them gives none.
pub open spec fn are_options(lines: Seq<Seq<char>>, start: int, end: int, body_start: int) -> bool {
    &&& 0 <= start <= body_start <= end <= lines.len()
    &&& forall|k: int| start <= k < body_start ==> #[trigger] myst::option_on_line(lines[k]) is Some
    &&& body_start < end ==> myst::option_on_line(lines[body_start]) is None
}

pub proof fn lemma_options(
    l: Ledger,
    lines: Seq<Seq<char>>,
    start: int,
    end: int,
    body_start: int,
    found: Seq<(Seq<char>, Seq<char>)>,
)
    requires
        are_options(lines, start, end, body_start),
    ensures
        ({
            let read = myst::directive_options(l, lines, start, end, found);
            read.0.verdict is Ok ==> read.1 == found + options_on(lines.subrange(start, body_start)) && read.2
                == body_start
        }),
    decreases end - start,
{
    let own = lines.subrange(start, body_start);
    if start < body_start {
        let entry = myst::option_on_line(lines[start])->0;
        lemma_options(l.stepped(), lines, start + 1, end, body_start, found.push(entry));
        let rest = lines.subrange(start + 1, body_start);
        assert(found.push(entry) + options_on(rest) =~= found + options_on(own)) by {
            assert(own[0] == lines[start]);
            assert forall|k: int| 0 <= k < rest.len() implies options_on(rest)[k] == options_on(own)[k + 1] by {
                assert(rest[k] == own[k + 1]);
            }
        }
    } else {
        assert(found + options_on(own) =~= found);
    }
}

/// Every line of a directive of code after its options stands between the fences of a block of code, unchanged, in
/// order, and each followed by a line feed. Its caption and the marker of its target stand above the block.
#[verifier::spinoff_prover]
#[verifier::rlimit(100)]
pub proof fn law_code_keeps_every_line(
    r: Render,
    lines: Seq<Seq<char>>,
    start: int,
    end: int,
    body_start: int,
    kind: Seq<char>,
    language: Seq<char>,
    depth: nat,
)
    requires
        depth <= 64,
        kind == "code-block"@ || kind == "code-cell"@,
        are_options(lines, start, end, body_start),
        !myst::with_directive(r, lines, start, end, kind, language, depth).failed(),
    ensures
        ({
            let options = options_on(lines.subrange(start, body_start));
            myst::with_directive(r, lines, start, end, kind, language, depth).text == r.text + (captioned(
                myst::option_of(options, "caption"@),
            ) + marker(myst::option_or(options, "name"@, "label"@)) + ("```"@ + language + "\n"@ + fed(
                lines.subrange(body_start, end),
            ) + "```\n\n"@))
        }),
{
    broadcast use myst::lemma_appended;

    lemma_options(r.ledger, lines, start, end, body_start, Seq::empty());
    let options = options_on(lines.subrange(start, body_start));
    assert(Seq::empty() + options =~= options);
    lemma_kinds_differ();
    let paid = r.paid(myst::directive_options(r.ledger, lines, start, end, Seq::empty()).0);
    lemma_with_code(paid, lines.subrange(body_start, end), language, options);
}

pub proof fn lemma_kinds_differ()
    ensures
        "math"@.len() == 4,
        "code-block"@.len() == 10,
        "code-cell"@.len() == 9,
        "image"@.len() == 5,
        "figure"@.len() == 6,
        "table"@.len() == 5,
        "image"@ != "table"@,
        "note"@.len() == 4,
        "note"@ != "math"@,
{
    reveal_strlit("math");
    reveal_strlit("code-block");
    reveal_strlit("code-cell");
    reveal_strlit("image");
    reveal_strlit("figure");
    reveal_strlit("table");
    reveal_strlit("note");
    assert("image"@[0] != "table"@[0]);
    assert("math"@[0] != "note"@[0]);
}

/// The lines of a formula after its options stand between two pairs of dollar signs, in order, with line feeds between
/// them.
#[verifier::spinoff_prover]
#[verifier::rlimit(100)]
pub proof fn law_math_keeps_every_line(
    r: Render,
    lines: Seq<Seq<char>>,
    start: int,
    end: int,
    body_start: int,
    argument: Seq<char>,
    depth: nat,
)
    requires
        depth <= 64,
        are_options(lines, start, end, body_start),
        !myst::with_directive(r, lines, start, end, "math"@, argument, depth).failed(),
    ensures
        ({
            let options = options_on(lines.subrange(start, body_start));
            myst::with_directive(r, lines, start, end, "math"@, argument, depth).text == r.text + (marker(
                myst::option_or(options, "label"@, "name"@),
            ) + ("$$"@ + text::join(lines.subrange(body_start, end), seq!['\n']) + "$$\n\n"@))
        }),
{
    broadcast use myst::lemma_appended;

    lemma_options(r.ledger, lines, start, end, body_start, Seq::empty());
    let options = options_on(lines.subrange(start, body_start));
    assert(Seq::empty() + options =~= options);
    let paid = r.paid(myst::directive_options(r.ledger, lines, start, end, Seq::empty()).0);
    let body = lines.subrange(body_start, end);
    let target = myst::option_or(options, "label"@, "name"@);
    let first = paid.with_optional_target(target);
    let second = first.appended("$$"@);
    let third = second.with_joined(body);
    assert(!third.failed());
    lemma_with_joined(second, body);
    lemma_with_target(paid, target);
    let formula = "$$"@ + text::join(body, seq!['\n']) + "$$\n\n"@;
    assert(myst::with_directive(r, lines, start, end, "math"@, argument, depth).text == r.text + marker(target) + "$$"@
        + text::join(body, seq!['\n']) + "$$\n\n"@);
    assert(r.text + marker(target) + "$$"@ + text::join(body, seq!['\n']) + "$$\n\n"@ =~= r.text + (marker(target)
        + formula));
}

/// An image links to its source, under the text that it has for those who cannot see it, or else its source.
#[verifier::spinoff_prover]
#[verifier::rlimit(100)]
pub proof fn law_image_links_to_its_source(
    r: Render,
    lines: Seq<Seq<char>>,
    start: int,
    end: int,
    body_start: int,
    source: Seq<char>,
    depth: nat,
)
    requires
        depth <= 64,
        are_options(lines, start, end, body_start),
        !myst::with_directive(r, lines, start, end, "image"@, source, depth).failed(),
    ensures
        ({
            let options = options_on(lines.subrange(start, body_start));
            let alt = myst::option_of(options, "alt"@);
            let label = if alt is Some {
                alt->0
            } else {
                source
            };
            myst::with_directive(r, lines, start, end, "image"@, source, depth).text == r.text + (marker(
                myst::option_of(options, "name"@),
            ) + ("!["@ + label + "]("@ + source + ")\n\n"@))
        }),
{
    broadcast use myst::lemma_appended;

    lemma_options(r.ledger, lines, start, end, body_start, Seq::empty());
    let options = options_on(lines.subrange(start, body_start));
    assert(Seq::empty() + options =~= options);
    lemma_kinds_differ();
    let paid = r.paid(myst::directive_options(r.ledger, lines, start, end, Seq::empty()).0);
    let target = myst::option_of(options, "name"@);
    lemma_with_target(paid, target);
    let alt = myst::option_of(options, "alt"@);
    let label = if alt is Some {
        alt->0
    } else {
        source
    };
    assert(r.text + marker(target) + "!["@ + label + "]("@ + source + ")\n\n"@ =~= r.text + (marker(target) + ("!["@
        + label + "]("@ + source + ")\n\n"@)));
}

pub proof fn lemma_closing_line(l: Ledger, lines: Seq<Seq<char>>, i: int, end: int, delimiter: Seq<char>)
    requires
        0 <= i <= end <= lines.len(),
        forall|k: int| i <= k < end ==> text::trimmed(#[trigger] lines[k]) != delimiter,
        end < lines.len() ==> text::trimmed(lines[end]) == delimiter,
    ensures
        myst::closing_line(l, lines, i, delimiter).0.verdict is Ok ==> myst::closing_line(l, lines, i, delimiter).1
            == end,
    decreases end - i,
{
    if i < end {
        lemma_closing_line(l.stepped(), lines, i + 1, end, delimiter);
    }
}

/// Whether a line opens a directive with a fence of back quotes.
pub open spec fn opens(line: Seq<char>, kind: Seq<char>, argument: Seq<char>) -> bool {
    text::trimmed(line) == opening(kind, argument)
}

#[verifier::spinoff_prover]
#[verifier::rlimit(60)]
pub proof fn lemma_opened(line: Seq<char>, kind: Seq<char>, argument: Seq<char>)
    requires
        opens(line, kind, argument),
        !kind.contains('}'),
        text::trimmed(kind) == kind,
        text::trimmed(argument) == argument,
    ensures
        myst::fenced_directive(text::trimmed(line)) == Some((kind, argument)),
        myst::colon_directive(text::trimmed(line)) is None,
{
    reveal_strlit("```{");
    reveal_strlit("}");
    let t = text::trimmed(line);
    assert("```{"@.len() == 4 && "```{"@[0] == '`');
    assert(t.subrange(0, 4) =~= "```{"@);
    let header = t.skip(4);
    assert(header =~= kind + "}"@ + argument);
    assert forall|k: int| 0 <= k < kind.len() implies header[k] != '}' by {
        assert(header[k] == kind[k]);
        assert(kind.contains(kind[k]));
    }
    assert(header[kind.len() as int] == '}');
    lemma_first_position(header, '}', 0, kind.len() as int);
    assert(header.take(kind.len() as int) =~= kind);
    assert(header.skip(kind.len() as int + 1) =~= argument);
    assert(t[0] == '`');
}

pub proof fn lemma_first_position(s: Seq<char>, c: char, from: int, p: int)
    requires
        0 <= from <= p < s.len(),
        s[p] == c,
        forall|k: int| from <= k < p ==> s[k] != c,
    ensures
        text::position_of(s, c, from) == Some(p),
    decreases p - from,
{
    if from < p {
        lemma_first_position(s, c, from + 1, p);
    }
}

proof fn lemma_roles_stay_failed(r: Render, line: Seq<char>, cursor: int)
    requires
        r.failed(),
    ensures
        myst::with_roles(r, line, cursor).failed(),
    decreases line.len() - cursor,
{
    broadcast use myst::lemma_appended;

    if 0 <= cursor <= line.len() {
        crate::laws::text::law_position_is_the_first(line, '{', cursor);
        match text::position_of(line, '{', cursor) {
            None => {},
            Some(p) => {
                let before = r.stepped().appended(line.subrange(cursor, p));
                match myst::role_at(line, p) {
                    None => {
                        lemma_roles_stay_failed(before.appended("{"@), line, p + 1);
                    },
                    Some((length, prefix)) => {
                        crate::laws::text::law_position_is_the_first(line, '`', p + length);
                        if let Some(end) = text::position_of(line, '`', p + length) {
                            let linked = myst::with_role(before, line.subrange(p + length, end), prefix);
                            lemma_roles_stay_failed(linked, line, end + 1);
                        }
                    },
                }
            },
        }
    }
}

#[verifier::spinoff_prover]
#[verifier::rlimit(100)]
proof fn lemma_nested_needs(r: Render, lines: Seq<Seq<char>>, depth: nat)
    requires
        depth <= 64,
        r.failed(),
    ensures
        myst::nested_body(r, lines, depth).failed(),
{
}

proof fn lemma_body_is_added(r: Render, body: Render)
    requires
        !body.failed(),
    ensures
        begins(myst::added_to(r, body).text, r.text) || myst::added_to(r, body).failed(),
        ({
            let quoted = Render { text: r.text, ..body }.with_lines("> "@, text::lines_of(body.text)).appended("\n"@);
            quoted.failed() || begins(quoted.text, r.text)
        }),
{
    broadcast use myst::lemma_appended;

    lemma_begins(r.text, body.text);
    let kept = Render { text: r.text, ..body };
    let quoted = kept.with_lines("> "@, text::lines_of(body.text));
    if !quoted.appended("\n"@).failed() {
        lemma_with_lines(kept, "> "@, text::lines_of(body.text));
        let more = prefixed("> "@, text::lines_of(body.text));
        lemma_begins(r.text, more + "\n"@);
        assert(r.text + more + "\n"@ =~= r.text + (more + "\n"@));
    }
}

#[verifier::spinoff_prover]
#[verifier::rlimit(100)]
proof fn lemma_nested_appends(r: Render, lines: Seq<Seq<char>>, depth: nat)
    requires
        depth <= 64,
    ensures
        !myst::with_nested(r, lines, depth).failed() ==> !r.failed() && begins(
            myst::with_nested(r, lines, depth).text,
            r.text,
        ),
        !myst::with_quoted(r, lines, depth).failed() ==> !r.failed() && begins(
            myst::with_quoted(r, lines, depth).text,
            r.text,
        ),
{
    let body = myst::nested_body(r, lines, depth);
    if r.failed() {
        lemma_nested_needs(r, lines, depth);
    }
    if !body.failed() {
        lemma_body_is_added(r, body);
    }
}

proof fn lemma_appended_begins(r: Render, t: Seq<char>, base: Seq<char>)
    requires
        !r.appended(t).failed(),
        begins(r.text, base),
    ensures
        !r.failed(),
        begins(r.appended(t).text, base),
{
    broadcast use myst::lemma_appended;

    lemma_begins(r.text, t);
    lemma_begins_in_turn(base, r.text, r.text + t);
}

#[verifier::spinoff_prover]
#[verifier::rlimit(60)]
proof fn lemma_image_appends(r: Render, source: Seq<char>, options: Seq<(Seq<char>, Seq<char>)>)
    ensures
        !myst::with_image(r, source, options).failed() ==> !r.failed() && begins(
            myst::with_image(r, source, options).text,
            r.text,
        ),
{
    broadcast use myst::lemma_appended;

    if !myst::with_image(r, source, options).failed() {
        let target = myst::option_of(options, "name"@);
        let alt = match myst::option_of(options, "alt"@) {
            Some(alt) => alt,
            None => source,
        };
        lemma_with_target(r, target);
        let more = marker(target) + "!["@ + alt + "]("@ + source + ")\n\n"@;
        lemma_begins(r.text, more);
        assert(r.text + marker(target) + "!["@ + alt + "]("@ + source + ")\n\n"@ =~= r.text + more);
    }
}

#[verifier::spinoff_prover]
#[verifier::rlimit(60)]
proof fn lemma_heads_append(r: Render, kind: Seq<char>, argument: Seq<char>, options: Seq<(Seq<char>, Seq<char>)>)
    ensures
        !myst::with_table_head(r, argument, options).failed() ==> !r.failed() && begins(
            myst::with_table_head(r, argument, options).text,
            r.text,
        ),
        !myst::with_admonition_head(r, kind, argument, options).failed() ==> !r.failed() && begins(
            myst::with_admonition_head(r, kind, argument, options).text,
            r.text,
        ),
{
    broadcast use myst::lemma_appended;

    if !myst::with_table_head(r, argument, options).failed() {
        let titled = if argument.len() > 0 {
            r.appended(argument).appended("\n\n"@)
        } else {
            r
        };
        lemma_with_target(titled, myst::option_of(options, "name"@));
        lemma_begins(titled.text, marker(myst::option_of(options, "name"@)));
        if argument.len() > 0 {
            lemma_begins(r.text, argument + "\n\n"@);
            assert(r.text + argument + "\n\n"@ =~= r.text + (argument + "\n\n"@));
        } else {
            lemma_begins(r.text, Seq::empty());
            assert(r.text + Seq::<char>::empty() =~= r.text);
        }
        lemma_begins_in_turn(r.text, titled.text, myst::with_table_head(r, argument, options).text);
    }
    if !myst::with_admonition_head(r, kind, argument, options).failed() {
        lemma_admonition_head(r, kind, argument, options);
        lemma_begins(r.text, admonition_above(kind, argument, options));
    }
}

/// What stands above the body of an admonition: the marker of its target, the kind of alert, and a marker with its
/// kind and its title.
pub open spec fn admonition_above(
    kind: Seq<char>,
    argument: Seq<char>,
    options: Seq<(Seq<char>, Seq<char>)>,
) -> Seq<char> {
    let title = myst::admonition_title(kind, argument, options);
    marker(myst::option_or(options, "name"@, "label"@)) + ("> [!"@ + myst::alert_kind(myst::semantic_kind(kind))
        + "]\n> "@ + "\u{e000}xberg-myst-admonition:"@ + myst::semantic_kind(kind) + "\u{1f}"@ + (if title.contains(
        '\u{1f}',
    ) || title.contains('\u{e001}') {
        Seq::empty()
    } else {
        title
    }) + "\u{e001}"@ + "\n>\n"@)
}

#[verifier::spinoff_prover]
#[verifier::rlimit(60)]
pub proof fn lemma_admonition_head(r: Render, kind: Seq<char>, argument: Seq<char>, options: Seq<(Seq<char>, Seq<char>)>)
    requires
        !myst::with_admonition_head(r, kind, argument, options).failed(),
    ensures
        !r.failed(),
        myst::with_admonition_head(r, kind, argument, options).text == r.text + admonition_above(
            kind,
            argument,
            options,
        ),
{
    broadcast use myst::lemma_appended;

    let title = myst::admonition_title(kind, argument, options);
    let shown = if title.contains('\u{1f}') || title.contains('\u{e001}') {
        Seq::<char>::empty()
    } else {
        title
    };
    let target = myst::option_or(options, "name"@, "label"@);
    let named = myst::semantic_kind(kind);
    let first = r.with_optional_target(target);
    let marked = first.appended("> [!"@).appended(myst::alert_kind(named)).appended("]\n> "@).appended(
        "\u{e000}xberg-myst-admonition:"@,
    ).appended(named).appended("\u{1f}"@);
    assert(!marked.failed());
    lemma_with_target(r, target);
    let shell = "> [!"@ + myst::alert_kind(named) + "]\n> "@ + "\u{e000}xberg-myst-admonition:"@ + named + "\u{1f}"@;
    assert(marked.text =~= r.text + marker(target) + shell);
    assert(marked.text + Seq::<char>::empty() =~= marked.text);
    assert(myst::with_admonition_head(r, kind, argument, options).text =~= marked.text + shown + "\u{e001}"@ + "\n>\n"@);
    assert(marked.text + shown + "\u{e001}"@ + "\n>\n"@ =~= r.text + (marker(target) + (shell + shown + "\u{e001}"@
        + "\n>\n"@)));
}

#[verifier::spinoff_prover]
#[verifier::rlimit(100)]
proof fn lemma_directive_appends(
    r: Render,
    lines: Seq<Seq<char>>,
    start: int,
    end: int,
    kind: Seq<char>,
    argument: Seq<char>,
    depth: nat,
)
    requires
        depth <= 64,
        !myst::with_directive(r, lines, start, end, kind, argument, depth).failed(),
    ensures
        !r.failed(),
        begins(myst::with_directive(r, lines, start, end, kind, argument, depth).text, r.text),
{
    broadcast use myst::lemma_appended;

    let (ledger, options, body_start) = myst::directive_options(r.ledger, lines, start, end, Seq::empty());
    let paid = r.paid(ledger);
    let body = lines.subrange(body_start, end);
    let after = myst::with_directive(r, lines, start, end, kind, argument, depth);
    assert(!r.failed() && !paid.failed());
    if kind == "math"@ {
        let target = myst::option_or(options, "label"@, "name"@);
        let second = paid.with_optional_target(target).appended("$$"@);
        let third = second.with_joined(body);
        assert(!third.failed());
        lemma_with_joined(second, body);
        lemma_with_target(paid, target);
        let more = marker(target) + "$$"@ + text::join(body, seq!['\n']) + "$$\n\n"@;
        lemma_begins(r.text, more);
        assert(r.text + marker(target) + "$$"@ + text::join(body, seq!['\n']) + "$$\n\n"@ =~= r.text + more);
    } else if kind == "code-cell"@ || kind == "code-block"@ {
        lemma_with_code(paid, body, argument, options);
        lemma_begins(
            r.text,
            captioned(myst::option_of(options, "caption"@)) + marker(myst::option_or(options, "name"@, "label"@)) + (
            "```"@ + argument + "\n"@ + fed(body) + "```\n\n"@),
        );
    } else if kind == "image"@ || kind == "figure"@ {
        let image = myst::with_image(paid, argument, options);
        lemma_image_appends(paid, argument, options);
        if kind == "figure"@ && body.len() > 0 {
            lemma_nested_appends(image, body, depth);
            let nested = myst::with_nested(image, body, depth);
            lemma_begins_in_turn(r.text, image.text, nested.text);
            lemma_appended_begins(nested, "\n"@, r.text);
        }
    } else if kind == "table"@ {
        let head = myst::with_table_head(paid, argument, options);
        lemma_heads_append(paid, kind, argument, options);
        lemma_nested_appends(head, body, depth);
        let nested = myst::with_nested(head, body, depth);
        lemma_begins_in_turn(r.text, head.text, nested.text);
        lemma_appended_begins(nested, "\n"@, r.text);
    } else {
        let head = myst::with_admonition_head(paid, kind, argument, options);
        lemma_heads_append(paid, kind, argument, options);
        lemma_nested_appends(head, body, depth);
        lemma_begins_in_turn(r.text, head.text, after.text);
    }
}

#[verifier::spinoff_prover]
#[verifier::rlimit(100)]
pub proof fn lemma_block_appends(r: Render, lines: Seq<Seq<char>>, i: int, block: Block, depth: nat)
    requires
        depth <= 64,
        !myst::with_block(r, lines, i, block, depth).failed(),
    ensures
        !r.failed(),
        begins(myst::with_block(r, lines, i, block, depth).text, r.text),
{
    broadcast use myst::lemma_appended;

    match block {
        Block::Directive(kind, argument, end) => {
            lemma_directive_appends(r, lines, i + 1, end, kind, argument, depth);
        },
        Block::Fence(next) => {
            lemma_with_lines(r, Seq::empty(), lines.subrange(i, next));
            lemma_begins(r.text, prefixed(Seq::empty(), lines.subrange(i, next)));
        },
        Block::Target(target) => {
            lemma_with_target(r, Some(target));
            lemma_begins(r.text, marker(Some(target)));
        },
        Block::Line => {
            if r.failed() {
                lemma_roles_stay_failed(myst::blank_after(r), lines[i], 0);
            }
            let apart = myst::with_roles(myst::blank_after(r), lines[i], 0);
            lemma_begins(r.text, apart.text + "\n"@);
            assert(r.text + apart.text + "\n"@ =~= r.text + (apart.text + "\n"@));
        },
    }
}

/// Rendering goes on behind what was rendered before: it takes nothing back.
#[verifier::spinoff_prover]
#[verifier::rlimit(100)]
pub proof fn law_rendering_only_appends(r: Render, lines: Seq<Seq<char>>, i: int, depth: nat)
    requires
        depth <= 64,
        0 <= i <= lines.len(),
        !myst::with_document(r, lines, i, depth).failed(),
    ensures
        begins(myst::with_document(r, lines, i, depth).text, r.text),
    decreases lines.len() - i,
{
    broadcast use myst::lemma_appended;

    if i == lines.len() {
        assert(r.text.take(r.text.len() as int) =~= r.text);
    } else {
        let stepped = r.stepped();
        let (searched, block) = myst::block_at(stepped.ledger, lines, i);
        let next = myst::block_next(lines, i, block);
        let start = stepped.paid(searched);
        let after = myst::with_block(start, lines, i, block, depth);
        myst::lemma_block_advances(stepped.ledger, lines, i);
        if after.failed() {
            myst::lemma_document_stays_failed(after, lines, next, depth);
        }
        lemma_block_appends(start, lines, i, block, depth);
        law_rendering_only_appends(after, lines, next, depth);
        lemma_begins_in_turn(r.text, after.text, myst::with_document(after, lines, next, depth).text);
    }
}

/// Wherever a directive of code stands in a document, whose fence closes it at the first line of three back quotes,
/// the rendering goes on with a block of code that holds every line of the body, unchanged and in order, and then with
/// what follows the directive.
#[verifier::spinoff_prover]
#[verifier::rlimit(100)]
pub proof fn law_code_directive_becomes_a_block_of_code(
    r: Render,
    lines: Seq<Seq<char>>,
    i: int,
    end: int,
    body_start: int,
    kind: Seq<char>,
    language: Seq<char>,
    depth: nat,
)
    requires
        depth <= 64,
        0 <= i < lines.len(),
        kind == "code-block"@ || kind == "code-cell"@,
        text::trimmed(language) == language,
        opens(lines[i], kind, language),
        are_options(lines, i + 1, end, body_start),
        forall|k: int| i < k < end ==> text::trimmed(#[trigger] lines[k]) != "```"@,
        end < lines.len() ==> text::trimmed(lines[end]) == "```"@,
        !myst::with_document(r, lines, i, depth).failed(),
    ensures
        ({
            let options = options_on(lines.subrange(i + 1, body_start));
            let code = captioned(myst::option_of(options, "caption"@)) + marker(
                myst::option_or(options, "name"@, "label"@),
            ) + ("```"@ + language + "\n"@ + fed(lines.subrange(body_start, end)) + "```\n\n"@);
            &&& begins(myst::with_document(r, lines, i, depth).text, r.text + code)
            &&& goes_on(r, lines, i, depth, code, myst::after_line(lines, end))
            &&& end >= lines.len() - 1 ==> myst::with_document(r, lines, i, depth).text == r.text + code
        }),
{
    broadcast use myst::lemma_appended;

    let stepped = r.stepped();
    lemma_kind_is_plain(kind);
    lemma_opened(lines[i], kind, language);
    let (searched, block) = myst::block_at(stepped.ledger, lines, i);
    let next = myst::block_next(lines, i, block);
    let start = stepped.paid(searched);
    let after = myst::with_block(start, lines, i, block, depth);
    myst::lemma_block_advances(stepped.ledger, lines, i);
    if after.failed() {
        myst::lemma_document_stays_failed(after, lines, next, depth);
    }
    lemma_block_appends(start, lines, i, block, depth);
    lemma_closing_line(stepped.ledger, lines, i + 1, end, "```"@);
    assert(block == Block::Directive(kind, language, end));
    law_code_keeps_every_line(start, lines, i + 1, end, body_start, kind, language, depth);
    law_rendering_only_appends(after, lines, next, depth);
    assert(myst::with_document(after, lines, next, depth) == myst::with_document(r, lines, i, depth));
}

/// Whether rendering from a line on adds a text and goes on at another line.
pub open spec fn goes_on(
    r: Render,
    lines: Seq<Seq<char>>,
    i: int,
    depth: nat,
    more: Seq<char>,
    next: int,
) -> bool {
    exists|later: Render| #[trigger]
        myst::with_document(later, lines, next, depth) == myst::with_document(r, lines, i, depth) && later.text == r.text
            + more
}

/// A line without extensions of Markdown that opens no block of code passes unchanged, and the rendering goes on with
/// the next line.
#[verifier::spinoff_prover]
#[verifier::rlimit(100)]
pub proof fn law_text_lines_pass_unchanged(r: Render, lines: Seq<Seq<char>>, i: int, depth: nat)
    requires
        depth <= 64,
        0 <= i < lines.len(),
        myst::is_plain(lines[i]),
        !text::occurs_at(text::trimmed(lines[i]), "```"@, 0),
        !text::occurs_at(text::trimmed(lines[i]), "~~~"@, 0),
        !myst::with_document(r, lines, i, depth).failed(),
    ensures
        goes_on(r, lines, i, depth, lines[i].push('\n'), i + 1),
{
    let stepped = r.stepped();
    let (searched, block) = myst::block_at(stepped.ledger, lines, i);
    let start = stepped.paid(searched);
    let after = myst::with_block(start, lines, i, block, depth);
    myst::lemma_block_advances(stepped.ledger, lines, i);
    myst::lemma_plain_block(stepped.ledger, lines, i);
    assert(block is Line);
    assert(myst::with_document(after, lines, i + 1, depth) == myst::with_document(r, lines, i, depth));
    if after.failed() {
        myst::lemma_document_stays_failed(after, lines, i + 1, depth);
    }
    myst::lemma_plain_block_keeps(start, lines, i, block, depth);
    let own = lines.subrange(i, i + 1);
    assert(own =~= seq![lines[i]]);
    assert(own.drop_last() =~= Seq::empty());
    lemma_line_feed();
    assert(myst::ended(own.drop_last()) =~= Seq::<char>::empty());
    assert(myst::ended(own) =~= lines[i].push('\n'));
}

/// A text with an image.
#[verifier::spinoff_prover]
#[verifier::rlimit(60)]
pub proof fn lemma_with_image(r: Render, source: Seq<char>, options: Seq<(Seq<char>, Seq<char>)>)
    requires
        !myst::with_image(r, source, options).failed(),
    ensures
        ({
            let alt = myst::option_of(options, "alt"@);
            let label = if alt is Some {
                alt->0
            } else {
                source
            };
            &&& !r.failed()
            &&& myst::with_image(r, source, options).text == r.text + (marker(myst::option_of(options, "name"@)) + ("!["@
                + label + "]("@ + source + ")\n\n"@))
        }),
{
    broadcast use myst::lemma_appended;

    let target = myst::option_of(options, "name"@);
    lemma_with_target(r, target);
    let alt = myst::option_of(options, "alt"@);
    let label = if alt is Some {
        alt->0
    } else {
        source
    };
    assert(r.text + marker(target) + "!["@ + label + "]("@ + source + ")\n\n"@ =~= r.text + (marker(target) + ("!["@
        + label + "]("@ + source + ")\n\n"@)));
}

pub proof fn lemma_kind_is_plain(kind: Seq<char>)
    requires
        kind == "code-block"@ || kind == "code-cell"@,
    ensures
        !kind.contains('}'),
        text::trimmed(kind) == kind,
{
    reveal_strlit("code-block");
    reveal_strlit("code-cell");
    assert("code-block"@.len() == 10 && "code-cell"@.len() == 9);
    assert(kind[0] == 'c');
    assert(kind.last() == 'k' || kind.last() == 'l');
    law_trimmed_text_stays(kind);
    assert forall|k: int| 0 <= k < kind.len() implies kind[k] != '}' by {}
}

/// A text that is one directive of code without options is rendered as one block of code with its lines.
#[verifier::spinoff_prover]
#[verifier::rlimit(100)]
pub proof fn law_code_is_preprocessed_to_a_block(
    kind: Seq<char>,
    language: Seq<char>,
    body: Seq<Seq<char>>,
    budget: SecurityBudget,
)
    requires
        kind == "code-block"@ || kind == "code-cell"@,
        text::trimmed(language) == language,
        !language.contains('\n'),
        language.len() > 0,
        forall|k: int| 0 <= k < body.len() ==> crate::laws::text::is_line(#[trigger] body[k]) && text::trimmed(body[k])
            != "```"@,
        body.len() > 0 ==> myst::option_on_line(body[0]) is None,
        !myst::preprocessed(fed(seq![opening(kind, language)] + body) + "```"@, budget).failed(),
    ensures
        myst::preprocessed(fed(seq![opening(kind, language)] + body) + "```"@, budget).text == "```"@ + language
            + "\n"@ + fed(body) + "```\n\n"@,
{
    let head = seq![opening(kind, language)] + body;
    let lines = head.push("```"@);
    lemma_source_lines(kind, language, body);
    let content = fed(head) + "```"@;
    let opened = Render { text: Seq::empty(), ledger: crate::security::open_ledger(budget), too_deep: false };
    let end = lines.len() - 1;
    assert forall|k: int| 0 < k < end implies text::trimmed(#[trigger] lines[k]) != "```"@ by {
        assert(lines[k] == body[k - 1]);
    }
    if body.len() > 0 {
        assert(lines[1] == body[0]);
    }
    assert(myst::preprocessed(content, budget) == myst::with_document(opened, lines, 0, 0));
    law_code_directive_becomes_a_block_of_code(opened, lines, 0, end, 1, kind, language, 0);
    assert(lines.subrange(1, 1) =~= Seq::empty());
    assert(lines.subrange(1, end) =~= body);
    assert(options_on(lines.subrange(1, 1)).len() == 0);
    let code = "```"@ + language + "\n"@ + fed(body) + "```\n\n"@;
    assert(Seq::<char>::empty() + (Seq::<char>::empty() + Seq::<char>::empty() + code) =~= code);
}

/// The line that opens a directive with a fence of back quotes.
pub open spec fn opening(kind: Seq<char>, argument: Seq<char>) -> Seq<char> {
    "```{"@ + kind + "}"@ + argument
}

/// How the opening line starts and ends, and that it is one line.
#[verifier::spinoff_prover]
#[verifier::rlimit(60)]
proof fn lemma_opening_is_a_line(kind: Seq<char>, language: Seq<char>)
    requires
        kind == "code-block"@ || kind == "code-cell"@,
        !language.contains('\n'),
        language.len() > 0,
    ensures
        opening(kind, language).len() > 0,
        opening(kind, language)[0] == '`',
        opening(kind, language).last() == language.last(),
        !opening(kind, language).contains('\n'),
{
    let first = opening(kind, language);
    reveal_strlit("```{");
    reveal_strlit("}");
    reveal_strlit("code-block");
    reveal_strlit("code-cell");
    assert(first.len() == 4 + kind.len() + 1 + language.len());
    assert(first[0] == "```{"@[0]);
    assert forall|k: int| 0 <= k < first.len() implies first[k] != '\n' by {
        if k >= 5 + kind.len() {
            assert(first[k] == language[k - 5 - kind.len()]);
            assert(language.contains(language[k - 5 - kind.len()]));
        } else if k == 4 + kind.len() {
            assert(first[k] == "}"@[0]);
        } else if 4 <= k {
            assert(first[k] == kind[k - 4]);
        } else {
            assert(first[k] == "```{"@[k]);
        }
    }
}

#[verifier::spinoff_prover]
#[verifier::rlimit(60)]
pub proof fn lemma_fence()
    ensures
        text::trimmed("```"@) == "```"@,
        !"```"@.contains('\n'),
        "```"@.len() == 3,
{
    reveal_strlit("```");
    assert("```"@.len() == 3 && "```"@[0] == '`' && "```"@[1] == '`' && "```"@[2] == '`');
    law_trimmed_text_stays("```"@);
}

#[verifier::spinoff_prover]
#[verifier::rlimit(60)]
proof fn lemma_opening(kind: Seq<char>, language: Seq<char>)
    requires
        kind == "code-block"@ || kind == "code-cell"@,
        text::trimmed(language) == language,
        !language.contains('\n'),
        language.len() > 0,
    ensures
        text::trimmed(opening(kind, language)) == opening(kind, language),
        crate::laws::text::is_line(opening(kind, language)),
        text::trimmed("```"@) == "```"@,
        !"```"@.contains('\n'),
        "```"@.len() == 3,
{
    lemma_fence();
    lemma_opening_is_a_line(kind, language);
    crate::laws::text::lemma_trimmed_ends(language);
    law_trimmed_text_stays(opening(kind, language));
}

proof fn lemma_source_lines(kind: Seq<char>, language: Seq<char>, body: Seq<Seq<char>>)
    requires
        kind == "code-block"@ || kind == "code-cell"@,
        text::trimmed(language) == language,
        !language.contains('\n'),
        language.len() > 0,
        forall|k: int| 0 <= k < body.len() ==> crate::laws::text::is_line(#[trigger] body[k]),
    ensures
        text::lines_of(fed(seq![opening(kind, language)] + body) + "```"@) == (seq![opening(kind, language)] + body).push(
            "```"@,
        ),
        opens(opening(kind, language), kind, language),
        text::trimmed("```"@) == "```"@,
{
    let head = seq![opening(kind, language)] + body;
    lemma_opening(kind, language);
    assert forall|k: int| 0 <= k < head.len() implies crate::laws::text::is_line(#[trigger] head[k]) by {
        if k > 0 {
            assert(head[k] == body[k - 1]);
        }
    }
    law_lines_are_read_back(head, "```"@);
}

} // verus!
