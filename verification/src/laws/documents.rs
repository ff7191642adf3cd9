//! Laws of documents that are made of paragraphs, of shapes, of source code and of marked-up text.
use crate::code;
use crate::config::CodeContentMode;
use crate::doc;
use crate::doc::{Outline, Para};
use crate::document;
use crate::document::ElementKind;
use crate::laws::csv::with_returns;
use crate::laws::structured::{headings, lines};
use crate::text;
use crate::visio;
use crate::xml;
use crate::xml::{Walk, XmlEventKind};
use vstd::prelude::*;

verus! {

/// What elements say, in order: the kind and the text of each that is no start or end of a list.
pub open spec fn said(elements: Seq<document::Element>) -> Seq<(ElementKind, Seq<char>)>
    decreases elements.len(),
{
    if elements.len() == 0 {
        Seq::empty()
    } else if elements.last().kind is ListStart || elements.last().kind is ListEnd {
        said(elements.drop_last())
    } else {
        said(elements.drop_last()).push((elements.last().kind, elements.last().text))
    }
}

proof fn lemma_said_push(x: Seq<document::Element>, e: document::Element)
    ensures
        said(x.push(e)) == if e.kind is ListStart || e.kind is ListEnd {
            said(x)
        } else {
            said(x).push((e.kind, e.text))
        },
        lines(x.push(e)) == if e.kind is Paragraph || e.kind is ListItem {
            lines(x).push(e.text)
        } else {
            lines(x)
        },
        headings(x.push(e)) == match e.kind {
            ElementKind::Heading { level } => headings(x).push((level, e.text)),
            _ => headings(x),
        },
{
    assert(x.push(e).drop_last() =~= x);
}

proof fn lemma_closing_says_nothing(o: Outline, target: nat)
    ensures
        said(o.closed_to(target).content.elements) == said(o.content.elements),
    decreases o.open.len(),
{
    if o.open.len() > target {
        let rest = o.open.drop_last();
        let e = document::bare(ElementKind::ListEnd, Seq::empty(), doc::element_depth(rest.len()));
        lemma_said_push(o.content.elements, e);
        lemma_closing_says_nothing(Outline { content: o.content.with_element(e), open: rest }, target);
    }
}

proof fn lemma_opening_says_nothing(o: Outline, target: nat, ordered: bool)
    ensures
        said(o.opened_to(target, ordered).content.elements) == said(o.content.elements),
    decreases target - o.open.len(),
{
    if o.open.len() < target {
        let e = document::bare(ElementKind::ListStart { ordered }, Seq::empty(), doc::element_depth(o.open.len()));
        lemma_said_push(o.content.elements, e);
        lemma_opening_says_nothing(
            Outline { content: o.content.with_element(e), open: o.open.push(ordered) },
            target,
            ordered,
        );
    }
}

/// Whether what was said stands for paragraphs that are not blank, one for one and in their order: items of lists as
/// such, others as headings or paragraphs; where heading styles are used, they decide.
pub open spec fn stand_for_paragraphs(found: Seq<(ElementKind, Seq<char>)>, all: Seq<Para>, styled: bool) -> bool {
    &&& found.len() == all.len()
    &&& forall|i: int| 0 <= i < found.len() ==> #[trigger] stands_for(found[i], all[i], styled)
}

/// Whether what was said stands for a paragraph.
pub open spec fn stands_for(found: (ElementKind, Seq<char>), p: Para, styled: bool) -> bool {
    &&& found.1 == p.text
    &&& p.list matches Some(list) ==> found.0 == ElementKind::ListItem { ordered: list.ordered }
    &&& p.list is None ==> found.0 is Heading || found.0 is Paragraph
    &&& p.list is None && styled ==> match p.heading_level {
        Some(level) => found.0 == ElementKind::Heading { level },
        None => found.0 is Paragraph,
    }
    &&& p.list is None && !styled ==> (found.0 matches ElementKind::Heading { level } ==> level == 2)
}

/// The paragraphs that are not blank.
pub open spec fn filled(all: Seq<Para>) -> Seq<Para>
    decreases all.len(),
{
    if all.len() == 0 {
        Seq::empty()
    } else if all.last().text.len() == 0 {
        filled(all.drop_last())
    } else {
        filled(all.drop_last()).push(all.last())
    }
}

#[verifier::spinoff_prover]
#[verifier::rlimit(60)]
proof fn lemma_paragraphs_said(c: document::Content, all: Seq<Para>, n: int)
    requires
        0 <= n <= all.len(),
        c.elements.len() == 0,
    ensures
        stand_for_paragraphs(
            said(doc::with_first_paragraphs(c, all, n).content.elements),
            filled(all.take(n)),
            doc::uses_heading_styles(all),
        ),
    decreases n,
{
    let styled = doc::uses_heading_styles(all);
    if n > 0 {
        lemma_paragraphs_said(c, all, n - 1);
        let before = doc::with_first_paragraphs(c, all, n - 1);
        let after = doc::with_first_paragraphs(c, all, n);
        let p = all[n - 1];
        assert(all.take(n).drop_last() =~= all.take(n - 1));
        let earlier = said(before.content.elements);
        let kept = filled(all.take(n - 1));
        if p.text.len() > 0 {
            let ready = match p.list {
                None => before.closed_to(0),
                Some(list) => before.ready_for(list),
            };
            lemma_closing_says_nothing(before, 0);
            if let Some(list) = p.list {
                let depth = (list.level + 1) as nat;
                lemma_closing_says_nothing(before, depth);
                let closed = before.closed_to(depth);
                lemma_closing_says_nothing(closed, (depth - 1) as nat);
                let fitting = if closed.open.len() == depth && closed.open.last() != list.ordered {
                    closed.closed_to((depth - 1) as nat)
                } else {
                    closed
                };
                lemma_opening_says_nothing(fitting, depth, list.ordered);
            }
            assert(said(ready.content.elements) == earlier);
            lemma_said_push(ready.content.elements, after.content.elements.last());
            assert(after.content.elements =~= ready.content.elements.push(after.content.elements.last()));
            let now = said(after.content.elements);
            assert(now.len() == earlier.len() + 1);
            assert(stands_for(now.last(), p, styled));
            let wanted = kept.push(p);
            assert forall|i: int| 0 <= i < now.len() implies #[trigger] stands_for(now[i], wanted[i], styled) by {
                if i < earlier.len() {
                    assert(stands_for(earlier[i], kept[i], styled));
                }
            }
        }
    }
}

/// Every paragraph of a document that is not blank is said, unchanged and in its order: as an item of a list if it
/// belongs to one, and else as a heading or a paragraph; where heading styles are used, the style decides.
pub proof fn law_every_paragraph_is_said_in_order(c: document::Content, all: Seq<Para>)
    requires
        c.elements.len() == 0,
    ensures
        stand_for_paragraphs(
            said(doc::with_paragraphs(c, all).elements),
            filled(all),
            exists|i: int| 0 <= i < all.len() && (#[trigger] all[i]).heading_level is Some && all[i].list is None,
        ),
{
    lemma_paragraphs_said(c, all, all.len() as int);
    assert(all.take(all.len() as int) =~= all);
    lemma_closing_says_nothing(doc::with_first_paragraphs(c, all, all.len() as int), 0);
}

/// The texts that are left of texts without the white space around them, unless nothing is.
pub open spec fn trimmed_texts(all: Seq<Seq<char>>) -> Seq<Seq<char>>
    decreases all.len(),
{
    if all.len() == 0 {
        Seq::empty()
    } else if text::trimmed(all.last()).len() == 0 {
        trimmed_texts(all.drop_last())
    } else {
        trimmed_texts(all.drop_last()).push(text::trimmed(all.last()))
    }
}

/// Whether what was said are these texts, one for one and in their order, as headings or paragraphs.
pub open spec fn said_are(found: Seq<(ElementKind, Seq<char>)>, wanted: Seq<Seq<char>>) -> bool {
    &&& found.len() == wanted.len()
    &&& forall|i: int| 0 <= i < found.len() ==> (#[trigger] found[i]).1 == wanted[i] && (found[i].0 is Paragraph
        || found[i].0 == ElementKind::Heading { level: 2 })
}

proof fn lemma_chunks_said(c: document::Content, chunks: Seq<Seq<char>>, n: int)
    requires
        0 <= n <= chunks.len(),
        c.elements.len() == 0,
    ensures
        said_are(said(doc::with_chunks(c, chunks, n).elements), trimmed_texts(chunks.take(n))),
    decreases n,
{
    if n > 0 {
        lemma_chunks_said(c, chunks, n - 1);
        let before = doc::with_chunks(c, chunks, n - 1);
        let after = doc::with_chunks(c, chunks, n);
        assert(chunks.take(n).drop_last() =~= chunks.take(n - 1));
        if text::trimmed(chunks[n - 1]).len() > 0 {
            lemma_said_push(before.elements, after.elements.last());
            assert(after.elements =~= before.elements.push(after.elements.last()));
        }
    }
}

/// The parts of a text between empty lines are said in their order, without the white space around them; blank ones
/// are left out. The parts make up the text again.
pub proof fn law_every_part_is_said_in_order(c: document::Content, content: Seq<char>)
    requires
        c.elements.len() == 0,
    ensures
        exists|parts: Seq<Seq<char>>|
            text::join(parts, seq!['\n', '\n']) == content && said_are(
                said(doc::with_blank_line_chunks(c, content).elements),
                #[trigger] trimmed_texts(parts),
            ),
{
    reveal_strlit("\n\n");
    assert("\n\n"@ =~= seq!['\n', '\n']);
    let parts = text::split_by(content, "\n\n"@);
    crate::laws::text::law_parts_make_up_the_text(content, "\n\n"@);
    lemma_chunks_said(c, parts, parts.len() as int);
    assert(parts.take(parts.len() as int) =~= parts);
    assert(said_are(said(doc::with_blank_line_chunks(c, content).elements), trimmed_texts(parts)));
}

/// Line endings of every kind become line feeds, and nothing else changes.
pub proof fn law_line_endings_become_line_feeds(s: Seq<char>)
    requires
        !s.contains('\r'),
    ensures
        visio::normal_lines(s) == s,
        visio::normal_lines(with_returns(s)) == s,
        visio::normal_lines(text::replaced(s, '\n', '\r')) == s,
    decreases s.len(),
{
    let t = text::replaced(s, '\n', '\r');
    let u = with_returns(s);
    if s.len() > 0 {
        let rest = s.skip(1);
        assert(s.contains(s[0]));
        assert forall|x: char| rest.contains(x) implies s.contains(x) by {
            let k = choose|k: int| 0 <= k < rest.len() && rest[k] == x;
            assert(s[k + 1] == x);
        }
        law_line_endings_become_line_feeds(rest);
        assert(t.skip(1) =~= text::replaced(rest, '\n', '\r'));
        assert(seq![s[0]] + rest =~= s);
        assert(t[0] == if s[0] == '\n' {
            '\r'
        } else {
            s[0]
        });
        if rest.len() > 0 {
            assert(s.contains(s[1]));
            assert(t[1] != '\n');
        }
        if s[0] == '\n' {
            assert(u.skip(2) =~= with_returns(rest));
        } else {
            assert(u.skip(1) =~= with_returns(rest));
        }
        assert(visio::normal_lines(t) =~= s);
        assert(visio::normal_lines(u) =~= s);
        assert(visio::normal_lines(s) =~= s);
    } else {
        assert(t =~= s);
        assert(u =~= s);
    }
}

/// Texts with line feeds at the ends of their lines.
pub open spec fn normal_texts(all: Seq<Seq<char>>) -> Seq<Seq<char>> {
    all.map_values(|t: Seq<char>| visio::normal_lines(t))
}

/// Every shape that has a text becomes a paragraph with it, in order; blank ones are left out.
pub proof fn law_every_shape_is_said_in_order(c: document::Content, texts: Seq<Seq<char>>)
    requires
        c.elements.len() == 0,
    ensures
        lines(visio::with_shapes(c, texts).elements) == trimmed_texts(normal_texts(texts)),
        visio::with_shapes(c, texts).elements.len() == trimmed_texts(normal_texts(texts)).len(),
    decreases texts.len(),
{
    let all = normal_texts(texts);
    if texts.len() > 0 {
        law_every_shape_is_said_in_order(c, texts.drop_last());
        assert(all.drop_last() =~= normal_texts(texts.drop_last()));
        let before = visio::with_shapes(c, texts.drop_last());
        let t = text::trimmed(visio::normal_lines(texts.last()));
        if t.len() > 0 {
            lemma_said_push(before.elements, document::bare(ElementKind::Paragraph, t, 0));
        }
    } else {
        assert(c.elements =~= Seq::empty());
    }
}

/// The blocks of code among elements, in order.
pub open spec fn blocks(elements: Seq<document::Element>) -> Seq<document::Element>
    decreases elements.len(),
{
    if elements.len() == 0 {
        Seq::empty()
    } else if elements.last().kind is Code {
        blocks(elements.drop_last()).push(elements.last())
    } else {
        blocks(elements.drop_last())
    }
}

proof fn lemma_blocks_push(x: Seq<document::Element>, e: document::Element)
    ensures
        blocks(x.push(e)) == if e.kind is Code {
            blocks(x).push(e)
        } else {
            blocks(x)
        },
{
    assert(x.push(e).drop_last() =~= x);
}

/// The names of the definitions that pieces stand in, for those that stand in one.
pub open spec fn definitions(all: Seq<code::Chunk>) -> Seq<Seq<char>>
    decreases all.len(),
{
    if all.len() == 0 {
        Seq::empty()
    } else if all.last().context_path.len() == 0 {
        definitions(all.drop_last())
    } else {
        definitions(all.drop_last()).push(all.last().context_path[all.last().context_path.len() - 1])
    }
}

/// Every piece of a source file becomes a block of code in its language, unchanged and in order, below the name of
/// the innermost definition that it stands in.
#[verifier::spinoff_prover]
#[verifier::rlimit(60)]
pub proof fn law_every_piece_becomes_a_block(c: document::Content, all: Seq<code::Chunk>, language: &str)
    requires
        c.elements.len() == 0,
    ensures
        ({
            let pieces = code::with_chunks(c, all, language, CodeContentMode::Chunks).elements;
            &&& blocks(pieces).len() == all.len()
            &&& forall|i: int|
                0 <= i < all.len() ==> (#[trigger] blocks(pieces)[i]).text == all[i].content && blocks(pieces)[i].language
                    == Some(language@)
            &&& headings(pieces).len() == definitions(all).len()
            &&& forall|i: int| 0 <= i < definitions(all).len() ==> (#[trigger] headings(pieces)[i]).1 == definitions(all)[i]
        }),
        ({
            let names = code::with_chunks(c, all, language, CodeContentMode::Structure).elements;
            &&& blocks(names).len() == 0
            &&& headings(names).len() == definitions(all).len()
            &&& forall|i: int| 0 <= i < definitions(all).len() ==> (#[trigger] headings(names)[i]).1 == definitions(all)[i]
        }),
        code::with_chunks(c, all, language, CodeContentMode::Raw).elements.len() == 0,
    decreases all.len(),
{
    if all.len() > 0 {
        let init = all.drop_last();
        let chunk = all.last();
        law_every_piece_becomes_a_block(c, init, language);
        let a = code::with_chunks(c, init, language, CodeContentMode::Chunks);
        let b = code::with_chunks(c, init, language, CodeContentMode::Structure);
        let e = document::code_element(chunk.content, Some(language));
        if chunk.context_path.len() > 0 {
            let h = document::bare(
                ElementKind::Heading { level: code::level_of(chunk) },
                chunk.context_path.last(),
                0,
            );
            lemma_blocks_push(a.elements, h);
            lemma_said_push(a.elements, h);
            lemma_blocks_push(b.elements, h);
            lemma_said_push(b.elements, h);
            lemma_blocks_push(a.elements.push(h), e);
            lemma_said_push(a.elements.push(h), e);
        } else {
            lemma_blocks_push(a.elements, e);
            lemma_said_push(a.elements, e);
        }
        let pieces = code::with_chunks(c, all, language, CodeContentMode::Chunks).elements;
        assert forall|i: int| 0 <= i < all.len() implies (#[trigger] blocks(pieces)[i]).text == all[i].content && blocks(
            pieces,
        )[i].language == Some(language@) by {
            if i < init.len() {
                assert(blocks(a.elements)[i].text == init[i].content);
            }
        }
        let defs = definitions(all);
        let earlier = definitions(init);
        assert forall|i: int| 0 <= i < defs.len() implies (#[trigger] headings(pieces)[i]).1 == defs[i] by {
            if i < earlier.len() {
                assert(headings(a.elements)[i].1 == earlier[i]);
            }
        }
        let names = code::with_chunks(c, all, language, CodeContentMode::Structure).elements;
        assert forall|i: int| 0 <= i < defs.len() implies (#[trigger] headings(names)[i]).1 == defs[i] by {
            if i < earlier.len() {
                assert(headings(b.elements)[i].1 == earlier[i]);
            }
        }
    } else {
        assert(c.elements =~= Seq::empty());
    }
}

/// Source code that has no pieces, or that is asked for as it is, becomes one block of code with all of it.
pub proof fn law_whole_source_becomes_a_block(source: Seq<char>, language: &str, all: Seq<code::Chunk>, mode: CodeContentMode)
    requires
        all.len() == 0 || mode == CodeContentMode::Raw,
    ensures
        code::code_content(source, language, all, mode).elements.len() == 1,
        code::code_content(source, language, all, mode).elements[0].kind is Code,
        code::code_content(source, language, all, mode).elements[0].text == source,
        code::code_content(source, language, all, mode).elements[0].language == Some(language@),
{
    law_every_piece_becomes_a_block(document::empty_content("code"@), all, language);
}

/// The names of the elements that start, in order, up to what is not well formed: the letters of a tag before the
/// first white space.
pub open spec fn started_names(events: Seq<(XmlEventKind, Seq<char>)>) -> Seq<Seq<char>>
    decreases events.len(),
{
    if events.len() == 0 || events[0].0 == XmlEventKind::Malformed {
        Seq::empty()
    } else if events[0].0 == XmlEventKind::Start || events[0].0 == XmlEventKind::Empty {
        seq![xml::tag_name(events[0].1)] + started_names(events.skip(1))
    } else {
        started_names(events.skip(1))
    }
}

/// The texts of a document, in order, up to what is not well formed: character data and references that no tag
/// separates count as one, and a section of character data counts for itself.
pub open spec fn character_texts(events: Seq<(XmlEventKind, Seq<char>)>, open: Option<Seq<char>>) -> Seq<Seq<char>>
    decreases events.len(),
{
    let closed = match open {
        Some(t) => seq![t],
        None => Seq::empty(),
    };
    let before = match open {
        Some(t) => t,
        None => Seq::empty(),
    };
    if events.len() == 0 {
        closed
    } else {
        let rest = events.skip(1);
        match events[0].0 {
            XmlEventKind::Text => character_texts(rest, Some(before + events[0].1)),
            XmlEventKind::Reference => character_texts(rest, Some(before + xml::resolved(events[0].1))),
            XmlEventKind::CData => closed + seq![events[0].1] + character_texts(rest, None),
            XmlEventKind::Malformed => closed,
            _ => closed + character_texts(rest, None),
        }
    }
}

/// The name of a tag is what stands before the first white space.
pub proof fn law_tag_starts_with_its_name(name: Seq<char>, rest: Seq<char>)
    requires
        forall|k: int| 0 <= k < name.len() ==> (#[trigger] name[k]) != ' ' && name[k] != '\t' && name[k] != '\r' && name[k]
            != '\n',
        rest.len() > 0 ==> rest[0] == ' ' || rest[0] == '\t' || rest[0] == '\r' || rest[0] == '\n',
    ensures
        xml::tag_name(name + rest) == name,
    decreases name.len(),
{
    let tag = name + rest;
    if name.len() == 0 {
        assert(tag =~= rest);
        assert(xml::tag_name(tag) =~= name);
    } else {
        let tail = name.skip(1);
        assert(name[0] != ' ');
        assert forall|k: int| 0 <= k < tail.len() implies (#[trigger] tail[k]) != ' ' && tail[k] != '\t' && tail[k] != '\r'
            && tail[k] != '\n' by {
            assert(name[k + 1] != ' ');
        }
        law_tag_starts_with_its_name(tail, rest);
        assert(tag.skip(1) =~= tail + rest);
        assert(xml::tag_name(tag) =~= name);
    }
}

/// The names of headings.
pub open spec fn heading_names(elements: Seq<document::Element>) -> Seq<Seq<char>> {
    headings(elements).map_values(|h: (u8, Seq<char>)| h.1)
}

proof fn lemma_names_push(x: Seq<document::Element>, e: document::Element)
    ensures
        heading_names(x.push(e)) == if e.kind is Heading {
            heading_names(x).push(e.text)
        } else {
            heading_names(x)
        },
{
    lemma_said_push(x, e);
    if e.kind is Heading {
        assert(heading_names(x.push(e)) =~= heading_names(x).push(e.text));
    }
}

/// What a step of the walk adds.
spec fn steps(before: Walk, after: Walk, names: Seq<Seq<char>>, texts: Seq<Seq<char>>) -> bool {
    after.ledger.verdict is Ok ==> {
        &&& before.ledger.verdict is Ok
        &&& heading_names(after.content.elements) == heading_names(before.content.elements) + names
        &&& lines(after.content.elements) == lines(before.content.elements) + texts
        &&& after.is_svg == before.is_svg
    }
}

proof fn lemma_paragraph_steps(w: Walk, t: Seq<char>, depth: u16)
    ensures
        steps(w, w.with_paragraph(t, depth), Seq::empty(), trimmed_texts(seq![t])),
        w.with_paragraph(t, depth).text == w.text,
{
    let x = w.content.elements;
    let trimmed = text::trimmed(t);
    let e = document::bare(ElementKind::Paragraph, trimmed, depth);
    lemma_said_push(x, e);
    lemma_names_push(x, e);
    assert(seq![t].drop_last() =~= Seq::empty());
    assert(trimmed_texts(Seq::empty()) =~= Seq::empty());
    assert(trimmed_texts(seq![t]) =~= if trimmed.len() == 0 {
        Seq::empty()
    } else {
        seq![trimmed]
    });
    assert(heading_names(x) + Seq::<Seq<char>>::empty() =~= heading_names(x));
    assert(lines(x) + Seq::<Seq<char>>::empty() =~= lines(x));
    assert(lines(x) + seq![trimmed] =~= lines(x).push(trimmed));
}

proof fn lemma_flush_steps(w: Walk)
    requires
        !w.is_svg,
    ensures
        steps(
            w,
            w.flushed(),
            Seq::empty(),
            match w.text {
                Some(t) => trimmed_texts(seq![t]),
                None => Seq::empty(),
            },
        ),
        w.flushed().text is None,
{
    let x = w.content.elements;
    assert(heading_names(x) + Seq::<Seq<char>>::empty() =~= heading_names(x));
    assert(lines(x) + Seq::<Seq<char>>::empty() =~= lines(x));
    if let Some(t) = w.text {
        let stepped = w.paid(w.ledger.stepped());
        lemma_paragraph_steps(
            stepped,
            t,
            if stepped.depth > 0 {
                (stepped.depth - 1) as u16
            } else {
                0
            },
        );
    }
}

proof fn lemma_heading_steps(w: Walk, tag: Seq<char>)
    ensures
        steps(w, w.headed(tag), seq![xml::tag_name(tag)], Seq::empty()),
        steps(w, w.started(tag), seq![xml::tag_name(tag)], Seq::empty()),
        w.headed(tag).text == w.text,
        w.started(tag).text == w.text,
{
    let x = w.content.elements;
    lemma_collecting(w.ledger, xml::xml_attributes(tag, xml::name_end(tag)));
    lemma_collecting(w.ledger.entered(), xml::xml_attributes(tag, xml::name_end(tag)));
    let (_, a) = xml::attributes_collected(w.ledger, xml::xml_attributes(tag, xml::name_end(tag)));
    let (_, b) = xml::attributes_collected(w.ledger.entered(), xml::xml_attributes(tag, xml::name_end(tag)));
    let e = xml::element_heading(tag, w.depth, a);
    let f = xml::element_heading(tag, w.depth, b);
    lemma_said_push(x, e);
    lemma_names_push(x, e);
    lemma_said_push(x, f);
    lemma_names_push(x, f);
    assert(heading_names(x) + seq![xml::tag_name(tag)] =~= heading_names(x).push(xml::tag_name(tag)));
    assert(lines(x) + Seq::<Seq<char>>::empty() =~= lines(x));
}

proof fn lemma_collecting(l: crate::security::Ledger, list: Seq<Option<(Seq<char>, Seq<char>)>>)
    ensures
        xml::attributes_collected(l, list).0.verdict is Ok ==> l.verdict is Ok,
    decreases list.len(),
{
    if list.len() > 0 {
        lemma_collecting(l, list.drop_last());
    }
}

proof fn lemma_steps_in_turn(
    a: Walk,
    b: Walk,
    c: Walk,
    n1: Seq<Seq<char>>,
    n2: Seq<Seq<char>>,
    t1: Seq<Seq<char>>,
    t2: Seq<Seq<char>>,
)
    requires
        steps(a, b, n1, t1),
        steps(b, c, n2, t2),
    ensures
        steps(a, c, n1 + n2, t1 + t2),
{
    if c.ledger.verdict is Ok {
        let x = a.content.elements;
        assert(heading_names(x) + n1 + n2 =~= heading_names(x) + (n1 + n2));
        assert(lines(x) + t1 + t2 =~= lines(x) + (t1 + t2));
    }
}

proof fn lemma_trimmed_in_parts(a: Seq<Seq<char>>, b: Seq<Seq<char>>)
    ensures
        trimmed_texts(a + b) == trimmed_texts(a) + trimmed_texts(b),
    decreases b.len(),
{
    if b.len() == 0 {
        assert(a + b =~= a);
        assert(trimmed_texts(a) + trimmed_texts(b) =~= trimmed_texts(a));
    } else {
        assert((a + b).drop_last() =~= a + b.drop_last());
        lemma_trimmed_in_parts(a, b.drop_last());
        assert(trimmed_texts(a + b) =~= trimmed_texts(a) + trimmed_texts(b));
    }
}

#[verifier::spinoff_prover]
#[verifier::rlimit(60)]
proof fn lemma_taken_steps(w: Walk, event: (XmlEventKind, Seq<char>))
    requires
        !w.is_svg,
        event.0 != XmlEventKind::Text,
        event.0 != XmlEventKind::Reference,
    ensures
        ({
            let open = match w.text {
                Some(t) => seq![t],
                None => Seq::empty(),
            };
            let own = if event.0 == XmlEventKind::CData {
                seq![event.1]
            } else {
                Seq::empty()
            };
            let names = if event.0 == XmlEventKind::Start || event.0 == XmlEventKind::Empty {
                seq![xml::tag_name(event.1)]
            } else {
                Seq::empty()
            };
            &&& steps(w, w.taken(event), names, trimmed_texts(open) + trimmed_texts(own))
            &&& w.taken(event).text is None
        }),
{
    let none = Seq::<Seq<char>>::empty();
    let flushed = w.flushed();
    let stepped = flushed.paid(flushed.ledger.stepped());
    lemma_flush_steps(w);
    assert(trimmed_texts(none) =~= none);
    let first = match w.text {
        Some(t) => trimmed_texts(seq![t]),
        None => none,
    };
    let x = flushed.content.elements;
    assert(heading_names(x) + none =~= heading_names(x));
    assert(lines(x) + none =~= lines(x));
    assert(steps(flushed, stepped, none, none));
    lemma_steps_in_turn(w, flushed, stepped, none, none, first, none);
    assert(none + none =~= none);
    assert(first + none =~= first);
    let after = w.taken(event);
    lemma_heading_steps(stepped, event.1);
    lemma_paragraph_steps(stepped, event.1, stepped.depth);
    let names = if event.0 == XmlEventKind::Start || event.0 == XmlEventKind::Empty {
        seq![xml::tag_name(event.1)]
    } else {
        none
    };
    let own = if event.0 == XmlEventKind::CData {
        trimmed_texts(seq![event.1])
    } else {
        none
    };
    let y = stepped.content.elements;
    assert(heading_names(y) + none =~= heading_names(y));
    assert(lines(y) + none =~= lines(y));
    assert(steps(stepped, after, names, own));
    lemma_steps_in_turn(w, stepped, after, none, names, first, own);
    assert(none + names =~= names);
}

#[verifier::spinoff_prover]
#[verifier::rlimit(60)]
proof fn lemma_walk_says(w: Walk, events: Seq<(XmlEventKind, Seq<char>)>)
    requires
        !w.is_svg,
    ensures
        steps(w, w.walked(events), started_names(events), trimmed_texts(character_texts(events, w.text))),
    decreases events.len(),
{
    let none = Seq::<Seq<char>>::empty();
    assert(trimmed_texts(none) =~= none);
    if events.len() == 0 {
        lemma_flush_steps(w);
        let flushed = w.flushed();
        let x = w.content.elements;
        assert(heading_names(x) + none =~= heading_names(x));
        assert(started_names(events) =~= none);
    } else {
        let event = events[0];
        let rest = events.skip(1);
        let after = w.taken(event);
        if event.0 == XmlEventKind::Text || event.0 == XmlEventKind::Reference {
            let more = if event.0 == XmlEventKind::Text {
                event.1
            } else {
                xml::resolved(event.1)
            };
            let before = match w.text {
                Some(t) => t,
                None => Seq::<char>::empty(),
            };
            assert(Seq::<char>::empty() + more =~= more);
            assert(after.text == Some(before + more));
            lemma_walk_says(after, rest);
        } else {
            lemma_taken_steps(w, event);
            let open = match w.text {
                Some(t) => seq![t],
                None => none,
            };
            let own = if event.0 == XmlEventKind::CData {
                seq![event.1]
            } else {
                none
            };
            let names = if event.0 == XmlEventKind::Start || event.0 == XmlEventKind::Empty {
                seq![xml::tag_name(event.1)]
            } else {
                none
            };
            if event.0 == XmlEventKind::Malformed {
                assert(trimmed_texts(open) + none =~= trimmed_texts(open));
                assert(started_names(events) =~= none);
            } else {
                lemma_kind_of_document_stays(w, event);
                lemma_walk_says(after, rest);
                let later = character_texts(rest, None);
                lemma_steps_in_turn(
                    w,
                    after,
                    w.walked(events),
                    names,
                    started_names(rest),
                    trimmed_texts(open) + trimmed_texts(own),
                    trimmed_texts(later),
                );
                lemma_trimmed_in_parts(open, own);
                lemma_trimmed_in_parts(open + own, later);
                assert(none + started_names(rest) =~= started_names(rest));
                assert(open + none =~= open);
                assert(names + started_names(rest) =~= started_names(events));
                assert(open + own + later =~= character_texts(events, w.text));
            }
        }
    }
}

proof fn lemma_kind_of_document_stays(w: Walk, event: (XmlEventKind, Seq<char>))
    ensures
        w.taken(event).is_svg == w.is_svg,
{
}

/// Every element of a document that is no drawing becomes a heading with its name, and every text of it that is not
/// blank a paragraph, without the white space around it, all in their order, as long as the ceilings hold.
pub proof fn law_every_element_and_text_is_said_in_order(w: Walk, events: Seq<(XmlEventKind, Seq<char>)>)
    requires
        !w.is_svg,
        w.content.elements.len() == 0,
        w.text is None,
        w.walked(events).ledger.verdict is Ok,
    ensures
        heading_names(w.walked(events).content.elements) == started_names(events),
        lines(w.walked(events).content.elements) == trimmed_texts(character_texts(events, None)),
{
    lemma_walk_says(w, events);
    let x = w.content.elements;
    assert(heading_names(x) =~= Seq::empty());
    assert(lines(x) =~= Seq::empty());
    assert(Seq::<Seq<char>>::empty() + started_names(events) =~= started_names(events));
    let texts = trimmed_texts(character_texts(events, None));
    assert(Seq::<Seq<char>>::empty() + texts =~= texts);
}

/// The attributes of an element that hold more than white space are kept, in order and without the white space around
/// their values, as long as the ceilings hold.
pub proof fn law_filled_attributes_are_kept(l: crate::security::Ledger, list: Seq<Option<(Seq<char>, Seq<char>)>>, i: int)
    requires
        0 <= i < list.len(),
        list[i] is Some,
        text::trimmed((list[i]->0).1).len() > 0,
        xml::attributes_collected(l, list).0.verdict is Ok,
    ensures
        xml::attributes_collected(l, list).1.contains(((list[i]->0).0, text::trimmed((list[i]->0).1))),
        xml::attributes_collected(l, list).1.len() <= list.len(),
    decreases list.len(),
{
    let init = list.drop_last();
    let found = xml::attributes_collected(l, list).1;
    let before = xml::attributes_collected(l, init).1;
    let wanted = ((list[i]->0).0, text::trimmed((list[i]->0).1));
    lemma_collecting_parts(l, list);
    lemma_collected_count(l, init);
    if i < init.len() {
        law_filled_attributes_are_kept(l, init, i);
        let k = choose|k: int| 0 <= k < before.len() && before[k] == wanted;
        assert(found[k] == wanted);
    } else {
        assert(found[found.len() - 1] == wanted);
    }
}

proof fn lemma_collected_count(l: crate::security::Ledger, list: Seq<Option<(Seq<char>, Seq<char>)>>)
    ensures
        xml::attributes_collected(l, list).1.len() <= list.len(),
    decreases list.len(),
{
    if list.len() > 0 {
        lemma_collected_count(l, list.drop_last());
    }
}

proof fn lemma_collecting_parts(l: crate::security::Ledger, list: Seq<Option<(Seq<char>, Seq<char>)>>)
    requires
        list.len() > 0,
        xml::attributes_collected(l, list).0.verdict is Ok,
    ensures
        xml::attributes_collected(l, list.drop_last()).0.verdict is Ok,
{
}

} // verus!
