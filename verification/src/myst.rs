//! MyST: directives, roles and targets of extended Markdown, and notebooks kept as text.
use crate::document;
use crate::error;
use crate::error::{security_error, XbergError};
use crate::json;
use crate::json::{
    find_member, has_mapping, list_of_texts, number_of_count, push_member, read_yaml, JsonValue,
};
use crate::security;
use crate::security::{Ledger, SecurityBudget};
use crate::text;
use crate::text::{
    chars_of, contains_char, count_leading, find_char, find_from, find_last_char, has_prefix, has_suffix, is_str,
    letter, lines, same_str, split_chars, string_of, trim, trim_end, trim_start,
};
use vstd::prelude::*;
use vstd::slice::slice_subrange;

verus! {

/// How deeply directives may be nested.
pub const MAX_MYST_DIRECTIVE_DEPTH: usize = 64;

/// A text under construction and what it has cost.
#[verifier::ext_equal]
pub struct Render {
    /// The text.
    pub text: Seq<char>,
    /// What it has cost.
    pub ledger: Ledger,
    /// Whether directives were nested too deeply.
    pub too_deep: bool,
}

impl Render {
    /// Whether rendering has failed. Once it has, nothing changes any more.
    pub open spec fn failed(self) -> bool {
        self.ledger.verdict is Err || self.too_deep
    }

    /// With more text.
    #[verifier::opaque]
    pub open spec fn appended(self, t: Seq<char>) -> Render {
        if self.failed() {
            self
        } else {
            let charged = self.ledger.accounted(t);
            if charged.verdict is Err {
                Render { ledger: charged, ..self }
            } else {
                Render { text: self.text + t, ledger: charged, ..self }
            }
        }
    }

    /// After one more step.
    pub open spec fn stepped(self) -> Render {
        if self.failed() {
            self
        } else {
            Render { ledger: self.ledger.stepped(), ..self }
        }
    }

    /// With another ledger.
    pub open spec fn paid(self, ledger: Ledger) -> Render {
        Render { ledger, ..self }
    }

    /// With lines and a line feed between each two of them.
    pub open spec fn with_joined(self, lines: Seq<Seq<char>>) -> Render
        decreases lines.len(),
    {
        if lines.len() == 0 {
            self
        } else {
            let before = self.with_joined(lines.drop_last()).stepped();
            let separated = if lines.len() > 1 {
                before.appended("\n"@)
            } else {
                before
            };
            separated.appended(lines.last())
        }
    }

    /// With lines, each after a text and followed by a line feed.
    pub open spec fn with_lines(self, prefix: Seq<char>, lines: Seq<Seq<char>>) -> Render
        decreases lines.len(),
    {
        if lines.len() == 0 {
            self
        } else {
            let before = self.with_lines(prefix, lines.drop_last()).stepped();
            let prefixed = if prefix.len() > 0 {
                before.appended(prefix)
            } else {
                before
            };
            prefixed.appended(lines.last()).appended("\n"@)
        }
    }

    /// With a marker of a target, if its name is valid.
    pub open spec fn with_target(self, target: Seq<char>) -> Render {
        if valid_target(target) {
            self.appended("<!--xberg-myst-target:"@).appended(target).appended("-->"@).appended("\n\n"@)
        } else {
            self
        }
    }

    /// With a marker of a target, if there is one.
    pub open spec fn with_optional_target(self, target: Option<Seq<char>>) -> Render {
        match target {
            Some(name) => self.with_target(name),
            None => self,
        }
    }
}

/// What more text does: a rendering that has failed stays as it is, and one that does not fail has the text at its
/// end.
pub broadcast proof fn lemma_appended(r: Render, t: Seq<char>)
    ensures
        r.failed() ==> #[trigger] r.appended(t) == r,
        !r.appended(t).failed() ==> !r.failed() && r.appended(t).text == r.text + t,
        r.appended(t).too_deep == r.too_deep,
{
    reveal(Render::appended);
}

/// Nothing rendered, after something else was.
pub open spec fn blank_after(r: Render) -> Render {
    Render { text: Seq::empty(), ..r }
}

/// What was rendered apart, added to a text.
pub open spec fn added_to(r: Render, apart: Render) -> Render {
    Render { text: r.text, ..apart }.appended(apart.text)
}

/// Renders a text within the ceilings of a budget.
pub struct Renderer {
    /// The text.
    pub output: String,
    /// What it has cost.
    pub ledger: Ledger,
    /// Whether directives were nested too deeply.
    pub too_deep: bool,
}

impl View for Renderer {
    type V = Render;

    open spec fn view(&self) -> Render {
        Render { text: self.output@, ledger: self.ledger, too_deep: self.too_deep }
    }
}

impl Renderer {
    /// Nothing rendered yet.
    pub fn new(ledger: Ledger) -> (r: Self)
        ensures
            r@ == (Render { text: Seq::empty(), ledger, too_deep: false }),
    {
        let r = Renderer { output: String::new(), ledger, too_deep: false };
        proof {
            assert(r@ =~= (Render { text: Seq::empty(), ledger, too_deep: false }));
        }
        r
    }

    fn failed(&self) -> (r: bool)
        ensures
            r == self@.failed(),
    {
        self.too_deep || self.ledger.failed()
    }

    fn append(&mut self, t: &str)
        ensures
            final(self)@ == old(self)@.appended(t@),
    {
        proof {
            reveal(Render::appended);
        }
        if !self.failed() {
            self.ledger.account_text(t);
            if !self.ledger.failed() {
                self.output.append(t);
            }
        }
    }

    fn append_chars(&mut self, t: &[char])
        ensures
            final(self)@ == old(self)@.appended(t@),
    {
        let s = string_of(t);
        self.append(s.as_str());
    }

    fn step(&mut self)
        ensures
            final(self)@ == old(self)@.stepped(),
    {
        if !self.failed() {
            self.ledger.step();
        }
    }

    fn append_joined_lines(&mut self, lines: &[Vec<char>])
        ensures
            final(self)@ == old(self)@.with_joined(text::texts(lines@)),
    {
        let ghost all = text::texts(lines@);
        let mut i: usize = 0;
        while i < lines.len()
            invariant
                i <= lines.len(),
                all == text::texts(lines@),
                self@ == old(self)@.with_joined(all.take(i as int)),
            decreases lines.len() - i,
        {
            proof {
                assert(all.take(i + 1).drop_last() =~= all.take(i as int));
                assert(all.take(i + 1).last() == lines@[i as int]@);
            }
            self.step();
            if i > 0 {
                self.append("\n");
            }
            self.append_chars(lines[i].as_slice());
            i = i + 1;
        }
        proof {
            assert(all.take(all.len() as int) =~= all);
        }
    }

    fn append_lines(&mut self, prefix: &str, lines: &[Vec<char>])
        ensures
            final(self)@ == old(self)@.with_lines(prefix@, text::texts(lines@)),
    {
        let ghost all = text::texts(lines@);
        let mut i: usize = 0;
        while i < lines.len()
            invariant
                i <= lines.len(),
                all == text::texts(lines@),
                self@ == old(self)@.with_lines(prefix@, all.take(i as int)),
            decreases lines.len() - i,
        {
            proof {
                assert(all.take(i + 1).drop_last() =~= all.take(i as int));
                assert(all.take(i + 1).last() == lines@[i as int]@);
            }
            self.step();
            if !prefix.is_empty() {
                self.append(prefix);
            }
            self.append_chars(lines[i].as_slice());
            self.append("\n");
            i = i + 1;
        }
        proof {
            assert(all.take(all.len() as int) =~= all);
        }
    }

    /// Appends a marker of a target, if its name is valid.
    pub fn render_target_marker(&mut self, target: &[char])
        ensures
            final(self)@ == old(self)@.with_target(target@),
    {
        if is_valid_target(target) {
            self.append("<!--xberg-myst-target:");
            self.append_chars(target);
            self.append("-->");
            self.append("\n\n");
        }
    }
}

/// Whether a character may stand in the name of a target.
pub open spec fn is_target_char(c: char) -> bool {
    text::is_letter(c) || text::is_digit(c) || c == '-' || c == '_' || c == '.' || c == ':'
}

/// Whether a text is the name of a target.
pub open spec fn valid_target(t: Seq<char>) -> bool {
    t.len() > 0 && forall|i: int| 0 <= i < t.len() ==> is_target_char(#[trigger] t[i])
}

/// Whether a text is the name of a target.
pub fn is_valid_target(target: &[char]) -> (r: bool)
    ensures
        r == valid_target(target@),
{
    let mut i: usize = 0;
    while i < target.len()
        invariant
            i <= target.len(),
            forall|k: int| 0 <= k < i ==> is_target_char(#[trigger] target@[k]),
        decreases target.len() - i,
    {
        let c = target[i];
        if !(letter(c) || text::ascii_digit(c) || c == '-' || c == '_' || c == '.' || c == ':') {
            return false;
        }
        i = i + 1;
    }
    target.len() > 0
}

/// The name of the target that a marker is for.
pub open spec fn marked_target(value: Seq<char>) -> Option<Seq<char>> {
    let t = text::trimmed(value);
    let prefix = "<!--xberg-myst-target:"@;
    let suffix = "-->"@;
    if text::occurs_at(t, prefix, 0) && text::ends_with(t.skip(prefix.len() as int), suffix) {
        let name = t.skip(prefix.len() as int).take(t.len() - prefix.len() - suffix.len());
        if valid_target(name) {
            Some(name)
        } else {
            None
        }
    } else {
        None
    }
}

/// The name of the target that a marker is for.
pub fn myst_target_marker(value: &str) -> (r: Option<String>)
    ensures
        document::opt_text(r) == marked_target(value@),
{
    let letters = chars_of(value);
    let t = trim(letters.as_slice());
    let prefix = chars_of("<!--xberg-myst-target:");
    let suffix = chars_of("-->");
    if !has_prefix(t, "<!--xberg-myst-target:") {
        return None;
    }
    let rest = slice_subrange(t, prefix.len(), t.len());
    proof {
        assert(rest@ =~= t@.skip(prefix@.len() as int));
    }
    if !has_suffix(rest, "-->") {
        return None;
    }
    let name = slice_subrange(rest, 0, rest.len() - suffix.len());
    proof {
        assert(name@ =~= t@.skip(prefix@.len() as int).take(t@.len() - prefix@.len() - suffix@.len()));
    }
    if is_valid_target(name) {
        Some(string_of(name))
    } else {
        None
    }
}

/// The name of a target that stands on a line of its own.
pub open spec fn target_on_line(line: Seq<char>) -> Option<Seq<char>> {
    if line.len() > 0 && line[0] == '(' && text::ends_with(line.skip(1), ")="@) {
        let name = text::trimmed(line.skip(1).take(line.len() - 3));
        if valid_target(name) {
            Some(name)
        } else {
            None
        }
    } else {
        None
    }
}

fn standalone_target<'a>(line: &'a [char]) -> (r: Option<&'a [char]>)
    ensures
        match r {
            Some(name) => target_on_line(line@) == Some(name@),
            None => target_on_line(line@) is None,
        },
{
    proof {
        reveal_strlit(")=");
        assert(")="@.len() == 2);
    }
    if line.len() == 0 || line[0] != '(' {
        return None;
    }
    let rest = slice_subrange(line, 1, line.len());
    proof {
        assert(rest@ =~= line@.skip(1));
    }
    if !has_suffix(rest, ")=") {
        return None;
    }
    let inner = slice_subrange(rest, 0, rest.len() - 2);
    proof {
        assert(inner@ =~= line@.skip(1).take(line@.len() - 3));
    }
    let name = trim(inner);
    if is_valid_target(name) {
        Some(name)
    } else {
        None
    }
}

/// A marker of a target gives back the name that it was made for.
pub proof fn law_target_marker_is_read_back(target: Seq<char>)
    requires
        valid_target(target),
    ensures
        marked_target("<!--xberg-myst-target:"@ + target + "-->"@) == Some(target),
{
    reveal_strlit("<!--xberg-myst-target:");
    reveal_strlit("-->");
    let prefix = "<!--xberg-myst-target:"@;
    let suffix = "-->"@;
    let all = prefix + target + suffix;
    assert(all[0] == '<');
    assert(all.last() == '>');
    assert(text::trimmed_start(all) == all);
    assert(text::trimmed(all) == all);
    assert(all.subrange(0, prefix.len() as int) =~= prefix);
    assert(text::occurs_at(all, prefix, 0));
    let rest = all.skip(prefix.len() as int);
    assert(rest =~= target + suffix);
    assert(rest.skip(rest.len() - suffix.len()) =~= suffix);
    assert(rest.take(all.len() - prefix.len() - suffix.len()) =~= target);
}

/// A directive: the length of its fence, its kind and its argument.
#[verifier::ext_equal]
pub struct Directive {
    /// The length of its fence.
    pub fence: nat,
    /// Its kind.
    pub kind: Seq<char>,
    /// Its argument.
    pub argument: Seq<char>,
}

/// The kind and the argument of a directive, from what follows the opening brace.
pub open spec fn kind_and_argument(header: Seq<char>) -> Option<(Seq<char>, Seq<char>)> {
    match text::position_of(header, '}', 0) {
        Some(p) => Some((text::trimmed(header.take(p)), text::trimmed(header.skip(p + 1)))),
        None => None,
    }
}

/// The directive that a line of colons opens.
pub open spec fn colon_directive(line: Seq<char>) -> Option<Directive> {
    let fence = text::leading(line, ':');
    let rest = line.skip(fence as int);
    if fence < 3 || rest.len() == 0 || rest[0] != '{' {
        None
    } else {
        match kind_and_argument(rest.skip(1)) {
            Some(found) => Some(Directive { fence, kind: found.0, argument: found.1 }),
            None => None,
        }
    }
}

/// The kind and the argument of the directive that a line of back quotes opens.
pub open spec fn fenced_directive(line: Seq<char>) -> Option<(Seq<char>, Seq<char>)> {
    if text::occurs_at(line, "```{"@, 0) {
        kind_and_argument(line.skip(4))
    } else {
        None
    }
}

/// A directive that a line opens.
pub struct ColonDirective {
    /// The length of its fence.
    pub fence_length: usize,
    /// Its kind.
    pub kind: Vec<char>,
    /// Its argument.
    pub argument: Vec<char>,
}

fn copy_chars(s: &[char]) -> (r: Vec<char>)
    ensures
        r@ == s@,
{
    let mut out: Vec<char> = Vec::new();
    text::push_chars(&mut out, s);
    proof {
        assert(out@ =~= s@);
    }
    out
}

fn parse_header(header: &[char]) -> (r: Option<(Vec<char>, Vec<char>)>)
    ensures
        match r {
            Some(found) => kind_and_argument(header@) == Some((found.0@, found.1@)),
            None => kind_and_argument(header@) is None,
        },
{
    let n = header.len();
    match find_char(header, '}', 0) {
        Some(p) => {
            let kind = slice_subrange(header, 0, p);
            let argument = slice_subrange(header, p + 1, n);
            proof {
                assert(kind@ =~= header@.take(p as int));
                assert(argument@ =~= header@.skip(p + 1));
            }
            Some((copy_chars(trim(kind)), copy_chars(trim(argument))))
        },
        None => None,
    }
}

/// The directive that a line of colons opens.
pub fn parse_colon_directive(line: &[char]) -> (r: Option<ColonDirective>)
    ensures
        match r {
            Some(d) => colon_directive(line@) == Some(
                Directive { fence: d.fence_length as nat, kind: d.kind@, argument: d.argument@ },
            ),
            None => colon_directive(line@) is None,
        },
{
    let fence = count_leading(line, ':');
    if fence < 3 || fence >= line.len() || line[fence] != '{' {
        return None;
    }
    let header = slice_subrange(line, fence + 1, line.len());
    proof {
        assert(header@ =~= line@.skip(fence as int).skip(1));
    }
    match parse_header(header) {
        Some((kind, argument)) => Some(ColonDirective { fence_length: fence, kind, argument }),
        None => None,
    }
}

/// The kind and the argument of the directive that a line of back quotes opens.
pub fn parse_fenced_directive(line: &[char]) -> (r: Option<(Vec<char>, Vec<char>)>)
    ensures
        match r {
            Some(found) => fenced_directive(line@) == Some((found.0@, found.1@)),
            None => fenced_directive(line@) is None,
        },
{
    proof {
        reveal_strlit("```{");
        assert("```{"@.len() == 4);
    }
    if !has_prefix(line, "```{") {
        return None;
    }
    let header = slice_subrange(line, 4, line.len());
    proof {
        assert(header@ =~= line@.skip(4));
    }
    parse_header(header)
}

/// Whether a kind of directive is rendered.
pub open spec fn is_supported(kind: Seq<char>) -> bool {
    kind == "admonition"@ || kind == "attention"@ || kind == "caution"@ || kind == "danger"@ || kind == "error"@ || kind == "hint"@ || kind == "important"@ || kind == "note"@ || kind == "seealso"@ || kind == "tip"@ || kind == "warning"@ || kind == "math"@ || kind == "code-cell"@ || kind == "code-block"@ || kind == "image"@ || kind == "figure"@ || kind == "table"@
}

/// Whether a kind of directive is rendered.
pub fn is_supported_directive(kind: &[char]) -> (r: bool)
    ensures
        r == is_supported(kind@),
{
    is_str(kind, "admonition") || is_str(kind, "attention") || is_str(kind, "caution") || is_str(kind, "danger") || is_str(kind, "error") || is_str(kind, "hint") || is_str(kind, "important") || is_str(kind, "note") || is_str(kind, "seealso") || is_str(kind, "tip") || is_str(kind, "warning") || is_str(kind, "math") || is_str(kind, "code-cell") || is_str(kind, "code-block") || is_str(kind, "image") || is_str(kind, "figure") || is_str(kind, "table")
}

/// The line that closes a directive of colons, from a line on, and what the search has cost. Directives
/// with a fence of the same length may be nested.
pub open spec fn colon_end(l: Ledger, lines: Seq<Seq<char>>, i: int, fence: nat, open: nat) -> (Ledger, int)
    decreases lines.len() - i,
{
    if i >= lines.len() {
        (l, lines.len() as int)
    } else {
        let stepped = l.stepped();
        let t = text::trimmed(lines[i]);
        let opens = colon_directive(t);
        if stepped.verdict is Err {
            (stepped, i)
        } else if opens is Some && opens->0.fence == fence {
            colon_end(stepped, lines, i + 1, fence, open + 1)
        } else if t.len() == fence && text::leading(t, ':') == fence {
            if open <= 1 {
                (stepped, i)
            } else {
                colon_end(stepped, lines, i + 1, fence, (open - 1) as nat)
            }
        } else {
            colon_end(stepped, lines, i + 1, fence, open)
        }
    }
}

/// The line that closes a block with a delimiter, from a line on, and what the search has cost.
pub open spec fn closing_line(l: Ledger, lines: Seq<Seq<char>>, i: int, delimiter: Seq<char>) -> (Ledger, int)
    decreases lines.len() - i,
{
    if i >= lines.len() {
        (l, lines.len() as int)
    } else {
        let stepped = l.stepped();
        if stepped.verdict is Err || text::trimmed(lines[i]) == delimiter {
            (stepped, i)
        } else {
            closing_line(stepped, lines, i + 1, delimiter)
        }
    }
}

/// The end of a block does not come before its start.
pub proof fn lemma_ends_are_within(
    l: Ledger,
    lines: Seq<Seq<char>>,
    i: int,
    fence: nat,
    open: nat,
    delimiter: Seq<char>,
)
    requires
        0 <= i <= lines.len(),
    ensures
        i <= colon_end(l, lines, i, fence, open).1 <= lines.len(),
        i <= closing_line(l, lines, i, delimiter).1 <= lines.len(),
    decreases lines.len() - i,
{
    if i < lines.len() {
        lemma_ends_are_within(l.stepped(), lines, i + 1, fence, open + 1, delimiter);
        lemma_ends_are_within(l.stepped(), lines, i + 1, fence, open, delimiter);
        if open > 1 {
            lemma_ends_are_within(l.stepped(), lines, i + 1, fence, (open - 1) as nat, delimiter);
        }
    }
}

fn find_colon_directive_end(lines: &[Vec<char>], start: usize, fence_length: usize, ledger: &mut Ledger) -> (end: usize)
    requires
        1 <= start <= lines@.len(),
    ensures
        (*final(ledger), end as int) == colon_end(*old(ledger), text::texts(lines@), start as int, fence_length as nat, 1),
        start <= end <= lines@.len(),
{
    let ghost all = text::texts(lines@);
    let ghost wanted = colon_end(*ledger, all, start as int, fence_length as nat, 1);
    let mut open: usize = 1;
    let mut i: usize = start;
    while i < lines.len()
        invariant
            start <= i <= lines.len(),
            all == text::texts(lines@),
            1 <= open <= 1 + (i - start),
            1 <= start,
            wanted == colon_end(*old(ledger), all, start as int, fence_length as nat, 1),
            wanted == colon_end(*ledger, all, i as int, fence_length as nat, open as nat),
        decreases lines.len() - i,
    {
        proof {
            assert(all[i as int] == lines@[i as int]@);
        }
        ledger.step();
        if ledger.failed() {
            return i;
        }
        let t = trim(lines[i].as_slice());
        let nested = match parse_colon_directive(t) {
            Some(d) => d.fence_length == fence_length,
            None => false,
        };
        if nested {
            open = open + 1;
        } else if t.len() == fence_length && count_leading(t, ':') == fence_length {
            if open == 1 {
                return i;
            }
            open = open - 1;
        }
        i = i + 1;
    }
    lines.len()
}

fn find_closing_line(lines: &[Vec<char>], start: usize, delimiter: &str, ledger: &mut Ledger) -> (end: usize)
    requires
        start <= lines@.len(),
    ensures
        (*final(ledger), end as int) == closing_line(*old(ledger), text::texts(lines@), start as int, delimiter@),
        start <= end <= lines@.len(),
{
    let ghost all = text::texts(lines@);
    let ghost wanted = closing_line(*ledger, all, start as int, delimiter@);
    let mut i: usize = start;
    while i < lines.len()
        invariant
            start <= i <= lines.len(),
            all == text::texts(lines@),
            wanted == closing_line(*old(ledger), all, start as int, delimiter@),
            wanted == closing_line(*ledger, all, i as int, delimiter@),
        decreases lines.len() - i,
    {
        proof {
            assert(all[i as int] == lines@[i as int]@);
        }
        ledger.step();
        if ledger.failed() || is_str(trim(lines[i].as_slice()), delimiter) {
            return i;
        }
        i = i + 1;
    }
    lines.len()
}

/// Whether a text is the name of an option.
pub open spec fn is_option_name(name: Seq<char>) -> bool {
    name.len() > 0 && forall|i: int|
        0 <= i < name.len() ==> text::is_letter(#[trigger] name[i]) || text::is_digit(name[i]) || name[i] == '-'
            || name[i] == '_'
}

/// The name and the value that a line gives an option.
pub open spec fn option_on_line(line: Seq<char>) -> Option<(Seq<char>, Seq<char>)> {
    let t = text::trimmed(line);
    if t.len() == 0 || t[0] != ':' {
        None
    } else {
        let rest = t.skip(1);
        match text::position_of(rest, ':', 0) {
            Some(p) => {
                let name = text::trimmed(rest.take(p));
                if is_option_name(name) {
                    Some((name, text::trimmed(rest.skip(p + 1))))
                } else {
                    None
                }
            },
            None => None,
        }
    }
}

/// The options of a directive from a line on, the line after them, and what reading them has cost.
pub open spec fn directive_options(
    l: Ledger,
    lines: Seq<Seq<char>>,
    i: int,
    end: int,
    found: Seq<(Seq<char>, Seq<char>)>,
) -> (Ledger, Seq<(Seq<char>, Seq<char>)>, int)
    decreases end - i,
{
    if i >= end {
        (l, found, i)
    } else {
        let stepped = l.stepped();
        match option_on_line(lines[i]) {
            Some(entry) => if stepped.verdict is Err {
                (stepped, found, i)
            } else {
                directive_options(stepped, lines, i + 1, end, found.push(entry))
            },
            None => (stepped, found, i),
        }
    }
}

/// Options end within their directive.
pub proof fn lemma_options_are_within(
    l: Ledger,
    lines: Seq<Seq<char>>,
    i: int,
    end: int,
    found: Seq<(Seq<char>, Seq<char>)>,
)
    requires
        i <= end,
    ensures
        i <= directive_options(l, lines, i, end, found).2 <= end,
    decreases end - i,
{
    if i < end {
        if let Some(entry) = option_on_line(lines[i]) {
            lemma_options_are_within(l.stepped(), lines, i + 1, end, found.push(entry));
        }
    }
}

/// The value of an option; the last one counts, and an empty one does not.
pub open spec fn option_of(options: Seq<(Seq<char>, Seq<char>)>, name: Seq<char>) -> Option<Seq<char>>
    decreases options.len(),
{
    if options.len() == 0 {
        None
    } else if options.last().0 == name {
        if options.last().1.len() > 0 {
            Some(options.last().1)
        } else {
            None
        }
    } else {
        option_of(options.drop_last(), name)
    }
}

/// The value of an option, or else that of another.
pub open spec fn option_or(
    options: Seq<(Seq<char>, Seq<char>)>,
    first: Seq<char>,
    second: Seq<char>,
) -> Option<Seq<char>> {
    match option_of(options, first) {
        Some(value) => Some(value),
        None => option_of(options, second),
    }
}

/// The texts of options.
pub open spec fn option_texts(options: Seq<(Vec<char>, Vec<char>)>) -> Seq<(Seq<char>, Seq<char>)> {
    options.map_values(|o: (Vec<char>, Vec<char>)| (o.0@, o.1@))
}

fn parse_option(line: &[char]) -> (r: Option<(Vec<char>, Vec<char>)>)
    ensures
        match r {
            Some(entry) => option_on_line(line@) == Some((entry.0@, entry.1@)),
            None => option_on_line(line@) is None,
        },
{
    let t = trim(line);
    if t.len() == 0 || t[0] != ':' {
        return None;
    }
    let rest = slice_subrange(t, 1, t.len());
    proof {
        assert(rest@ =~= t@.skip(1));
    }
    match find_char(rest, ':', 0) {
        Some(p) => {
            let head = slice_subrange(rest, 0, p);
            let tail = slice_subrange(rest, p + 1, rest.len());
            proof {
                assert(head@ =~= rest@.take(p as int));
                assert(tail@ =~= rest@.skip(p + 1));
            }
            let name = trim(head);
            let mut i: usize = 0;
            while i < name.len()
                invariant
                    i <= name.len(),
                    forall|k: int|
                        0 <= k < i ==> text::is_letter(#[trigger] name@[k]) || text::is_digit(name@[k]) || name@[k]
                            == '-' || name@[k] == '_',
                    name@ == text::trimmed(rest@.take(p as int)),
                    rest@ == text::trimmed(line@).skip(1),
                    text::trimmed(line@).len() > 0 && text::trimmed(line@)[0] == ':',
                    text::position_of(rest@, ':', 0) == Some(p as int),
                decreases name.len() - i,
            {
                let c = name[i];
                if !(letter(c) || text::ascii_digit(c) || c == '-' || c == '_') {
                    proof {
                        assert(!is_option_name(name@));
                    }
                    return None;
                }
                i = i + 1;
            }
            if name.len() == 0 {
                return None;
            }
            Some((copy_chars(name), copy_chars(trim(tail))))
        },
        None => None,
    }
}

fn parse_directive_options(lines: &[Vec<char>], start: usize, end: usize, ledger: &mut Ledger) -> (r: (
    Vec<(Vec<char>, Vec<char>)>,
    usize,
))
    requires
        start <= end <= lines@.len(),
    ensures
        (*final(ledger), option_texts(r.0@), r.1 as int) == directive_options(
            *old(ledger),
            text::texts(lines@),
            start as int,
            end as int,
            Seq::empty(),
        ),
        start <= r.1 <= end,
{
    let ghost all = text::texts(lines@);
    let ghost wanted = directive_options(*ledger, all, start as int, end as int, Seq::empty());
    let mut options: Vec<(Vec<char>, Vec<char>)> = Vec::new();
    let mut i: usize = start;
    proof {
        assert(option_texts(options@) =~= Seq::empty());
    }
    while i < end
        invariant
            start <= i <= end,
            end <= lines@.len(),
            all == text::texts(lines@),
            wanted == directive_options(*old(ledger), all, start as int, end as int, Seq::empty()),
            wanted == directive_options(*ledger, all, i as int, end as int, option_texts(options@)),
        decreases end - i,
    {
        proof {
            assert(all[i as int] == lines@[i as int]@);
        }
        ledger.step();
        match parse_option(lines[i].as_slice()) {
            Some(entry) => {
                if ledger.failed() {
                    return (options, i);
                }
                proof {
                    assert(option_texts(options@.push(entry)) =~= option_texts(options@).push((entry.0@, entry.1@)));
                }
                options.push(entry);
            },
            None => {
                return (options, i);
            },
        }
        i = i + 1;
    }
    (options, i)
}

fn find_option<'a>(options: &'a [(Vec<char>, Vec<char>)], name: &str) -> (r: Option<&'a [char]>)
    ensures
        match r {
            Some(value) => option_of(option_texts(options@), name@) == Some(value@),
            None => option_of(option_texts(options@), name@) is None,
        },
{
    let ghost all = option_texts(options@);
    let mut n: usize = options.len();
    proof {
        assert(all.take(n as int) =~= all);
    }
    while n > 0
        invariant
            n <= options.len(),
            all == option_texts(options@),
            option_of(all.take(n as int), name@) == option_of(all, name@),
        decreases n,
    {
        proof {
            assert(all.take(n as int).drop_last() =~= all.take(n - 1));
            assert(all.take(n as int).last() == (options@[n - 1].0@, options@[n - 1].1@));
        }
        if is_str(options[n - 1].0.as_slice(), name) {
            if options[n - 1].1.len() > 0 {
                return Some(options[n - 1].1.as_slice());
            }
            return None;
        }
        n = n - 1;
    }
    None
}

fn find_either<'a>(options: &'a [(Vec<char>, Vec<char>)], first: &str, second: &str) -> (r: Option<&'a [char]>)
    ensures
        match r {
            Some(value) => option_or(option_texts(options@), first@, second@) == Some(value@),
            None => option_or(option_texts(options@), first@, second@) is None,
        },
{
    match find_option(options, first) {
        Some(value) => Some(value),
        None => find_option(options, second),
    }
}

/// The label and the target of a role: `label <target>`, or both the same.
pub open spec fn label_and_target(value: Seq<char>) -> (Seq<char>, Seq<char>) {
    let t = text::trimmed(value);
    if t.len() > 0 && t.last() == '>' {
        let inner = t.drop_last();
        match text::last_position_of(inner, '<') {
            Some(p) => (text::trimmed(inner.take(p)), text::trimmed(inner.skip(p + 1))),
            None => (t, t),
        }
    } else {
        (t, t)
    }
}

fn role_label_and_target<'a>(value: &'a [char]) -> (r: (&'a [char], &'a [char]))
    ensures
        (r.0@, r.1@) == label_and_target(value@),
{
    let t = trim(value);
    let n = t.len();
    if n > 0 && t[n - 1] == '>' {
        let inner = slice_subrange(t, 0, n - 1);
        proof {
            assert(inner@ =~= t@.drop_last());
        }
        if let Some(p) = find_last_char(inner, '<') {
            let label = slice_subrange(inner, 0, p);
            let target = slice_subrange(inner, p + 1, n - 1);
            proof {
                assert(label@ =~= inner@.take(p as int));
                assert(target@ =~= inner@.skip(p + 1));
            }
            return (trim(label), trim(target));
        }
    }
    (t, t)
}

/// The length of the opening of a role at a position, and what its target is prefixed with.
pub open spec fn role_at(line: Seq<char>, p: int) -> Option<(int, Seq<char>)> {
    if text::occurs_at(line, "{ref}`"@, p) {
        Some((6, "#"@))
    } else if text::occurs_at(line, "{cite}`"@, p) {
        Some((7, "cite:"@))
    } else {
        None
    }
}

/// A text with a role as a link.
pub open spec fn with_role(r: Render, value: Seq<char>, prefix: Seq<char>) -> Render {
    let (label, target) = label_and_target(value);
    r.appended("["@).appended(label).appended("]("@).appended(prefix).appended(target).appended(")"@)
}

/// A text with a line from a position on, its roles as links. A role that is not closed stays as it
/// is, with all that follows.
pub open spec fn with_roles(r: Render, line: Seq<char>, cursor: int) -> Render
    decreases line.len() - cursor,
{
    if cursor < 0 || cursor > line.len() {
        r
    } else {
        match text::position_of(line, '{', cursor) {
            None => r.appended(line.skip(cursor)),
            Some(p) => if p < cursor || p >= line.len() {
                r
            } else {
                let before = r.stepped().appended(line.subrange(cursor, p));
                match role_at(line, p) {
                    None => with_roles(before.appended("{"@), line, p + 1),
                    Some((length, prefix)) => match text::position_of(line, '`', p + length) {
                        None => before.appended(line.skip(p)),
                        Some(end) => if end < p + length || end >= line.len() {
                            before
                        } else {
                            with_roles(
                                with_role(before, line.subrange(p + length, end), prefix),
                                line,
                                end + 1,
                            )
                        },
                    },
                }
            },
        }
    }
}

impl Renderer {
    fn render_role(&mut self, value: &[char], prefix: &str)
        ensures
            final(self)@ == with_role(old(self)@, value@, prefix@),
    {
        let (label, target) = role_label_and_target(value);
        self.append("[");
        self.append_chars(label);
        self.append("](");
        self.append(prefix);
        self.append_chars(target);
        self.append(")");
    }

    /// Appends a line, its roles as links.
    pub fn replace_myst_roles(&mut self, line: &[char])
        ensures
            final(self)@ == with_roles(old(self)@, line@, 0),
    {
        proof {
            reveal_strlit("{ref}`");
            reveal_strlit("{cite}`");
            assert("{ref}`"@.len() == 6);
            assert("{cite}`"@.len() == 7);
        }
        let n = line.len();
        let ghost wanted = with_roles(self@, line@, 0);
        let mut cursor: usize = 0;
        while cursor <= n
            invariant
                cursor <= n,
                n == line@.len(),
                "{ref}`"@.len() == 6,
                "{cite}`"@.len() == 7,
                wanted == with_roles(old(self)@, line@, 0),
                wanted == with_roles(self@, line@, cursor as int),
            decreases n - cursor,
        {
            let p = match find_char(line, '{', cursor) {
                Some(p) => p,
                None => {
                    let tail = slice_subrange(line, cursor, n);
                    proof {
                        assert(tail@ =~= line@.skip(cursor as int));
                    }
                    self.append_chars(tail);
                    return;
                },
            };
            self.step();
            let before = slice_subrange(line, cursor, p);
            self.append_chars(before);
            let (length, prefix): (usize, &str) = if text::occurs(line, chars_of("{ref}`").as_slice(), p) {
                (6, "#")
            } else if text::occurs(line, chars_of("{cite}`").as_slice(), p) {
                (7, "cite:")
            } else {
                self.append("{");
                cursor = p + 1;
                continue;
            };
            match find_char(line, '`', p + length) {
                None => {
                    let tail = slice_subrange(line, p, n);
                    proof {
                        assert(tail@ =~= line@.skip(p as int));
                    }
                    self.append_chars(tail);
                    return;
                },
                Some(end) => {
                    let value = slice_subrange(line, p + length, end);
                    self.render_role(value, prefix);
                    cursor = end + 1;
                },
            }
        }
    }
}

/// The title of an admonition that has none of its own.
pub open spec fn default_title(kind: Seq<char>) -> Seq<char> {
    if kind == "attention"@ {
        "Attention"@
    } else if kind == "caution"@ {
        "Caution"@
    } else if kind == "danger"@ {
        "Danger"@
    } else if kind == "error"@ {
        "Error"@
    } else if kind == "hint"@ {
        "Hint"@
    } else if kind == "important"@ {
        "Important"@
    } else if kind == "seealso"@ {
        "See also"@
    } else if kind == "tip"@ {
        "Tip"@
    } else if kind == "warning"@ {
        "Warning"@
    } else {
        "Note"@
    }
}

/// The title of an admonition that has none of its own.
pub fn admonition_display_title(kind: &[char]) -> (r: &'static str)
    ensures
        r@ == default_title(kind@),
{
    if is_str(kind, "attention") {
        "Attention"
    } else if is_str(kind, "caution") {
        "Caution"
    } else if is_str(kind, "danger") {
        "Danger"
    } else if is_str(kind, "error") {
        "Error"
    } else if is_str(kind, "hint") {
        "Hint"
    } else if is_str(kind, "important") {
        "Important"
    } else if is_str(kind, "seealso") {
        "See also"
    } else if is_str(kind, "tip") {
        "Tip"
    } else if is_str(kind, "warning") {
        "Warning"
    } else {
        "Note"
    }
}

/// The kind of alert that an admonition becomes.
pub open spec fn alert_kind(kind: Seq<char>) -> Seq<char> {
    if kind == "tip"@ || kind == "hint"@ {
        "TIP"@
    } else if kind == "important"@ {
        "IMPORTANT"@
    } else if kind == "warning"@ {
        "WARNING"@
    } else if kind == "caution"@ || kind == "danger"@ || kind == "error"@ {
        "CAUTION"@
    } else {
        "NOTE"@
    }
}

/// The kind of alert that an admonition becomes.
pub fn gfm_admonition_kind(kind: &[char]) -> (r: &'static str)
    ensures
        r@ == alert_kind(kind@),
{
    if is_str(kind, "tip") || is_str(kind, "hint") {
        "TIP"
    } else if is_str(kind, "important") {
        "IMPORTANT"
    } else if is_str(kind, "warning") {
        "WARNING"
    } else if is_str(kind, "caution") || is_str(kind, "danger") || is_str(kind, "error") {
        "CAUTION"
    } else {
        "NOTE"
    }
}

/// The rendering of a body apart, one level further down. The level is left again, whatever came of the body.
pub open spec fn nested_body(r: Render, lines: Seq<Seq<char>>, depth: nat) -> Render
    decreases 66 - depth, 0int,
    when depth <= 64
{
    let entered = blank_after(r).paid(r.ledger.entered());
    if r.failed() {
        blank_after(r)
    } else if entered.failed() {
        entered
    } else {
        let source = entered.with_joined(lines);
        let body = if source.failed() {
            source
        } else {
            with_content(blank_after(source), source.text, depth + 1)
        };
        body.paid(body.ledger.unwound())
    }
}

/// A text with the rendering of a body, which is one level further down.
pub open spec fn with_nested(r: Render, lines: Seq<Seq<char>>, depth: nat) -> Render
    decreases 66 - depth, 1int,
    when depth <= 64
{
    let body = nested_body(r, lines, depth);
    if body.failed() {
        Render { text: r.text, ..body }
    } else {
        added_to(r, body)
    }
}

/// A text with the rendering of some content.
pub open spec fn with_content(r: Render, content: Seq<char>, depth: nat) -> Render
    decreases 66 - depth, text::lines_of(content).len() + 5,
    when depth <= 65
{
    if r.failed() {
        r
    } else if depth > MAX_MYST_DIRECTIVE_DEPTH {
        Render { too_deep: true, ..r }
    } else {
        with_document(r, text::lines_of(content), 0, depth)
    }
}

/// What a block is that starts at a line.
pub enum Block {
    /// A directive with its kind and its argument; its options start on the next line and its body ends
    /// before a line.
    Directive(Seq<char>, Seq<char>, int),
    /// An ordinary block of code, which ends before a line.
    Fence(int),
    /// A target.
    Target(Seq<char>),
    /// A line of text.
    Line,
}

/// The block that starts at a line, and what finding its end has cost.
pub open spec fn block_at(l: Ledger, lines: Seq<Seq<char>>, i: int) -> (Ledger, Block) {
    let t = text::trimmed(lines[i]);
    let colon = colon_directive(t);
    let fenced = fenced_directive(t);
    if colon is Some && is_supported(colon->0.kind) {
        let (searched, end) = colon_end(l, lines, i + 1, colon->0.fence, 1);
        (searched, Block::Directive(colon->0.kind, colon->0.argument, end))
    } else if fenced is Some && is_supported((fenced->0).0) {
        let (searched, end) = closing_line(l, lines, i + 1, "```"@);
        (searched, Block::Directive((fenced->0).0, (fenced->0).1, end))
    } else if text::occurs_at(t, "```"@, 0) || text::occurs_at(t, "~~~"@, 0) {
        let delimiter = if text::occurs_at(t, "~~~"@, 0) {
            "~~~"@
        } else {
            "```"@
        };
        let (searched, end) = closing_line(l, lines, i + 1, delimiter);
        (searched, Block::Fence(after_line(lines, end)))
    } else {
        match target_on_line(t) {
            Some(target) => (l, Block::Target(target)),
            None => (l, Block::Line),
        }
    }
}

/// The line after one, or the end.
pub open spec fn after_line(lines: Seq<Seq<char>>, end: int) -> int {
    if end < lines.len() {
        end + 1
    } else {
        lines.len() as int
    }
}

/// The line after a block.
pub open spec fn block_next(lines: Seq<Seq<char>>, i: int, block: Block) -> int {
    match block {
        Block::Directive(_, _, end) => after_line(lines, end),
        Block::Fence(next) => next,
        _ => i + 1,
    }
}

/// Every block takes at least one line.
pub proof fn lemma_block_advances(l: Ledger, lines: Seq<Seq<char>>, i: int)
    requires
        0 <= i < lines.len(),
    ensures
        i < block_next(lines, i, block_at(l, lines, i).1) <= lines.len(),
        block_at(l, lines, i).1 matches Block::Directive(_, _, end) ==> i < end <= lines.len(),
{
    let t = text::trimmed(lines[i]);
    let colon = colon_directive(t);
    if colon is Some {
        lemma_ends_are_within(l, lines, i + 1, colon->0.fence, 1, Seq::empty());
    }
    lemma_ends_are_within(l, lines, i + 1, 0, 1, "```"@);
    lemma_ends_are_within(l, lines, i + 1, 0, 1, "~~~"@);
}

/// A text with the rendering of a block.
pub open spec fn with_block(r: Render, lines: Seq<Seq<char>>, i: int, block: Block, depth: nat) -> Render
    decreases 66 - depth, 3int,
    when depth <= 64
{
    match block {
        Block::Directive(kind, argument, end) => with_directive(r, lines, i + 1, end, kind, argument, depth),
        Block::Fence(next) => r.with_lines(Seq::empty(), lines.subrange(i, next)),
        Block::Target(target) => r.with_target(target),
        Block::Line => added_to(r, with_roles(blank_after(r), lines[i], 0)).appended("\n"@),
    }
}

/// A text with the rendering of lines from one on.
pub open spec fn with_document(r: Render, lines: Seq<Seq<char>>, i: int, depth: nat) -> Render
    decreases 66 - depth, lines.len() - i + 4,
    when 0 <= i && depth <= 64
{
    let stepped = r.stepped();
    if i >= lines.len() {
        r
    } else if stepped.failed() {
        stepped
    } else {
        proof {
            lemma_block_advances(stepped.ledger, lines, i);
        }
        let (searched, block) = block_at(stepped.ledger, lines, i);
        with_document(
            with_block(stepped.paid(searched), lines, i, block, depth),
            lines,
            block_next(lines, i, block),
            depth,
        )
    }
}

/// A text with the rendering of a directive whose options start at a line and whose body ends before
/// another.
pub open spec fn with_directive(
    r: Render,
    lines: Seq<Seq<char>>,
    start: int,
    end: int,
    kind: Seq<char>,
    argument: Seq<char>,
    depth: nat,
) -> Render
    decreases 66 - depth, 2int,
    when depth <= 64
{
    let (ledger, options, body_start) = directive_options(r.ledger, lines, start, end, Seq::empty());
    let paid = r.paid(ledger);
    let body = lines.subrange(body_start, end);
    if r.failed() || paid.failed() {
        if r.failed() {
            r
        } else {
            paid
        }
    } else if kind == "math"@ {
        with_math(paid, body, options)
    } else if kind == "code-cell"@ || kind == "code-block"@ {
        with_code(paid, body, argument, options)
    } else if kind == "image"@ || kind == "figure"@ {
        let image = with_image(paid, argument, options);
        if kind == "figure"@ && body.len() > 0 {
            with_nested(image, body, depth).appended("\n"@)
        } else {
            image
        }
    } else if kind == "table"@ {
        with_nested(with_table_head(paid, argument, options), body, depth).appended("\n"@)
    } else {
        with_quoted(with_admonition_head(paid, kind, argument, options), body, depth)
    }
}

/// A text with the quoted lines of the rendering of a body, which is one level further down.
pub open spec fn with_quoted(r: Render, lines: Seq<Seq<char>>, depth: nat) -> Render
    decreases 66 - depth, 1int,
    when depth <= 64
{
    let body = nested_body(r, lines, depth);
    if body.failed() {
        Render { text: r.text, ..body }
    } else {
        Render { text: r.text, ..body }.with_lines("> "@, text::lines_of(body.text)).appended("\n"@)
    }
}

/// A text with a formula.
pub open spec fn with_math(r: Render, body: Seq<Seq<char>>, options: Seq<(Seq<char>, Seq<char>)>) -> Render {
    r.with_optional_target(option_or(options, "label"@, "name"@)).appended("$$"@).with_joined(body).appended(
        "$$\n\n"@,
    )
}

/// A text with a block of code.
pub open spec fn with_code(
    r: Render,
    body: Seq<Seq<char>>,
    language: Seq<char>,
    options: Seq<(Seq<char>, Seq<char>)>,
) -> Render {
    let captioned = match option_of(options, "caption"@) {
        Some(caption) => r.appended(caption).appended("\n\n"@),
        None => r,
    };
    captioned.with_optional_target(option_or(options, "name"@, "label"@)).appended("```"@).appended(
        language,
    ).appended("\n"@).with_lines(Seq::empty(), body).appended("```\n\n"@)
}

/// A text with an image.
pub open spec fn with_image(r: Render, source: Seq<char>, options: Seq<(Seq<char>, Seq<char>)>) -> Render {
    let alt = match option_of(options, "alt"@) {
        Some(alt) => alt,
        None => source,
    };
    r.with_optional_target(option_of(options, "name"@)).appended("!["@).appended(alt).appended("]("@).appended(
        source,
    ).appended(")\n\n"@)
}

/// A text with what stands above a table: its title, then its target.
pub open spec fn with_table_head(r: Render, title: Seq<char>, options: Seq<(Seq<char>, Seq<char>)>) -> Render {
    let titled = if title.len() > 0 {
        r.appended(title).appended("\n\n"@)
    } else {
        r
    };
    titled.with_optional_target(option_of(options, "name"@))
}

/// The kind of an admonition; a plain one is a note.
pub open spec fn semantic_kind(kind: Seq<char>) -> Seq<char> {
    if kind == "admonition"@ {
        "note"@
    } else {
        kind
    }
}

/// The title of an admonition.
pub open spec fn admonition_title(
    kind: Seq<char>,
    argument: Seq<char>,
    options: Seq<(Seq<char>, Seq<char>)>,
) -> Seq<char> {
    let title = match option_of(options, "title"@) {
        Some(title) => title,
        None => argument,
    };
    if title.len() == 0 {
        default_title(semantic_kind(kind))
    } else {
        title
    }
}

/// A text with the head of an admonition: its target, the kind of alert, and a marker with its kind and
/// its title. A title that would break the marker is left out.
pub open spec fn with_admonition_head(
    r: Render,
    kind: Seq<char>,
    argument: Seq<char>,
    options: Seq<(Seq<char>, Seq<char>)>,
) -> Render {
    let title = admonition_title(kind, argument, options);
    let marked = r.with_optional_target(option_or(options, "name"@, "label"@)).appended("> [!"@).appended(
        alert_kind(semantic_kind(kind)),
    ).appended("]\n> "@).appended("\u{e000}xberg-myst-admonition:"@).appended(semantic_kind(kind)).appended(
        "\u{1f}"@,
    );
    let titled = if title.contains('\u{1f}') || title.contains('\u{e001}') {
        marked
    } else {
        marked.appended(title)
    };
    titled.appended("\u{e001}"@).appended("\n>\n"@)
}

impl Renderer {
    fn append_optional_target(&mut self, target: Option<&[char]>)
        ensures
            final(self)@ == old(self)@.with_optional_target(
                match target {
                    Some(name) => Some(name@),
                    None => None,
                },
            ),
    {
        if let Some(name) = target {
            self.render_target_marker(name);
        }
    }

    fn render_math_directive(&mut self, body: &[Vec<char>], options: &[(Vec<char>, Vec<char>)])
        ensures
            final(self)@ == with_math(old(self)@, text::texts(body@), option_texts(options@)),
    {
        self.append_optional_target(find_either(options, "label", "name"));
        self.append("$$");
        self.append_joined_lines(body);
        self.append("$$\n\n");
    }

    fn render_code_directive(&mut self, body: &[Vec<char>], language: &[char], options: &[(Vec<char>, Vec<char>)])
        ensures
            final(self)@ == with_code(old(self)@, text::texts(body@), language@, option_texts(options@)),
    {
        if let Some(caption) = find_option(options, "caption") {
            self.append_chars(caption);
            self.append("\n\n");
        }
        self.append_optional_target(find_either(options, "name", "label"));
        self.append("```");
        self.append_chars(language);
        self.append("\n");
        proof {
            reveal_strlit("");
            assert(""@ =~= Seq::<char>::empty());
        }
        self.append_lines("", body);
        self.append("```\n\n");
    }

    fn render_image(&mut self, source: &[char], options: &[(Vec<char>, Vec<char>)])
        ensures
            final(self)@ == with_image(old(self)@, source@, option_texts(options@)),
    {
        self.append_optional_target(find_option(options, "name"));
        self.append("![");
        match find_option(options, "alt") {
            Some(alt) => self.append_chars(alt),
            None => self.append_chars(source),
        }
        self.append("](");
        self.append_chars(source);
        self.append(")\n\n");
    }

    fn render_table_head(&mut self, title: &[char], options: &[(Vec<char>, Vec<char>)])
        ensures
            final(self)@ == with_table_head(old(self)@, title@, option_texts(options@)),
    {
        if title.len() > 0 {
            self.append_chars(title);
            self.append("\n\n");
        }
        self.append_optional_target(find_option(options, "name"));
    }

    fn render_admonition_head(&mut self, kind: &[char], argument: &[char], options: &[(Vec<char>, Vec<char>)])
        ensures
            final(self)@ == with_admonition_head(old(self)@, kind@, argument@, option_texts(options@)),
    {
        let semantic: Vec<char> = if is_str(kind, "admonition") {
            chars_of("note")
        } else {
            copy_chars(kind)
        };
        let given: Vec<char> = match find_option(options, "title") {
            Some(title) => copy_chars(title),
            None => copy_chars(argument),
        };
        let title: Vec<char> = if given.len() == 0 {
            chars_of(admonition_display_title(semantic.as_slice()))
        } else {
            given
        };
        self.append_optional_target(find_either(options, "name", "label"));
        self.append("> [!");
        self.append(gfm_admonition_kind(semantic.as_slice()));
        self.append("]\n> ");
        self.append("\u{e000}xberg-myst-admonition:");
        self.append_chars(semantic.as_slice());
        self.append("\u{1f}");
        if !contains_char(title.as_slice(), '\u{1f}') && !contains_char(title.as_slice(), '\u{e001}') {
            self.append_chars(title.as_slice());
        }
        self.append("\u{e001}");
        self.append("\n>\n");
    }

    /// Takes what was rendered, and leaves nothing.
    fn take_output(&mut self) -> (r: String)
        ensures
            r@ == old(self)@.text,
            final(self)@ == blank_after(old(self)@),
    {
        let mut taken = String::new();
        std::mem::swap(&mut taken, &mut self.output);
        proof {
            assert(self@.text =~= Seq::<char>::empty());
        }
        taken
    }

    fn render_body(&mut self, body: &[Vec<char>], depth: usize) -> (kept: String)
        requires
            depth <= 64,
        ensures
            final(self)@ == nested_body(old(self)@, text::texts(body@), depth as nat),
            kept@ == old(self)@.text,
        decreases 66 - depth, 0int,
    {
        let failed = self.failed();
        let kept = self.take_output();
        if failed {
            return kept;
        }
        self.ledger.enter();
        if self.failed() {
            return kept;
        }
        self.append_joined_lines(body);
        if !self.failed() {
            let source = self.take_output();
            self.render_content(chars_of(source.as_str()).as_slice(), depth + 1);
        }
        self.ledger.unwind();
        kept
    }

    fn render_nested(&mut self, body: &[Vec<char>], depth: usize)
        requires
            depth <= 64,
        ensures
            final(self)@ == with_nested(old(self)@, text::texts(body@), depth as nat),
        decreases 66 - depth, 1int,
    {
        let kept = self.render_body(body, depth);
        let failed = self.failed();
        let rendered = self.take_output();
        self.output = kept;
        if !failed {
            self.append(rendered.as_str());
        }
    }

    fn render_quoted(&mut self, body: &[Vec<char>], depth: usize)
        requires
            depth <= 64,
        ensures
            final(self)@ == with_quoted(old(self)@, text::texts(body@), depth as nat),
        decreases 66 - depth, 1int,
    {
        let kept = self.render_body(body, depth);
        let failed = self.failed();
        let rendered = self.take_output();
        self.output = kept;
        if !failed {
            let quoted = lines(chars_of(rendered.as_str()).as_slice());
            self.append_lines("> ", quoted.as_slice());
            self.append("\n");
        }
    }

    fn render_content(&mut self, content: &[char], depth: usize)
        requires
            depth <= 65,
        ensures
            final(self)@ == with_content(old(self)@, content@, depth as nat),
        decreases 66 - depth, 6int,
    {
        if self.failed() {
            return;
        }
        if depth > MAX_MYST_DIRECTIVE_DEPTH {
            self.too_deep = true;
            return;
        }
        let all = lines(content);
        self.render_document(all.as_slice(), depth);
    }

    #[verifier::spinoff_prover]
    fn render_directive(
        &mut self,
        all: &[Vec<char>],
        start: usize,
        end: usize,
        kind: &[char],
        argument: &[char],
        depth: usize,
    )
        requires
            depth <= 64,
            start <= end <= all@.len(),
        ensures
            final(self)@ == with_directive(
                old(self)@,
                text::texts(all@),
                start as int,
                end as int,
                kind@,
                argument@,
                depth as nat,
            ),
        decreases 66 - depth, 3int,
    {
        if self.failed() {
            return;
        }
        let (options, body_start) = parse_directive_options(all, start, end, &mut self.ledger);
        if self.failed() {
            return;
        }
        let body = slice_subrange(all, body_start, end);
        proof {
            assert(text::texts(body@) =~= text::texts(all@).subrange(body_start as int, end as int));
        }
        if is_str(kind, "math") {
            self.render_math_directive(body, options.as_slice());
        } else if is_str(kind, "code-cell") || is_str(kind, "code-block") {
            self.render_code_directive(body, argument, options.as_slice());
        } else if is_str(kind, "image") || is_str(kind, "figure") {
            self.render_image(argument, options.as_slice());
            if is_str(kind, "figure") && body.len() > 0 {
                self.render_nested(body, depth);
                self.append("\n");
            }
        } else if is_str(kind, "table") {
            self.render_table_head(argument, options.as_slice());
            self.render_nested(body, depth);
            self.append("\n");
        } else {
            self.render_admonition_head(kind, argument, options.as_slice());
            self.render_quoted(body, depth);
        }
    }

    fn render_fence(&mut self, all: &[Vec<char>], i: usize, delimiter: &str) -> (next: usize)
        requires
            i < all@.len(),
        ensures
            ({
                let lines = text::texts(all@);
                let (searched, end) = closing_line(old(self)@.ledger, lines, i + 1, delimiter@);
                &&& next == after_line(lines, end)
                &&& final(self)@ == old(self)@.paid(searched).with_lines(
                    Seq::empty(),
                    lines.subrange(i as int, next as int),
                )
            }),
    {
        let n = all.len();
        let end = find_closing_line(all, i + 1, delimiter, &mut self.ledger);
        let next = if end < n {
            end + 1
        } else {
            n
        };
        let block = slice_subrange(all, i, next);
        proof {
            assert(text::texts(block@) =~= text::texts(all@).subrange(i as int, next as int));
            reveal_strlit("");
            assert(""@ =~= Seq::<char>::empty());
        }
        self.append_lines("", block);
        next
    }

    fn render_text_line(&mut self, line: &[char])
        ensures
            final(self)@ == added_to(old(self)@, with_roles(blank_after(old(self)@), line@, 0)).appended("\n"@),
    {
        let kept = self.take_output();
        self.replace_myst_roles(line);
        let rendered = self.take_output();
        self.output = kept;
        self.append(rendered.as_str());
        self.append("\n");
    }

    fn render_block(&mut self, all: &[Vec<char>], i: usize, depth: usize) -> (next: usize)
        requires
            depth <= 64,
            i < all@.len(),
        ensures
            ({
                let lines = text::texts(all@);
                let (searched, block) = block_at(old(self)@.ledger, lines, i as int);
                &&& next == block_next(lines, i as int, block)
                &&& final(self)@ == with_block(old(self)@.paid(searched), lines, i as int, block, depth as nat)
            }),
            i < next <= all@.len(),
        decreases 66 - depth, 4int,
    {
        let n = all.len();
        let ghost list = text::texts(all@);
        proof {
            assert(list[i as int] == all@[i as int]@);
            lemma_block_advances(self.ledger, list, i as int);
        }
        let t = trim(all[i].as_slice());
        if let Some(d) = parse_colon_directive(t) {
            if is_supported_directive(d.kind.as_slice()) {
                let end = find_colon_directive_end(all, i + 1, d.fence_length, &mut self.ledger);
                self.render_directive(all, i + 1, end, d.kind.as_slice(), d.argument.as_slice(), depth);
                return if end < n {
                    end + 1
                } else {
                    n
                };
            }
        }
        if let Some((kind, argument)) = parse_fenced_directive(t) {
            if is_supported_directive(kind.as_slice()) {
                let end = find_closing_line(all, i + 1, "```", &mut self.ledger);
                self.render_directive(all, i + 1, end, kind.as_slice(), argument.as_slice(), depth);
                return if end < n {
                    end + 1
                } else {
                    n
                };
            }
        }
        if has_prefix(t, "~~~") {
            return self.render_fence(all, i, "~~~");
        }
        if has_prefix(t, "```") {
            return self.render_fence(all, i, "```");
        }
        match standalone_target(t) {
            Some(target) => {
                self.render_target_marker(target);
            },
            None => {
                self.render_text_line(all[i].as_slice());
            },
        }
        i + 1
    }

    fn render_document(&mut self, all: &[Vec<char>], depth: usize)
        requires
            depth <= 64,
        ensures
            final(self)@ == with_document(old(self)@, text::texts(all@), 0, depth as nat),
        decreases 66 - depth, 5int,
    {
        let ghost list = text::texts(all@);
        let ghost wanted = with_document(self@, list, 0, depth as nat);
        let n = all.len();
        let mut i: usize = 0;
        while i < n
            invariant
                depth <= 64,
                i <= n,
                n == all@.len(),
                list == text::texts(all@),
                wanted == with_document(old(self)@, list, 0, depth as nat),
                wanted == with_document(self@, list, i as int, depth as nat),
            decreases n - i,
        {
            self.step();
            if self.failed() {
                return;
            }
            i = self.render_block(all, i, depth);
        }
    }
}

/// What comes of preprocessing: the text, or why there is none.
pub open spec fn preprocessed(content: Seq<char>, budget: SecurityBudget) -> Render {
    with_content(
        Render { text: Seq::empty(), ledger: security::open_ledger(budget), too_deep: false },
        content,
        0,
    )
}

/// Renders directives, roles and targets as Markdown, within the ceilings of a budget.
pub fn preprocess_myst(content: &str, budget: &mut SecurityBudget) -> (r: Result<String, XbergError>)
    ensures
        ({
            let done = preprocessed(content@, *old(budget));
            &&& *final(budget) == done.ledger.budget
            &&& match done.ledger.verdict {
                Err(limit) => r is Err && error::reports(r->Err_0, limit),
                Ok(()) => if done.too_deep {
                    r matches Err(XbergError::Security { message, source }) && message@
                        == "MyST directive nesting exceeds the maximum of 64 levels"@ && source is None
                } else {
                    r matches Ok(rendered) && rendered@ == done.text
                },
            }
        }),
{
    let mut renderer = Renderer::new(Ledger::new(*budget));
    renderer.render_content(chars_of(content).as_slice(), 0);
    *budget = renderer.ledger.budget;
    match renderer.ledger.verdict {
        Err(limit) => Err(security_error(limit)),
        Ok(()) => {
            if renderer.too_deep {
                Err(
                    XbergError::Security {
                        message: "MyST directive nesting exceeds the maximum of 64 levels".to_owned(),
                        source: None,
                    },
                )
            } else {
                Ok(renderer.output)
            }
        },
    }
}

/// Whether a text holds anything that looks like an extension of Markdown.
pub open spec fn hints_at_myst(content: Seq<char>) -> bool {
    text::first_occurrence(content, ":::{"@, 0) is Some || text::first_occurrence(content, "```{"@, 0) is Some
        || text::first_occurrence(content, "{ref}`"@, 0) is Some || text::first_occurrence(
        content,
        "{cite}`"@,
        0,
    ) is Some || text::first_occurrence(content, ")="@, 0) is Some
}

/// Whether a text holds anything that looks like an extension of Markdown.
pub fn might_contain_myst_syntax(content: &str) -> (r: bool)
    ensures
        r == hints_at_myst(content@),
{
    let s = chars_of(content);
    find_from(s.as_slice(), ":::{", 0).is_some() || find_from(s.as_slice(), "```{", 0).is_some() || find_from(
        s.as_slice(),
        "{ref}`",
        0,
    ).is_some() || find_from(s.as_slice(), "{cite}`", 0).is_some() || find_from(s.as_slice(), ")=", 0).is_some()
}

/// Lines, each followed by a line feed.
pub open spec fn ended(lines: Seq<Seq<char>>) -> Seq<char>
    decreases lines.len(),
{
    if lines.len() == 0 {
        Seq::empty()
    } else {
        ended(lines.drop_last()) + lines.last() + "\n"@
    }
}

proof fn lemma_ended_in_parts(a: Seq<Seq<char>>, b: Seq<Seq<char>>)
    ensures
        ended(a + b) == ended(a) + ended(b),
    decreases b.len(),
{
    if b.len() == 0 {
        assert(a + b =~= a);
        assert(ended(a) + ended(b) =~= ended(a));
    } else {
        lemma_ended_in_parts(a, b.drop_last());
        assert((a + b).drop_last() =~= a + b.drop_last());
        assert(ended(a + b) =~= ended(a) + ended(b));
    }
}

/// Whether a line holds nothing that looks like an extension of Markdown.
pub open spec fn is_plain(line: Seq<char>) -> bool {
    &&& !text::is_piece_of(":::{"@, line)
    &&& !text::is_piece_of("```{"@, line)
    &&& !text::is_piece_of("{ref}`"@, line)
    &&& !text::is_piece_of("{cite}`"@, line)
    &&& !text::is_piece_of(")="@, line)
}

proof fn lemma_pieces_are_plain(piece: Seq<char>, s: Seq<char>)
    requires
        is_plain(s),
        text::is_piece_of(piece, s),
    ensures
        is_plain(piece),
{
    if text::is_piece_of(":::{"@, piece) {
        text::lemma_piece_of_piece(":::{"@, piece, s);
    }
    if text::is_piece_of("```{"@, piece) {
        text::lemma_piece_of_piece("```{"@, piece, s);
    }
    if text::is_piece_of("{ref}`"@, piece) {
        text::lemma_piece_of_piece("{ref}`"@, piece, s);
    }
    if text::is_piece_of("{cite}`"@, piece) {
        text::lemma_piece_of_piece("{cite}`"@, piece, s);
    }
    if text::is_piece_of(")="@, piece) {
        text::lemma_piece_of_piece(")="@, piece, s);
    }
}

proof fn lemma_leading_are_equal(s: Seq<char>, c: char, k: int)
    requires
        0 <= k < text::leading(s, c),
    ensures
        k < s.len(),
        s[k] == c,
    decreases s.len(),
{
    if k > 0 {
        lemma_leading_are_equal(s.skip(1), c, k - 1);
    }
}

proof fn lemma_plain_line_opens_nothing(line: Seq<char>)
    requires
        is_plain(line),
    ensures
        colon_directive(line) is None,
        fenced_directive(line) is None,
        target_on_line(line) is None,
{
    reveal_strlit(":::{");
    reveal_strlit(")=");
    let fence = text::leading(line, ':') as int;
    let rest = line.skip(fence);
    if fence >= 3 && rest.len() > 0 && rest[0] == '{' {
        lemma_leading_are_equal(line, ':', fence - 3);
        lemma_leading_are_equal(line, ':', fence - 2);
        lemma_leading_are_equal(line, ':', fence - 1);
        assert(line.subrange(fence - 3, fence + 1) =~= ":::{"@);
        assert(text::occurs_at(line, ":::{"@, fence - 3));
    }
    if text::occurs_at(line, "```{"@, 0) {
        assert(text::is_piece_of("```{"@, line));
    }
    if line.len() > 0 && text::ends_with(line.skip(1), ")="@) {
        assert(line.subrange(line.len() - 2, line.len() as int) =~= ")="@);
        assert(text::occurs_at(line, ")="@, line.len() - 2));
    }
}

proof fn lemma_plain_line_keeps(r: Render, line: Seq<char>, cursor: int)
    requires
        is_plain(line),
        0 <= cursor <= line.len(),
        !with_roles(r, line, cursor).failed(),
    ensures
        !r.failed(),
        with_roles(r, line, cursor).text == r.text + line.skip(cursor),
    decreases line.len() - cursor,
{
    broadcast use lemma_appended;

    reveal_strlit("{");
    match text::position_of(line, '{', cursor) {
        None => {},
        Some(p) => {
            lemma_found_position(line, '{', cursor);
            if text::occurs_at(line, "{ref}`"@, p) {
                assert(text::is_piece_of("{ref}`"@, line));
            }
            if text::occurs_at(line, "{cite}`"@, p) {
                assert(text::is_piece_of("{cite}`"@, line));
            }
            let before = r.stepped().appended(line.subrange(cursor, p));
            lemma_plain_line_keeps(before.appended("{"@), line, p + 1);
            assert(line.subrange(cursor, p) + "{"@ + line.skip(p + 1) =~= line.skip(cursor));
            assert(r.text + line.subrange(cursor, p) + "{"@ + line.skip(p + 1) =~= r.text + line.skip(cursor));
        },
    }
}

proof fn lemma_found_position(s: Seq<char>, c: char, from: int)
    ensures
        text::position_of(s, c, from) matches Some(p) ==> from <= p < s.len() && s[p] == c,
    decreases s.len() - from,
{
    if 0 <= from < s.len() && s[from] != c {
        lemma_found_position(s, c, from + 1);
    }
}

/// Lines are kept, each followed by a line feed.
pub proof fn lemma_lines_keep(r: Render, lines: Seq<Seq<char>>)
    requires
        !r.with_lines(Seq::empty(), lines).failed(),
    ensures
        !r.failed(),
        r.with_lines(Seq::empty(), lines).text == r.text + ended(lines),
    decreases lines.len(),
{
    broadcast use lemma_appended;

    if lines.len() == 0 {
        assert(r.text + ended(lines) =~= r.text);
    } else {
        lemma_lines_keep(r, lines.drop_last());
        assert(r.with_lines(Seq::empty(), lines).text =~= r.text + ended(lines));
    }
}

/// A line that holds nothing that looks like an extension of Markdown opens a block of code or is text.
pub proof fn lemma_plain_block(l: Ledger, lines: Seq<Seq<char>>, i: int)
    requires
        0 <= i < lines.len(),
        is_plain(lines[i]),
    ensures
        block_at(l, lines, i).1 is Fence || block_at(l, lines, i).1 is Line,
{
    text::lemma_trimmed_is_piece(lines[i]);
    lemma_pieces_are_plain(text::trimmed(lines[i]), lines[i]);
    lemma_plain_line_opens_nothing(text::trimmed(lines[i]));
}

proof fn lemma_plain_text_keeps(r: Render, line: Seq<char>)
    requires
        is_plain(line),
        !added_to(r, with_roles(blank_after(r), line, 0)).appended("\n"@).failed(),
    ensures
        !r.failed(),
        added_to(r, with_roles(blank_after(r), line, 0)).appended("\n"@).text == r.text + ended(seq![line]),
{
    broadcast use lemma_appended;

    let apart = with_roles(blank_after(r), line, 0);
    assert(!apart.failed());
    lemma_plain_line_keeps(blank_after(r), line, 0);
    assert(line.skip(0) =~= line);
    assert(apart.text =~= line);
    assert(seq![line].drop_last() =~= Seq::empty());
    assert(ended(seq![line].drop_last()) =~= Seq::<char>::empty());
    assert(r.text + line + "\n"@ =~= r.text + ended(seq![line]));
}

/// A block that holds nothing that looks like an extension of Markdown passes unchanged.
pub proof fn lemma_plain_block_keeps(r: Render, lines: Seq<Seq<char>>, i: int, block: Block, depth: nat)
    requires
        depth <= 64,
        0 <= i < lines.len(),
        is_plain(lines[i]),
        block is Fence || block is Line,
        i < block_next(lines, i, block) <= lines.len(),
        !with_block(r, lines, i, block, depth).failed(),
    ensures
        !r.failed(),
        with_block(r, lines, i, block, depth).text == r.text + ended(lines.subrange(i, block_next(lines, i, block))),
{
    match block {
        Block::Fence(next) => {
            lemma_lines_keep(r, lines.subrange(i, next));
        },
        Block::Line => {
            lemma_plain_text_keeps(r, lines[i]);
            assert(lines.subrange(i, i + 1) =~= seq![lines[i]]);
        },
        _ => {},
    }
}

/// Lines that hold nothing that looks like an extension of Markdown pass unchanged.
#[verifier::spinoff_prover]
pub proof fn lemma_plain_document_keeps(r: Render, lines: Seq<Seq<char>>, i: int, depth: nat)
    requires
        forall|k: int| 0 <= k < lines.len() ==> is_plain(#[trigger] lines[k]),
        depth <= 64,
        0 <= i <= lines.len(),
        !with_document(r, lines, i, depth).failed(),
    ensures
        with_document(r, lines, i, depth).text == r.text + ended(lines.skip(i)),
    decreases lines.len() - i,
{
    if i == lines.len() {
        assert(lines.skip(i) =~= Seq::empty());
        assert(r.text + ended(lines.skip(i)) =~= r.text);
    } else {
        let stepped = r.stepped();
        let (searched, block) = block_at(stepped.ledger, lines, i);
        let next = block_next(lines, i, block);
        let start = stepped.paid(searched);
        let after = with_block(start, lines, i, block, depth);
        assert(is_plain(lines[i]));
        lemma_block_advances(stepped.ledger, lines, i);
        lemma_plain_block(stepped.ledger, lines, i);
        assert(with_document(r, lines, i, depth) == with_document(after, lines, next, depth));
        if after.failed() {
            lemma_document_stays_failed(after, lines, next, depth);
        }
        lemma_plain_block_keeps(start, lines, i, block, depth);
        lemma_plain_document_keeps(after, lines, next, depth);
        let own = lines.subrange(i, next);
        assert(own + lines.skip(next) =~= lines.skip(i));
        lemma_ended_in_parts(own, lines.skip(next));
        assert(r.text + ended(own) + ended(lines.skip(next)) =~= r.text + ended(lines.skip(i)));
    }
}

/// Rendering that has failed stays so.
pub proof fn lemma_document_stays_failed(r: Render, lines: Seq<Seq<char>>, i: int, depth: nat)
    requires
        depth <= 64,
        0 <= i <= lines.len(),
        r.failed(),
    ensures
        with_document(r, lines, i, depth).failed(),
{
}

proof fn lemma_lines_are_never_too_deep(r: Render, lines: Seq<Seq<char>>)
    ensures
        r.with_lines(Seq::empty(), lines).too_deep == r.too_deep,
    decreases lines.len(),
{
    broadcast use lemma_appended;

    if lines.len() > 0 {
        lemma_lines_are_never_too_deep(r, lines.drop_last());
    }
}

proof fn lemma_roles_are_never_too_deep(r: Render, line: Seq<char>, cursor: int)
    ensures
        with_roles(r, line, cursor).too_deep == r.too_deep,
    decreases line.len() - cursor,
{
    broadcast use lemma_appended;

    if 0 <= cursor <= line.len() {
        lemma_found_position(line, '{', cursor);
        match text::position_of(line, '{', cursor) {
            None => {},
            Some(p) => {
                let before = r.stepped().appended(line.subrange(cursor, p));
                match role_at(line, p) {
                    None => {
                        lemma_roles_are_never_too_deep(before.appended("{"@), line, p + 1);
                    },
                    Some((length, prefix)) => {
                        lemma_found_position(line, '`', p + length);
                        if let Some(end) = text::position_of(line, '`', p + length) {
                            let linked = with_role(before, line.subrange(p + length, end), prefix);
                            lemma_roles_are_never_too_deep(linked, line, end + 1);
                        }
                    },
                }
            },
        }
    }
}

proof fn lemma_plain_block_is_never_too_deep(r: Render, lines: Seq<Seq<char>>, i: int, block: Block)
    requires
        block is Fence || block is Line,
    ensures
        with_block(r, lines, i, block, 0).too_deep == r.too_deep,
{
    broadcast use lemma_appended;

    match block {
        Block::Fence(next) => {
            lemma_lines_are_never_too_deep(r, lines.subrange(i, next));
        },
        Block::Line => {
            lemma_roles_are_never_too_deep(blank_after(r), lines[i], 0);
        },
        _ => {},
    }
}

proof fn lemma_plain_document_is_never_too_deep(r: Render, lines: Seq<Seq<char>>, i: int)
    requires
        forall|k: int| 0 <= k < lines.len() ==> is_plain(#[trigger] lines[k]),
        0 <= i <= lines.len(),
    ensures
        with_document(r, lines, i, 0).too_deep == r.too_deep,
    decreases lines.len() - i,
{
    let stepped = r.stepped();
    if i < lines.len() && !stepped.failed() {
        let (searched, block) = block_at(stepped.ledger, lines, i);
        let next = block_next(lines, i, block);
        let start = stepped.paid(searched);
        let after = with_block(start, lines, i, block, 0);
        assert(is_plain(lines[i]));
        lemma_block_advances(stepped.ledger, lines, i);
        lemma_plain_block(stepped.ledger, lines, i);
        assert(with_document(r, lines, i, 0) == with_document(after, lines, next, 0));
        lemma_plain_block_is_never_too_deep(start, lines, i, block);
        lemma_plain_document_is_never_too_deep(after, lines, next);
    }
}

/// A text that holds nothing that looks like an extension of Markdown is never nested too deeply, and passes unchanged,
/// line by line, if the budget suffices.
pub proof fn law_plain_markdown_passes_unchanged(content: Seq<char>, budget: SecurityBudget)
    requires
        !hints_at_myst(content),
        preprocessed(content, budget).ledger.verdict is Ok,
    ensures
        !preprocessed(content, budget).failed(),
        preprocessed(content, budget).text == ended(text::lines_of(content)),
{
    let lines = text::lines_of(content);
    text::lemma_no_piece(content, ":::{"@);
    text::lemma_no_piece(content, "```{"@);
    text::lemma_no_piece(content, "{ref}`"@);
    text::lemma_no_piece(content, "{cite}`"@);
    text::lemma_no_piece(content, ")="@);
    assert forall|k: int| 0 <= k < lines.len() implies is_plain(#[trigger] lines[k]) by {
        text::lemma_lines_are_pieces(content, k);
        lemma_pieces_are_plain(lines[k], content);
    }
    let opened = Render { text: Seq::empty(), ledger: security::open_ledger(budget), too_deep: false };
    lemma_plain_document_is_never_too_deep(opened, lines, 0);
    lemma_plain_document_keeps(opened, lines, 0, 0);
    assert(lines.skip(0) =~= lines);
    assert(opened.text + ended(lines) =~= ended(lines));
}

/// The kind, the title and the rest of a text that starts with the marker of an admonition.
pub open spec fn admonition_marker(value: Seq<char>) -> Option<(Seq<char>, Option<Seq<char>>, Seq<char>)> {
    let prefix = "\u{e000}xberg-myst-admonition:"@;
    if !text::occurs_at(value, prefix, 0) {
        None
    } else {
        let metadata = value.skip(prefix.len() as int);
        match text::position_of(metadata, '\u{e001}', 0) {
            None => None,
            Some(end) => match text::position_of(metadata.take(end), '\u{1f}', 0) {
                None => None,
                Some(p) => {
                    let title = metadata.subrange(p + 1, end);
                    Some(
                        (
                            metadata.take(p),
                            if title.len() > 0 {
                                Some(title)
                            } else {
                                None
                            },
                            metadata.skip(end + 1),
                        ),
                    )
                },
            },
        }
    }
}

/// The kind, the title and the rest of a text that starts with the marker of an admonition.
pub fn myst_admonition_metadata(value: &str) -> (r: Option<(String, Option<String>, String)>)
    ensures
        match r {
            Some(found) => admonition_marker(value@) == Some((found.0@, document::opt_text(found.1), found.2@)),
            None => admonition_marker(value@) is None,
        },
{
    let s = chars_of(value);
    let prefix = chars_of("\u{e000}xberg-myst-admonition:");
    let n = s.len();
    if !has_prefix(s.as_slice(), "\u{e000}xberg-myst-admonition:") {
        return None;
    }
    let metadata = slice_subrange(s.as_slice(), prefix.len(), n);
    let m = metadata.len();
    proof {
        assert(metadata@ =~= value@.skip(prefix@.len() as int));
    }
    let end = match find_char(metadata, '\u{e001}', 0) {
        Some(end) => end,
        None => {
            return None;
        },
    };
    let inner = slice_subrange(metadata, 0, end);
    proof {
        assert(inner@ =~= metadata@.take(end as int));
    }
    let p = match find_char(inner, '\u{1f}', 0) {
        Some(p) => p,
        None => {
            return None;
        },
    };
    let kind = slice_subrange(metadata, 0, p);
    let title = slice_subrange(metadata, p + 1, end);
    let rest = slice_subrange(metadata, end + 1, m);
    proof {
        assert(kind@ =~= metadata@.take(p as int));
        assert(rest@ =~= metadata@.skip(end + 1));
    }
    let named = if title.len() > 0 {
        Some(string_of(title))
    } else {
        None
    };
    Some((string_of(kind), named, string_of(rest)))
}

/// The marker of an admonition gives back the kind and the title that it was made for, and what
/// follows it.
pub proof fn law_admonition_marker_is_read_back(kind: Seq<char>, title: Seq<char>, rest: Seq<char>)
    requires
        !kind.contains('\u{1f}'),
        !kind.contains('\u{e001}'),
        !title.contains('\u{e001}'),
        title.len() > 0,
    ensures
        admonition_marker(
            "\u{e000}xberg-myst-admonition:"@ + kind + "\u{1f}"@ + title + "\u{e001}"@ + rest,
        ) == Some((kind, Some(title), rest)),
{
    reveal_strlit("\u{1f}");
    reveal_strlit("\u{e001}");
    let prefix = "\u{e000}xberg-myst-admonition:"@;
    let all = prefix + kind + "\u{1f}"@ + title + "\u{e001}"@ + rest;
    assert(all.subrange(0, prefix.len() as int) =~= prefix);
    let metadata = all.skip(prefix.len() as int);
    assert(metadata =~= kind + seq!['\u{1f}'] + title + seq!['\u{e001}'] + rest);
    let end = kind.len() + 1 + title.len();
    assert forall|k: int| 0 <= k < end implies metadata[k] != '\u{e001}' by {
        if k < kind.len() {
            assert(kind[k] == metadata[k]);
        } else if k > kind.len() {
            assert(title[k - kind.len() - 1] == metadata[k]);
        }
    }
    assert(metadata[end as int] == '\u{e001}');
    lemma_position_is_first(metadata, '\u{e001}', 0, end as int);
    let inner = metadata.take(end as int);
    assert forall|k: int| 0 <= k < kind.len() implies inner[k] != '\u{1f}' by {
        assert(kind[k] == inner[k]);
    }
    assert(inner[kind.len() as int] == '\u{1f}');
    lemma_position_is_first(inner, '\u{1f}', 0, kind.len() as int);
    assert(metadata.take(kind.len() as int) =~= kind);
    assert(metadata.subrange(kind.len() as int + 1, end as int) =~= title);
    assert(metadata.skip(end as int + 1) =~= rest);
}

proof fn lemma_position_is_first(s: Seq<char>, c: char, from: int, p: int)
    requires
        0 <= from <= p < s.len(),
        s[p] == c,
        forall|k: int| from <= k < p ==> s[k] != c,
    ensures
        text::position_of(s, c, from) == Some(p),
    decreases p - from,
{
    if from < p {
        lemma_position_is_first(s, c, from + 1, p);
    }
}

/// What a cell of a notebook holds.
#[derive(Clone, Copy, Debug, PartialEq, Eq, Structural)]
pub enum TextNotebookCellType {
    /// Text.
    Markdown,
    /// Code.
    Code,
}

impl TextNotebookCellType {
    /// Its name.
    pub fn as_str(self) -> (r: &'static str)
        ensures
            r@ == match self {
                TextNotebookCellType::Markdown => "markdown"@,
                TextNotebookCellType::Code => "code"@,
            },
    {
        match self {
            TextNotebookCellType::Markdown => "markdown",
            TextNotebookCellType::Code => "code",
        }
    }
}

/// A cell of a notebook.
#[derive(Clone, Debug)]
pub struct TextNotebookCell {
    /// What it holds.
    pub cell_type: TextNotebookCellType,
    /// Its text.
    pub source: String,
    /// The language of its code.
    pub language: Option<String>,
    /// Its tags.
    pub tags: Vec<String>,
}

/// A cell, with its texts as sequences.
#[verifier::ext_equal]
pub struct Cell {
    /// What it holds.
    pub cell_type: TextNotebookCellType,
    /// Its text.
    pub source: Seq<char>,
    /// The language of its code.
    pub language: Option<Seq<char>>,
    /// Its tags.
    pub tags: Seq<Seq<char>>,
}

impl View for TextNotebookCell {
    type V = Cell;

    open spec fn view(&self) -> Cell {
        Cell {
            cell_type: self.cell_type,
            source: self.source@,
            language: document::opt_text(self.language),
            tags: text::strings(self.tags@),
        }
    }
}

/// The cells of a notebook, with their texts as sequences.
pub open spec fn cells(v: Seq<TextNotebookCell>) -> Seq<Cell> {
    v.map_values(|c: TextNotebookCell| c@)
}

/// A notebook.
#[derive(Debug)]
pub struct TextNotebook {
    /// What it says of itself.
    pub metadata: Vec<(String, JsonValue)>,
    /// Its cells.
    pub cells: Vec<TextNotebookCell>,
}

impl Cell {
    /// What a cell says of itself: its position, what it holds, its language and its tags where it has any.
    pub open spec fn spec_metadata(self, index: nat) -> json::Json {
        let head = seq![
            ("index"@, json::count_number(index)),
            (
                "cell_type"@,
                json::Json::Text(
                    match self.cell_type {
                        TextNotebookCellType::Markdown => "markdown"@,
                        TextNotebookCellType::Code => "code"@,
                    },
                ),
            ),
        ];
        let named = match self.language {
            Some(language) => head.push(("language"@, json::Json::Text(language))),
            None => head,
        };
        json::Json::Object(
            if self.tags.len() > 0 {
                named.push(("tags"@, json::text_values(self.tags)))
            } else {
                named
            },
        )
    }
}

impl TextNotebookCell {
    /// What the cell says of itself.
    pub fn metadata(&self, index: usize) -> (r: JsonValue)
        ensures
            r@ == self@.spec_metadata(index as nat),
    {
        let mut list: Vec<(String, JsonValue)> = Vec::new();
        push_member(&mut list, "index", number_of_count(index));
        push_member(&mut list, "cell_type", JsonValue::Text(self.cell_type.as_str().to_owned()));
        if let Some(language) = &self.language {
            push_member(&mut list, "language", JsonValue::Text(language.as_str().to_owned()));
        }
        if self.tags.len() > 0 {
            push_member(&mut list, "tags", list_of_texts(self.tags.as_slice()));
        }
        let value = JsonValue::Object(list);
        proof {
            json::lemma_view(value);
            assert(value@->Object_0 =~= self@.spec_metadata(index as nat)->Object_0);
        }
        value
    }
}

impl TextNotebook {
    /// What the cells of the notebook say of themselves.
    pub fn cell_metadata(&self) -> (r: JsonValue)
        ensures
            r@ == json::Json::Array(
                Seq::new(self.cells@.len(), |i: int| self.cells@[i]@.spec_metadata(i as nat)),
            ),
    {
        let mut list: Vec<JsonValue> = Vec::new();
        let mut i: usize = 0;
        while i < self.cells.len()
            invariant
                i <= self.cells.len(),
                list@.len() == i,
                forall|k: int| 0 <= k < i ==> (#[trigger] list@[k])@ == self.cells@[k]@.spec_metadata(k as nat),
            decreases self.cells.len() - i,
        {
            list.push(self.cells[i].metadata(i));
            i += 1;
        }
        let value = JsonValue::Array(list);
        proof {
            json::lemma_view(value);
            assert(json::values(list@) =~= Seq::new(
                self.cells@.len(),
                |i: int| self.cells@[i]@.spec_metadata(i as nat),
            ));
        }
        value
    }
}

/// Cells read so far, and what reading them has cost.
#[verifier::ext_equal]
pub struct Reading {
    /// What reading has cost; its text is empty between two cells.
    pub render: Render,
    /// The cells.
    pub cells: Seq<Cell>,
}

impl Reading {
    /// With one more cell, unless reading has failed.
    pub open spec fn with(self, cell: Cell) -> Reading {
        if self.render.failed() {
            self
        } else {
            Reading { cells: self.cells.push(cell), ..self }
        }
    }

    /// With a cell of text, unless it holds nothing but white space.
    pub open spec fn with_markdown(self, lines: Seq<Seq<char>>) -> Reading {
        let joined = self.render.with_joined(lines);
        let after = Reading { render: blank_after(joined), ..self };
        if text::trimmed(joined.text).len() == 0 {
            after
        } else {
            after.with(
                Cell {
                    cell_type: TextNotebookCellType::Markdown,
                    source: joined.text,
                    language: None,
                    tags: Seq::empty(),
                },
            )
        }
    }
}

/// Whether a character is a quotation mark.
pub open spec fn is_quote(c: char) -> bool {
    c == '\'' || c == '"'
}

/// A text without quotation marks around it.
pub open spec fn unquoted(s: Seq<char>) -> Seq<char>
    decreases s.len(),
{
    if s.len() > 0 && is_quote(s[0]) {
        unquoted(s.skip(1))
    } else if s.len() > 0 && is_quote(s.last()) {
        unquoted(s.drop_last())
    } else {
        s
    }
}

fn strip_quotes<'a>(s: &'a [char]) -> (r: &'a [char])
    ensures
        r@ == unquoted(s@),
{
    let mut a: usize = 0;
    let mut b: usize = s.len();
    proof {
        assert(s@.subrange(0, b as int) =~= s@);
    }
    while a < b && (s[a] == '\'' || s[a] == '"')
        invariant
            a <= b,
            b == s@.len(),
            unquoted(s@) == unquoted(s@.subrange(a as int, b as int)),
        decreases b - a,
    {
        proof {
            assert(s@.subrange(a as int, b as int).skip(1) =~= s@.subrange(a + 1, b as int));
        }
        a = a + 1;
    }
    while a < b && (s[b - 1] == '\'' || s[b - 1] == '"')
        invariant
            a <= b <= s@.len(),
            a < b ==> !is_quote(s@[a as int]),
            unquoted(s@) == unquoted(s@.subrange(a as int, b as int)),
        decreases b - a,
    {
        proof {
            assert(s@.subrange(a as int, b as int).drop_last() =~= s@.subrange(a as int, b - 1));
        }
        b = b - 1;
    }
    slice_subrange(s, a, b)
}

/// A list of tags without the brackets around it.
pub open spec fn unbracketed(value: Seq<char>) -> Seq<char> {
    text::stripped_end(text::stripped_start(text::trimmed(value), '['), ']')
}

/// Tags, each charged to a budget: the pieces between commas, without white space and quotation marks
/// around them, unless nothing is left.
pub open spec fn tags_read(r: Render, pieces: Seq<Seq<char>>) -> (Render, Seq<Seq<char>>)
    decreases pieces.len(),
{
    if pieces.len() == 0 {
        (r, Seq::empty())
    } else {
        let (before, tags) = tags_read(r, pieces.drop_last());
        let tag = unquoted(text::trimmed(pieces.last()));
        if tag.len() == 0 || before.failed() {
            (before, tags)
        } else {
            let charged = before.stepped().appended(tag);
            if charged.failed() {
                (blank_after(charged), tags)
            } else {
                (blank_after(charged), tags.push(tag))
            }
        }
    }
}

/// The tags of a list of tags.
pub open spec fn tags_of(r: Render, value: Seq<char>) -> (Render, Seq<Seq<char>>) {
    tags_read(r, text::split_on(unbracketed(value), ','))
}

fn strip_brackets<'a>(value: &'a [char]) -> (r: &'a [char])
    ensures
        r@ == unbracketed(value@),
{
    let t = trim(value);
    let n = t.len();
    let mut a: usize = 0;
    proof {
        assert(t@.skip(0) =~= t@);
    }
    while a < n && t[a] == '['
        invariant
            a <= n,
            n == t@.len(),
            text::stripped_start(t@, '[') == text::stripped_start(t@.skip(a as int), '['),
        decreases n - a,
    {
        proof {
            assert(t@.skip(a as int).skip(1) =~= t@.skip(a + 1));
        }
        a = a + 1;
    }
    let inner = slice_subrange(t, a, n);
    let m = inner.len();
    proof {
        assert(inner@ =~= t@.skip(a as int));
        assert(text::stripped_start(inner@, '[') == inner@);
    }
    let mut b: usize = m;
    proof {
        assert(inner@.take(b as int) =~= inner@);
    }
    while b > 0 && inner[b - 1] == ']'
        invariant
            b <= m,
            m == inner@.len(),
            text::stripped_end(inner@, ']') == text::stripped_end(inner@.take(b as int), ']'),
        decreases b,
    {
        proof {
            assert(inner@.take(b as int).drop_last() =~= inner@.take(b - 1));
        }
        b = b - 1;
    }
    let r = slice_subrange(inner, 0, b);
    proof {
        assert(r@ =~= inner@.take(b as int));
    }
    r
}

impl Renderer {
    /// Reads a list of tags.
    pub fn parse_tags(&mut self, value: &[char]) -> (r: Vec<String>)
        requires
            old(self)@.text.len() == 0,
        ensures
            (final(self)@, text::strings(r@)) == tags_of(old(self)@, value@),
            final(self)@.text.len() == 0,
    {
        let pieces = split_chars(strip_brackets(value), ',');
        let ghost all = text::texts(pieces@);
        let mut tags: Vec<String> = Vec::new();
        let mut i: usize = 0;
        proof {
            assert(text::strings(tags@) =~= Seq::empty());
        }
        while i < pieces.len()
            invariant
                i <= pieces.len(),
                all == text::texts(pieces@),
                self@.text.len() == 0,
                (self@, text::strings(tags@)) == tags_read(old(self)@, all.take(i as int)),
            decreases pieces.len() - i,
        {
            proof {
                assert(all.take(i + 1).drop_last() =~= all.take(i as int));
                assert(all.take(i + 1).last() == pieces@[i as int]@);
            }
            let tag = strip_quotes(trim(pieces[i].as_slice()));
            if tag.len() > 0 && !self.failed() {
                self.step();
                self.append_chars(tag);
                let failed = self.failed();
                self.take_output();
                if !failed {
                    let name = string_of(tag);
                    proof {
                        assert(text::strings(tags@.push(name)) =~= text::strings(tags@).push(name@));
                    }
                    tags.push(name);
                }
            }
            i = i + 1;
        }
        proof {
            assert(all.take(all.len() as int) =~= all);
        }
        tags
    }
}

/// Whether some line opens a code cell, and what looking for one has cost.
pub open spec fn code_cell_found(l: Ledger, lines: Seq<Seq<char>>, i: int) -> (Ledger, bool)
    decreases lines.len() - i,
{
    if i < 0 || i >= lines.len() {
        (l, false)
    } else {
        let stepped = l.stepped();
        let found = fenced_directive(text::trimmed(lines[i]));
        if stepped.verdict is Err {
            (stepped, false)
        } else if found is Some && (found->0).0 == "code-cell"@ {
            (stepped, true)
        } else {
            code_cell_found(stepped, lines, i + 1)
        }
    }
}

fn opens_code_cell(line: &[char]) -> (r: Option<Vec<char>>)
    ensures
        ({
            let found = fenced_directive(text::trimmed(line@));
            match r {
                Some(language) => found is Some && (found->0).0 == "code-cell"@ && (found->0).1 == language@,
                None => found is None || (found->0).0 != "code-cell"@,
            }
        }),
{
    match parse_fenced_directive(trim(line)) {
        Some((kind, language)) => {
            if is_str(kind.as_slice(), "code-cell") {
                Some(language)
            } else {
                None
            }
        },
        None => None,
    }
}

/// Looks for a code cell.
pub fn contains_code_cell(content: &str, ledger: &mut Ledger) -> (r: bool)
    ensures
        (*final(ledger), r) == code_cell_found(*old(ledger), text::lines_of(content@), 0),
{
    let all = lines(chars_of(content).as_slice());
    let ghost list = text::lines_of(content@);
    let ghost wanted = code_cell_found(*ledger, list, 0);
    let mut i: usize = 0;
    while i < all.len()
        invariant
            i <= all.len(),
            list == text::texts(all@),
            list == text::lines_of(content@),
            wanted == code_cell_found(*old(ledger), list, 0),
            wanted == code_cell_found(*ledger, list, i as int),
        decreases all.len() - i,
    {
        proof {
            assert(list[i as int] == all@[i as int]@);
        }
        ledger.step();
        if ledger.failed() {
            return false;
        }
        if opens_code_cell(all[i].as_slice()).is_some() {
            return true;
        }
        i = i + 1;
    }
    false
}

/// A code cell whose options start at a line and whose code ends before another.
pub open spec fn code_cell_read(
    reading: Reading,
    lines: Seq<Seq<char>>,
    start: int,
    end: int,
    language: Seq<char>,
) -> Reading {
    let r = reading.render;
    let (ledger, options, body_start) = directive_options(r.ledger, lines, start, end, Seq::empty());
    if r.failed() || ledger.verdict is Err {
        if r.failed() {
            reading
        } else {
            Reading { render: r.paid(ledger), ..reading }
        }
    } else {
        let (tagged, tags) = match option_of(options, "tags"@) {
            Some(value) => tags_of(r.paid(ledger), value),
            None => (r.paid(ledger), Seq::empty()),
        };
        let joined = tagged.with_joined(lines.subrange(body_start, end));
        Reading { render: blank_after(joined), ..reading }.with(
            Cell {
                cell_type: TextNotebookCellType::Code,
                source: joined.text,
                language: if language.len() > 0 {
                    Some(language)
                } else {
                    None
                },
                tags,
            },
        )
    }
}

/// The cells of a notebook from a line on: code cells, and the text between them, which started at a
/// line.
pub open spec fn myst_cells(reading: Reading, lines: Seq<Seq<char>>, text_start: int, i: int) -> Reading
    decreases lines.len() - i,
    when 0 <= i
{
    if i >= lines.len() {
        if text_start < lines.len() {
            reading.with_markdown(lines.skip(text_start))
        } else {
            reading
        }
    } else {
        let stepped = Reading { render: reading.render.stepped(), ..reading };
        let found = fenced_directive(text::trimmed(lines[i]));
        if stepped.render.failed() {
            stepped
        } else if found is Some && (found->0).0 == "code-cell"@ {
            proof {
                lemma_ends_are_within(
                    stepped.with_markdown(lines.subrange(text_start, i)).render.ledger,
                    lines,
                    i + 1,
                    0,
                    1,
                    "```"@,
                );
            }
            let before = stepped.with_markdown(lines.subrange(text_start, i));
            let (searched, end) = closing_line(before.render.ledger, lines, i + 1, "```"@);
            let next = after_line(lines, end);
            if before.render.failed() {
                before
            } else {
                myst_cells(
                    code_cell_read(
                        Reading { render: before.render.paid(searched), ..before },
                        lines,
                        i + 1,
                        end,
                        (found->0).1,
                    ),
                    lines,
                    next,
                    next,
                )
            }
        } else {
            myst_cells(stepped, lines, text_start, i + 1)
        }
    }
}

impl Renderer {
    fn push_markdown_cell(&mut self, list: &mut Vec<TextNotebookCell>, body: &[Vec<char>])
        requires
            old(self)@.text.len() == 0,
        ensures
            (Reading { render: final(self)@, cells: cells(final(list)@) }) == (Reading {
                render: old(self)@,
                cells: cells(old(list)@),
            }).with_markdown(text::texts(body@)),
            final(self)@.text.len() == 0,
    {
        self.append_joined_lines(body);
        let failed = self.failed();
        let source = self.take_output();
        let letters = chars_of(source.as_str());
        if trim(letters.as_slice()).len() > 0 && !failed {
            let cell = TextNotebookCell {
                cell_type: TextNotebookCellType::Markdown,
                source,
                language: None,
                tags: Vec::new(),
            };
            proof {
                assert(text::strings(cell.tags@) =~= Seq::empty());
                assert(cells(list@.push(cell)) =~= cells(list@).push(cell@));
            }
            list.push(cell);
        }
    }

    fn push_code_cell(
        &mut self,
        list: &mut Vec<TextNotebookCell>,
        all: &[Vec<char>],
        start: usize,
        end: usize,
        language: &[char],
    )
        requires
            old(self)@.text.len() == 0,
            start <= end <= all@.len(),
        ensures
            (Reading { render: final(self)@, cells: cells(final(list)@) }) == code_cell_read(
                Reading { render: old(self)@, cells: cells(old(list)@) },
                text::texts(all@),
                start as int,
                end as int,
                language@,
            ),
            final(self)@.text.len() == 0,
    {
        if self.failed() {
            return;
        }
        let (options, body_start) = parse_directive_options(all, start, end, &mut self.ledger);
        if self.failed() {
            return;
        }
        let tags = match find_option(options.as_slice(), "tags") {
            Some(value) => self.parse_tags(value),
            None => {
                let none: Vec<String> = Vec::new();
                proof {
                    assert(text::strings(none@) =~= Seq::empty());
                }
                none
            },
        };
        let body = slice_subrange(all, body_start, end);
        proof {
            assert(text::texts(body@) =~= text::texts(all@).subrange(body_start as int, end as int));
        }
        self.append_joined_lines(body);
        let failed = self.failed();
        let source = self.take_output();
        if !failed {
            let name = if language.len() > 0 {
                Some(string_of(language))
            } else {
                None
            };
            let cell = TextNotebookCell { cell_type: TextNotebookCellType::Code, source, language: name, tags };
            proof {
                assert(cells(list@.push(cell)) =~= cells(list@).push(cell@));
            }
            list.push(cell);
        }
    }

    /// Reads the cells of a notebook.
    pub fn parse_myst_cells(&mut self, content: &str) -> (r: Vec<TextNotebookCell>)
        requires
            old(self)@.text.len() == 0,
        ensures
            (Reading { render: final(self)@, cells: cells(r@) }) == myst_cells(
                Reading { render: old(self)@, cells: Seq::empty() },
                text::lines_of(content@),
                0,
                0,
            ),
    {
        let all = lines(chars_of(content).as_slice());
        let n = all.len();
        let ghost list = text::lines_of(content@);
        let mut out: Vec<TextNotebookCell> = Vec::new();
        proof {
            assert(cells(out@) =~= Seq::empty());
        }
        let ghost start = Reading { render: self@, cells: Seq::empty() };
        let ghost wanted = myst_cells(start, list, 0, 0);
        let mut text_start: usize = 0;
        let mut i: usize = 0;
        while i < n
            invariant
                text_start <= i <= n,
                n == all@.len(),
                list == text::texts(all@),
                list == text::lines_of(content@),
                self@.text.len() == 0,
                wanted == myst_cells(Reading { render: old(self)@, cells: Seq::empty() }, list, 0, 0),
                wanted == myst_cells(
                    Reading { render: self@, cells: cells(out@) },
                    list,
                    text_start as int,
                    i as int,
                ),
            decreases n - i,
        {
            proof {
                assert(list[i as int] == all@[i as int]@);
            }
            self.step();
            if self.failed() {
                return out;
            }
            match opens_code_cell(all[i].as_slice()) {
                Some(language) => {
                    let before = slice_subrange(all.as_slice(), text_start, i);
                    proof {
                        assert(text::texts(before@) =~= list.subrange(text_start as int, i as int));
                    }
                    self.push_markdown_cell(&mut out, before);
                    if self.failed() {
                        return out;
                    }
                    let end = find_closing_line(all.as_slice(), i + 1, "```", &mut self.ledger);
                    self.push_code_cell(&mut out, all.as_slice(), i + 1, end, language.as_slice());
                    i = if end < n {
                        end + 1
                    } else {
                        n
                    };
                    text_start = i;
                },
                None => {
                    i = i + 1;
                },
            }
        }
        if text_start < n {
            let rest = slice_subrange(all.as_slice(), text_start, n);
            proof {
                assert(text::texts(rest@) =~= list.skip(text_start as int));
            }
            self.push_markdown_cell(&mut out, rest);
        }
        out
    }
}

/// Whether a text may be a notebook in extended Markdown.
pub fn might_be_myst_notebook(content: &str) -> (r: bool)
    ensures
        r == hints_at_myst_notebook(content@),
{
    let s = chars_of(content);
    has_prefix(s.as_slice(), "---") && find_from(s.as_slice(), "```{code-cell}", 0).is_some()
}

/// The members of a value, if it is an object.
pub open spec fn object_members(value: Option<json::Json>) -> Option<Seq<(Seq<char>, json::Json)>> {
    match value {
        Some(json::Json::Object(members)) => Some(members),
        _ => None,
    }
}

/// A value, if there is one, with its texts as sequences.
pub open spec fn opt_json(value: Option<JsonValue>) -> Option<json::Json> {
    match value {
        Some(v) => Some(v@),
        None => None,
    }
}

/// The cells of a notebook in extended Markdown, given whether it names a kernel, what it says of itself and the
/// text after that: it names a kernel, has a code cell and says an object of itself.
pub open spec fn notebook_read(
    names_kernel: bool,
    metadata: Option<json::Json>,
    remaining: Seq<char>,
    budget: SecurityBudget,
) -> (Render, Option<Seq<Cell>>) {
    let opened = Render { text: Seq::empty(), ledger: security::open_ledger(budget), too_deep: false };
    if !names_kernel {
        (opened, None)
    } else {
        let (searched, found) = code_cell_found(opened.ledger, text::lines_of(remaining), 0);
        let after = opened.paid(searched);
        if after.failed() || !found || object_members(metadata) is None {
            (after, None)
        } else {
            let reading = myst_cells(
                Reading { render: after, cells: Seq::empty() },
                text::lines_of(remaining),
                0,
                0,
            );
            (
                reading.render,
                if reading.render.failed() {
                    None
                } else {
                    Some(reading.cells)
                },
            )
        }
    }
}

/// Whether a result tells what came of reading a notebook: the ceiling that was passed, or the cells, if any, and
/// what the notebook says of itself.
pub open spec fn tells_notebook(
    r: Result<Option<TextNotebook>, XbergError>,
    done: Render,
    found: Option<Seq<Cell>>,
    metadata: Seq<(Seq<char>, json::Json)>,
) -> bool {
    match done.ledger.verdict {
        Err(limit) => r is Err && error::reports(r->Err_0, limit),
        Ok(()) => match found {
            Some(list) => {
                &&& r matches Ok(Some(notebook))
                &&& cells(notebook.cells@) == list
                &&& json::members(notebook.metadata@) == metadata
            },
            None => r matches Ok(None),
        },
    }
}

/// Reads a notebook in extended Markdown, given whether it names a kernel, what it says of itself and the text after
/// that. It is none if it names no kernel, has no code cell or says no object of itself.
pub fn parse_myst_text_notebook_parts(
    names_kernel: bool,
    metadata: Option<JsonValue>,
    remaining: &str,
    budget: &mut SecurityBudget,
) -> (r: Result<Option<TextNotebook>, XbergError>)
    ensures
        ({
            let (done, found) = notebook_read(names_kernel, opt_json(metadata), remaining@, *old(budget));
            &&& *final(budget) == done.ledger.budget
            &&& tells_notebook(r, done, found, object_members(opt_json(metadata))->0)
        }),
{
    if !names_kernel {
        return Ok(None);
    }
    let mut renderer = Renderer::new(Ledger::new(*budget));
    let found = contains_code_cell(remaining, &mut renderer.ledger);
    if renderer.ledger.failed() || !found {
        *budget = renderer.ledger.budget;
        return match renderer.ledger.verdict {
            Err(limit) => Err(security_error(limit)),
            Ok(()) => Ok(None),
        };
    }
    let members = match metadata {
        Some(value) => {
            proof {
                json::lemma_view(value);
            }
            match value {
                JsonValue::Object(members) => members,
                _ => {
                    *budget = renderer.ledger.budget;
                    return Ok(None);
                },
            }
        },
        None => {
            *budget = renderer.ledger.budget;
            return Ok(None);
        },
    };
    let list = renderer.parse_myst_cells(remaining);
    *budget = renderer.ledger.budget;
    match renderer.ledger.verdict {
        Err(limit) => Err(security_error(limit)),
        Ok(()) => {
            proof {
                lemma_cells_are_never_too_deep(
                    Reading {
                        render: Render {
                            text: Seq::empty(),
                            ledger: code_cell_found(
                                security::open_ledger(*old(budget)),
                                text::lines_of(remaining@),
                                0,
                            ).0,
                            too_deep: false,
                        },
                        cells: Seq::empty(),
                    },
                    text::lines_of(remaining@),
                    0,
                    0,
                );
            }
            Ok(Some(TextNotebook { metadata: members, cells: list }))
        },
    }
}

/// What a source in the notation of YAML says, if it can be read.
pub open spec fn yaml_said(source: Seq<char>) -> Option<json::Json> {
    match json::yaml_read(source) {
        Ok(value) => Some(value),
        Err(_) => None,
    }
}

fn read_said(source: &str) -> (r: Option<JsonValue>)
    ensures
        opt_json(r) == yaml_said(source@),
{
    match read_yaml(source) {
        Ok(value) => Some(value),
        Err(_) => None,
    }
}

/// Whether a text may be a notebook in extended Markdown.
pub open spec fn hints_at_myst_notebook(content: Seq<char>) -> bool {
    text::occurs_at(content, "---"@, 0) && text::first_occurrence(content, "```{code-cell}"@, 0) is Some
}

/// Reads a notebook in extended Markdown. A text that cannot be one, or that says nothing of itself, costs nothing.
pub fn parse_myst_text_notebook(content: &str, budget: &mut SecurityBudget) -> (r: Result<
    Option<TextNotebook>,
    XbergError,
>)
    ensures
        match frontmatter(content@) {
            Some((yaml, remaining)) if hints_at_myst_notebook(content@) => {
                let (done, found) = notebook_read(
                    json::yaml_maps(yaml, "kernelspec"@),
                    yaml_said(yaml),
                    remaining,
                    *old(budget),
                );
                &&& *final(budget) == done.ledger.budget
                &&& tells_notebook(r, done, found, object_members(yaml_said(yaml))->0)
            },
            _ => r matches Ok(None) && *final(budget) == *old(budget),
        },
{
    if !might_be_myst_notebook(content) {
        return Ok(None);
    }
    match split_frontmatter(content) {
        Some((yaml, remaining)) => parse_myst_text_notebook_parts(
            has_mapping(yaml.as_str(), "kernelspec"),
            read_said(yaml.as_str()),
            remaining.as_str(),
            budget,
        ),
        None => Ok(None),
    }
}

proof fn lemma_joined_is_never_too_deep(r: Render, lines: Seq<Seq<char>>)
    ensures
        r.with_joined(lines).too_deep == r.too_deep,
    decreases lines.len(),
{
    broadcast use lemma_appended;

    if lines.len() > 0 {
        lemma_joined_is_never_too_deep(r, lines.drop_last());
    }
}

proof fn lemma_tags_are_never_too_deep(r: Render, pieces: Seq<Seq<char>>)
    ensures
        tags_read(r, pieces).0.too_deep == r.too_deep,
    decreases pieces.len(),
{
    broadcast use lemma_appended;

    if pieces.len() > 0 {
        lemma_tags_are_never_too_deep(r, pieces.drop_last());
    }
}

proof fn lemma_cells_are_never_too_deep(reading: Reading, lines: Seq<Seq<char>>, text_start: int, i: int)
    requires
        0 <= i,
    ensures
        myst_cells(reading, lines, text_start, i).render.too_deep == reading.render.too_deep,
    decreases lines.len() - i,
{
    if i >= lines.len() {
        lemma_joined_is_never_too_deep(reading.render, lines.skip(text_start));
    } else {
        let stepped = Reading { render: reading.render.stepped(), ..reading };
        let found = fenced_directive(text::trimmed(lines[i]));
        if stepped.render.failed() {
        } else if found is Some && (found->0).0 == "code-cell"@ {
            lemma_joined_is_never_too_deep(stepped.render, lines.subrange(text_start, i));
            let before = stepped.with_markdown(lines.subrange(text_start, i));
            lemma_ends_are_within(before.render.ledger, lines, i + 1, 0, 1, "```"@);
            let (searched, end) = closing_line(before.render.ledger, lines, i + 1, "```"@);
            let next = after_line(lines, end);
            if !before.render.failed() {
                let ready = Reading { render: before.render.paid(searched), ..before };
                let (ledger, options, body_start) = directive_options(searched, lines, i + 1, end, Seq::empty());
                let r = ready.render.paid(ledger);
                if let Some(value) = option_of(options, "tags"@) {
                    lemma_tags_are_never_too_deep(r, text::split_on(unbracketed(value), ','));
                    lemma_joined_is_never_too_deep(tags_of(r, value).0, lines.subrange(body_start, end));
                } else {
                    lemma_joined_is_never_too_deep(r, lines.subrange(body_start, end));
                }
                let after = code_cell_read(ready, lines, i + 1, end, (found->0).1);
                assert(after.render.too_deep == reading.render.too_deep);
                lemma_cells_are_never_too_deep(after, lines, next, next);
            }
        } else {
            lemma_cells_are_never_too_deep(stepped, lines, text_start, i + 1);
        }
    }
}

/// Source lines between the first line and the next one, if both consist of three hyphens, and the text
/// after them.
pub open spec fn frontmatter(content: Seq<char>) -> Option<(Seq<char>, Seq<char>)> {
    let lines = text::lines_of(content);
    if lines.len() == 0 || text::trimmed_end(lines[0]) != "---"@ {
        None
    } else {
        match fence_line(lines, 1) {
            Some(end) => Some((text::join(lines.subrange(1, end), "\n"@), text::join(lines.skip(end + 1), "\n"@))),
            None => None,
        }
    }
}

/// The first line from one on that consists of three hyphens.
pub open spec fn fence_line(lines: Seq<Seq<char>>, i: int) -> Option<int>
    decreases lines.len() - i,
{
    if i < 0 || i >= lines.len() {
        None
    } else if text::trimmed_end(lines[i]) == "---"@ {
        Some(i)
    } else {
        fence_line(lines, i + 1)
    }
}

/// Splits what a document says of itself from its text.
pub fn split_frontmatter(content: &str) -> (r: Option<(String, String)>)
    ensures
        match r {
            Some(found) => frontmatter(content@) == Some((found.0@, found.1@)),
            None => frontmatter(content@) is None,
        },
{
    let all = lines(chars_of(content).as_slice());
    let n = all.len();
    let ghost list = text::lines_of(content@);
    if n == 0 {
        return None;
    }
    proof {
        assert(list[0] == all@[0]@);
    }
    if !is_str(trim_end(all[0].as_slice()), "---") {
        return None;
    }
    let mut i: usize = 1;
    while i < n
        invariant
            1 <= i <= n,
            n == all@.len(),
            list == text::texts(all@),
            list == text::lines_of(content@),
            text::trimmed_end(list[0]) == "---"@,
            fence_line(list, 1) == fence_line(list, i as int),
        decreases n - i,
    {
        proof {
            assert(list[i as int] == all@[i as int]@);
        }
        if is_str(trim_end(all[i].as_slice()), "---") {
            let inner = slice_subrange(all.as_slice(), 1, i);
            let rest = slice_subrange(all.as_slice(), i + 1, n);
            let feed = chars_of("\n");
            proof {
                assert(text::texts(inner@) =~= list.subrange(1, i as int));
                assert(text::texts(rest@) =~= list.skip(i + 1));
            }
            let head = text::join_chars(inner, feed.as_slice());
            let tail = text::join_chars(rest, feed.as_slice());
            return Some((string_of(head.as_slice()), string_of(tail.as_slice())));
        }
        i = i + 1;
    }
    None
}

/// The mark of a comment and what follows it, without one space after the mark.
pub open spec fn comment_of(line: Seq<char>) -> Option<(Seq<char>, Seq<char>)> {
    let t = text::trimmed_start(line);
    if text::occurs_at(t, "//"@, 0) {
        Some(("//"@, without_space(t.skip(2))))
    } else if text::occurs_at(t, "#"@, 0) {
        Some(("#"@, without_space(t.skip(1))))
    } else if text::occurs_at(t, "--"@, 0) {
        Some(("--"@, without_space(t.skip(2))))
    } else if text::occurs_at(t, ";"@, 0) {
        Some((";"@, without_space(t.skip(1))))
    } else {
        None
    }
}

/// A text without one space at its start.
pub open spec fn without_space(s: Seq<char>) -> Seq<char> {
    if s.len() > 0 && s[0] == ' ' {
        s.skip(1)
    } else {
        s
    }
}

fn skip_space<'a>(s: &'a [char]) -> (r: &'a [char])
    ensures
        r@ == without_space(s@),
{
    let n = s.len();
    if n > 0 && s[0] == ' ' {
        let r = slice_subrange(s, 1, n);
        proof {
            assert(r@ =~= s@.skip(1));
        }
        r
    } else {
        s
    }
}

/// The mark of a comment and what follows it.
pub fn comment_payload<'a>(line: &'a [char]) -> (r: Option<(&'static str, &'a [char])>)
    ensures
        match r {
            Some(found) => comment_of(line@) == Some((found.0@, found.1@)),
            None => comment_of(line@) is None,
        },
{
    proof {
        reveal_strlit("//");
        reveal_strlit("#");
        reveal_strlit("--");
        reveal_strlit(";");
        assert("//"@.len() == 2 && "#"@.len() == 1 && "--"@.len() == 2 && ";"@.len() == 1);
    }
    let t = trim_start(line);
    let n = t.len();
    let (prefix, length): (&'static str, usize) = if has_prefix(t, "//") {
        ("//", 2)
    } else if has_prefix(t, "#") {
        ("#", 1)
    } else if has_prefix(t, "--") {
        ("--", 2)
    } else if has_prefix(t, ";") {
        (";", 1)
    } else {
        return None;
    };
    let rest = slice_subrange(t, length, n);
    proof {
        assert(rest@ =~= t@.skip(length as int));
    }
    Some((prefix, skip_space(rest)))
}

/// Whether a line may belong to a notebook kept as source code.
pub open spec fn hints_at_notebook(line: Seq<char>) -> bool {
    match comment_of(line) {
        Some((_, payload)) => {
            let t = text::trimmed_start(payload);
            text::occurs_at(t, "%%"@, 0) || text::first_occurrence(t, "format_name: light"@, 0) is Some
        },
        None => false,
    }
}

/// Whether a text may be a notebook kept as source code.
pub fn might_be_jupytext_notebook(content: &str) -> (r: bool)
    ensures
        r == hints_at_source_notebook(content@),
{
    let all = lines(chars_of(content).as_slice());
    let ghost list = text::lines_of(content@);
    let mut i: usize = 0;
    while i < all.len()
        invariant
            i <= all.len(),
            list == text::texts(all@),
            list == text::lines_of(content@),
            forall|k: int| 0 <= k < i ==> !hints_at_notebook(#[trigger] list[k]),
        decreases all.len() - i,
    {
        proof {
            assert(list[i as int] == all@[i as int]@);
        }
        if let Some((_, payload)) = comment_payload(all[i].as_slice()) {
            let t = trim_start(payload);
            if has_prefix(t, "%%") || find_from(t, "format_name: light", 0).is_some() {
                return true;
            }
        }
        i = i + 1;
    }
    false
}

/// The marker of a cell: the mark of the comment that it stands in, and what it says of the cell.
pub open spec fn cell_marker(line: Seq<char>, marker: Seq<char>) -> Option<(Seq<char>, Seq<char>)> {
    match comment_of(line) {
        Some((prefix, payload)) => {
            let t = text::trimmed_start(payload);
            if text::occurs_at(t, marker, 0) {
                let said = text::trimmed(t.skip(marker.len() as int));
                if said.len() > 0 && said[0] != '[' && said[0] != '{' && !text::occurs_at(said, "tags="@, 0) {
                    None
                } else {
                    Some((prefix, said))
                }
            } else {
                None
            }
        },
        None => None,
    }
}

/// The marker of a cell.
pub fn notebook_marker<'a>(line: &'a [char], marker: &str) -> (r: Option<(&'static str, &'a [char])>)
    ensures
        match r {
            Some(found) => cell_marker(line@, marker@) == Some((found.0@, found.1@)),
            None => cell_marker(line@, marker@) is None,
        },
{
    let wanted = chars_of(marker);
    match comment_payload(line) {
        Some((prefix, payload)) => {
            let t = trim_start(payload);
            let n = t.len();
            if !has_prefix(t, marker) {
                return None;
            }
            let rest = slice_subrange(t, wanted.len(), n);
            proof {
                assert(rest@ =~= t@.skip(marker@.len() as int));
            }
            let said = trim(rest);
            if said.len() > 0 && said[0] != '[' && said[0] != '{' && !has_prefix(said, "tags=") {
                return None;
            }
            Some((prefix, said))
        },
        None => None,
    }
}

/// A text without braces around it.
pub open spec fn unbraced(s: Seq<char>) -> Seq<char>
    decreases s.len(),
{
    if s.len() > 0 && (s[0] == '{' || s[0] == '}') {
        unbraced(s.skip(1))
    } else if s.len() > 0 && (s.last() == '{' || s.last() == '}') {
        unbraced(s.drop_last())
    } else {
        s
    }
}

fn strip_braces<'a>(s: &'a [char]) -> (r: &'a [char])
    ensures
        r@ == unbraced(s@),
{
    let mut a: usize = 0;
    let mut b: usize = s.len();
    proof {
        assert(s@.subrange(0, b as int) =~= s@);
    }
    while a < b && (s[a] == '{' || s[a] == '}')
        invariant
            a <= b,
            b == s@.len(),
            unbraced(s@) == unbraced(s@.subrange(a as int, b as int)),
        decreases b - a,
    {
        proof {
            assert(s@.subrange(a as int, b as int).skip(1) =~= s@.subrange(a + 1, b as int));
        }
        a = a + 1;
    }
    while a < b && (s[b - 1] == '{' || s[b - 1] == '}')
        invariant
            a <= b <= s@.len(),
            a < b ==> s@[a as int] != '{' && s@[a as int] != '}',
            unbraced(s@) == unbraced(s@.subrange(a as int, b as int)),
        decreases b - a,
    {
        proof {
            assert(s@.subrange(a as int, b as int).drop_last() =~= s@.subrange(a as int, b - 1));
        }
        b = b - 1;
    }
    slice_subrange(s, a, b)
}

/// The cell that a marker opens.
pub open spec fn cell_opened(r: Render, said: Seq<char>) -> (Render, Cell) {
    let (tagged, tags) = match text::first_occurrence(said, "tags="@, 0) {
        Some(p) => tags_of(r, unbraced(said.skip(p + 5))),
        None => (r, Seq::empty()),
    };
    (
        tagged,
        Cell {
            cell_type: if text::occurs_at(said, "[markdown]"@, 0) {
                TextNotebookCellType::Markdown
            } else {
                TextNotebookCellType::Code
            },
            source: Seq::empty(),
            language: None,
            tags,
        },
    )
}

/// A line as it stands in a cell: in a cell of text, without the mark of the comment that it is.
pub open spec fn cell_line(cell: Cell, line: Seq<char>, prefix: Seq<char>) -> Seq<char> {
    match comment_of(line) {
        Some((mark, payload)) => if cell.cell_type == TextNotebookCellType::Markdown && mark == prefix {
            payload
        } else {
            line
        },
        None => line,
    }
}

/// Cells read so far, the one being read with the mark of its marker, and what reading has cost.
#[verifier::ext_equal]
pub struct Pending {
    /// The cells read so far.
    pub reading: Reading,
    /// The cell being read, and the mark of its marker.
    pub current: Option<(Cell, Seq<char>)>,
}

/// A text without line feeds at its end.
pub open spec fn without_feeds(s: Seq<char>) -> Seq<char> {
    text::stripped_end(s, '\n')
}

impl Pending {
    /// After the cell being read, if there is one; one that holds nothing but white space is dropped.
    pub open spec fn closed(self) -> Pending {
        match self.current {
            Some((cell, _)) => {
                let source = without_feeds(cell.source);
                Pending {
                    reading: if text::trimmed(source).len() > 0 {
                        self.reading.with(Cell { source, ..cell })
                    } else {
                        self.reading
                    },
                    current: None,
                }
            },
            None => self,
        }
    }

    /// After the marker of a cell.
    pub open spec fn opened(self, prefix: Seq<char>, said: Seq<char>) -> Pending {
        let closed = self.closed();
        let (render, cell) = cell_opened(closed.reading.render, said);
        Pending { reading: Reading { render, ..closed.reading }, current: Some((cell, prefix)) }
    }

    /// After a line that is no marker.
    pub open spec fn continued(self, line: Seq<char>) -> Pending {
        match self.current {
            Some((cell, prefix)) => {
                let r = self.reading.render;
                let done = Render { text: cell.source, ..r }.appended(cell_line(cell, line, prefix)).appended(
                    "\n"@,
                );
                Pending {
                    reading: Reading { render: blank_after(done), ..self.reading },
                    current: Some((Cell { source: done.text, ..cell }, prefix)),
                }
            },
            None => self,
        }
    }

    /// After a line. In the light format a line may also close a cell.
    pub open spec fn taken(self, line: Seq<char>, light: bool) -> Pending {
        let stepped = Pending {
            reading: Reading { render: self.reading.render.stepped(), ..self.reading },
            ..self
        };
        let marker = if light {
            "+"@
        } else {
            "%%"@
        };
        if stepped.reading.render.failed() {
            stepped
        } else {
            match cell_marker(line, marker) {
                Some((prefix, said)) => stepped.opened(prefix, said),
                None => if light && cell_marker(line, "-"@) is Some {
                    stepped.closed()
                } else {
                    stepped.continued(line)
                },
            }
        }
    }
}

/// After lines.
pub open spec fn lines_taken(p: Pending, lines: Seq<Seq<char>>, light: bool) -> Pending
    decreases lines.len(),
{
    if lines.len() == 0 {
        p
    } else {
        lines_taken(p, lines.drop_last(), light).taken(lines.last(), light)
    }
}

/// The cells of a notebook kept as source code.
pub open spec fn source_cells(r: Render, lines: Seq<Seq<char>>, light: bool) -> Reading {
    lines_taken(
        Pending { reading: Reading { render: r, cells: Seq::empty() }, current: None },
        lines,
        light,
    ).closed().reading
}

/// Reads the cells of a notebook kept as source code.
pub struct CellReader {
    /// What reading has cost.
    pub renderer: Renderer,
    /// The cells read so far.
    pub cells: Vec<TextNotebookCell>,
    /// The cell being read, and the mark of its marker.
    pub current: Option<(TextNotebookCell, &'static str)>,
}

impl View for CellReader {
    type V = Pending;

    open spec fn view(&self) -> Pending {
        Pending {
            reading: Reading { render: self.renderer@, cells: cells(self.cells@) },
            current: match self.current {
                Some((cell, prefix)) => Some((cell@, prefix@)),
                None => None,
            },
        }
    }
}

impl CellReader {
    fn take_current(&mut self) -> (r: Option<(TextNotebookCell, &'static str)>)
        ensures
            r == old(self).current,
            final(self).renderer == old(self).renderer,
            final(self).cells == old(self).cells,
            final(self).current is None,
    {
        let mut current: Option<(TextNotebookCell, &'static str)> = None;
        std::mem::swap(&mut current, &mut self.current);
        current
    }

    fn push_nonempty_cell(&mut self)
        ensures
            final(self)@ == old(self)@.closed(),
            final(self).renderer == old(self).renderer,
    {
        if let Some((cell, _)) = self.take_current() {
            let letters = chars_of(cell.source.as_str());
            let mut n: usize = letters.len();
            proof {
                assert(letters@.take(n as int) =~= letters@);
            }
            while n > 0 && letters[n - 1] == '\n'
                invariant
                    n <= letters@.len(),
                    without_feeds(letters@) == text::stripped_end(letters@.take(n as int), '\n'),
                decreases n,
            {
                proof {
                    assert(letters@.take(n as int).drop_last() =~= letters@.take(n - 1));
                }
                n = n - 1;
            }
            let kept = slice_subrange(letters.as_slice(), 0, n);
            proof {
                assert(kept@ =~= letters@.take(n as int));
                assert(kept@ == without_feeds(letters@));
            }
            if trim(kept).len() > 0 && !self.renderer.failed() {
                let mut closed = cell;
                closed.source = string_of(kept);
                proof {
                    assert(cells(self.cells@.push(closed)) =~= cells(self.cells@).push(closed@));
                }
                self.cells.push(closed);
            }
        }
    }

    fn open_cell(&mut self, prefix: &'static str, said: &[char])
        requires
            old(self).renderer@.text.len() == 0,
        ensures
            final(self)@ == old(self)@.opened(prefix@, said@),
            final(self).renderer@.text.len() == 0,
    {
        proof {
            reveal_strlit("tags=");
            assert("tags="@.len() == 5);
        }
        self.push_nonempty_cell();
        let n = said.len();
        let cell_type = if has_prefix(said, "[markdown]") {
            TextNotebookCellType::Markdown
        } else {
            TextNotebookCellType::Code
        };
        let tags = match find_from(said, "tags=", 0) {
            Some(p) => {
                let list = slice_subrange(said, p + 5, n);
                proof {
                    assert(list@ =~= said@.skip(p + 5));
                }
                self.renderer.parse_tags(strip_braces(list))
            },
            None => {
                let none: Vec<String> = Vec::new();
                proof {
                    assert(text::strings(none@) =~= Seq::empty());
                }
                none
            },
        };
        let cell = TextNotebookCell { cell_type, source: String::new(), language: None, tags };
        proof {
            assert(cell@.source =~= Seq::<char>::empty());
        }
        self.current = Some((cell, prefix));
    }

    fn append_cell_line(&mut self, line: &[char])
        requires
            old(self).renderer@.text.len() == 0,
        ensures
            final(self)@ == old(self)@.continued(line@),
            final(self).renderer@.text.len() == 0,
    {
        if let Some((cell, prefix)) = self.take_current() {
            let is_text = match cell.cell_type {
                TextNotebookCellType::Markdown => true,
                TextNotebookCellType::Code => false,
            };
            let mut grown = cell;
            let mut source = String::new();
            std::mem::swap(&mut source, &mut grown.source);
            self.renderer.output = source;
            match comment_payload(line) {
                Some((mark, payload)) => {
                    if is_text && same_str(mark, prefix) {
                        self.renderer.append_chars(payload);
                    } else {
                        self.renderer.append_chars(line);
                    }
                },
                None => {
                    self.renderer.append_chars(line);
                },
            }
            self.renderer.append("\n");
            grown.source = self.renderer.take_output();
            self.current = Some((grown, prefix));
        }
    }

    fn take_line(&mut self, line: &[char], light: bool)
        requires
            old(self).renderer@.text.len() == 0,
        ensures
            final(self)@ == old(self)@.taken(line@, light),
            final(self).renderer@.text.len() == 0,
    {
        self.renderer.step();
        if self.renderer.failed() {
            return;
        }
        let marker = if light {
            "+"
        } else {
            "%%"
        };
        match notebook_marker(line, marker) {
            Some((prefix, said)) => {
                self.open_cell(prefix, said);
            },
            None => {
                if light && notebook_marker(line, "-").is_some() {
                    self.push_nonempty_cell();
                } else {
                    self.append_cell_line(line);
                }
            },
        }
    }
}

/// Reads the cells of a notebook kept as source code.
pub fn parse_source_cells(body: &[Vec<char>], light: bool, renderer: Renderer) -> (r: (Renderer, Vec<TextNotebookCell>))
    requires
        renderer@.text.len() == 0,
    ensures
        (Reading { render: r.0@, cells: cells(r.1@) }) == source_cells(renderer@, text::texts(body@), light),
{
    let ghost all = text::texts(body@);
    let mut reader = CellReader { renderer, cells: Vec::new(), current: None };
    proof {
        assert(cells(reader.cells@) =~= Seq::empty());
    }
    let ghost start = reader@;
    let mut i: usize = 0;
    while i < body.len()
        invariant
            i <= body.len(),
            all == text::texts(body@),
            reader.renderer@.text.len() == 0,
            reader@ == lines_taken(start, all.take(i as int), light),
        decreases body.len() - i,
    {
        proof {
            assert(all.take(i + 1).drop_last() =~= all.take(i as int));
            assert(all.take(i + 1).last() == body@[i as int]@);
        }
        reader.take_line(body[i].as_slice(), light);
        i = i + 1;
    }
    proof {
        assert(all.take(all.len() as int) =~= all);
    }
    reader.push_nonempty_cell();
    (reader.renderer, reader.cells)
}

/// What a notebook kept as source code says of itself, in the comment that it starts with.
pub struct CommentedHeader {
    /// The source of what it says.
    pub yaml: String,
    /// The line after the comment.
    pub end: usize,
}

/// The first line that holds more than white space.
pub open spec fn first_nonblank(lines: Seq<Seq<char>>, i: int) -> Option<int>
    decreases lines.len() - i,
{
    if i < 0 || i >= lines.len() {
        None
    } else if text::trimmed(lines[i]).len() > 0 {
        Some(i)
    } else {
        first_nonblank(lines, i + 1)
    }
}

/// The lines of a header from one on, up to the line that closes it; every one of them is a comment with
/// the same mark.
pub open spec fn header_lines(
    l: Ledger,
    lines: Seq<Seq<char>>,
    i: int,
    prefix: Seq<char>,
    found: Seq<Seq<char>>,
) -> (Ledger, Option<(Seq<Seq<char>>, int)>)
    decreases lines.len() - i,
{
    if i < 0 || i >= lines.len() {
        (l, None)
    } else {
        let stepped = l.stepped();
        match comment_of(lines[i]) {
            Some((mark, payload)) => if stepped.verdict is Err || mark != prefix {
                (stepped, None)
            } else if text::trimmed(payload) == "---"@ {
                (stepped, Some((found, i + 1)))
            } else {
                header_lines(stepped, lines, i + 1, prefix, found.push(payload))
            },
            None => (stepped, None),
        }
    }
}

/// What a notebook kept as source code says of itself: the source between two lines of three hyphens in
/// the comment that it starts with, and the line after that.
pub open spec fn commented_header(r: Render, lines: Seq<Seq<char>>) -> (Render, Option<(Seq<char>, int)>) {
    match first_nonblank(lines, 0) {
        None => (r, None),
        Some(start) => match comment_of(lines[start]) {
            None => (r, None),
            Some((prefix, payload)) => if text::trimmed(payload) != "---"@ {
                (r, None)
            } else {
                let (ledger, found) = header_lines(r.ledger, lines, start + 1, prefix, Seq::empty());
                let paid = r.paid(ledger);
                match found {
                    None => (paid, None),
                    Some((yaml, end)) => {
                        let joined = paid.with_joined(yaml);
                        (
                            blank_after(joined),
                            if joined.failed() {
                                None
                            } else {
                                Some((joined.text, end))
                            },
                        )
                    },
                }
            },
        },
    }
}

impl Renderer {
    fn read_header_lines(&mut self, all: &[Vec<char>], start: usize, prefix: &str) -> (r: Option<(Vec<Vec<char>>, usize)>)
        requires
            start <= all@.len(),
        ensures
            ({
                let (ledger, found) = header_lines(
                    old(self)@.ledger,
                    text::texts(all@),
                    start as int,
                    prefix@,
                    Seq::empty(),
                );
                &&& final(self)@ == old(self)@.paid(ledger)
                &&& match r {
                    Some((list, end)) => found == Some((text::texts(list@), end as int)) && end <= all@.len(),
                    None => found is None,
                }
            }),
    {
        let ghost lines_list = text::texts(all@);
        let ghost wanted = header_lines(self@.ledger, lines_list, start as int, prefix@, Seq::empty());
        let n = all.len();
        let mut found: Vec<Vec<char>> = Vec::new();
        let mut i: usize = start;
        proof {
            assert(text::texts(found@) =~= Seq::empty());
            assert(self@ =~= old(self)@.paid(self@.ledger));
        }
        while i < n
            invariant
                start <= i <= n,
                n == all@.len(),
                lines_list == text::texts(all@),
                self@ == old(self)@.paid(self@.ledger),
                wanted == header_lines(old(self)@.ledger, lines_list, start as int, prefix@, Seq::empty()),
                wanted == header_lines(self@.ledger, lines_list, i as int, prefix@, text::texts(found@)),
            decreases n - i,
        {
            proof {
                assert(lines_list[i as int] == all@[i as int]@);
            }
            self.ledger.step();
            match comment_payload(all[i].as_slice()) {
                Some((mark, payload)) => {
                    if self.ledger.failed() || !same_str(mark, prefix) {
                        return None;
                    }
                    if is_str(trim(payload), "---") {
                        return Some((found, i + 1));
                    }
                    let kept = copy_chars(payload);
                    proof {
                        assert(text::texts(found@.push(kept)) =~= text::texts(found@).push(kept@));
                    }
                    found.push(kept);
                },
                None => {
                    return None;
                },
            }
            i = i + 1;
        }
        None
    }

    /// Reads what a notebook kept as source code says of itself.
    pub fn parse_commented_header(&mut self, all: &[Vec<char>]) -> (r: Option<CommentedHeader>)
        requires
            old(self)@.text.len() == 0,
        ensures
            ({
                let (render, found) = commented_header(old(self)@, text::texts(all@));
                &&& final(self)@ == render
                &&& match r {
                    Some(header) => found == Some((header.yaml@, header.end as int)) && header.end <= all@.len(),
                    None => found is None,
                }
            }),
            final(self)@.text.len() == 0,
    {
        let ghost list = text::texts(all@);
        let n = all.len();
        let mut start: usize = 0;
        while start < n && trim(all[start].as_slice()).len() == 0
            invariant
                start <= n,
                n == all@.len(),
                list == text::texts(all@),
                first_nonblank(list, 0) == first_nonblank(list, start as int),
            decreases n - start,
        {
            proof {
                assert(list[start as int] == all@[start as int]@);
            }
            start = start + 1;
        }
        if start >= n {
            return None;
        }
        proof {
            assert(list[start as int] == all@[start as int]@);
            assert(first_nonblank(list, 0) == Some(start as int));
        }
        let (prefix, payload) = match comment_payload(all[start].as_slice()) {
            Some(found) => found,
            None => {
                return None;
            },
        };
        if !is_str(trim(payload), "---") {
            return None;
        }
        match self.read_header_lines(all, start + 1, prefix) {
            Some((yaml, end)) => {
                self.append_joined_lines(yaml.as_slice());
                let failed = self.failed();
                let source = self.take_output();
                if failed {
                    None
                } else {
                    Some(CommentedHeader { yaml: source, end })
                }
            },
            None => None,
        }
    }
}

/// The member of a value, if it is an object.
pub open spec fn member_of(value: Option<json::Json>, name: Seq<char>) -> Option<json::Json> {
    match value {
        Some(json::Json::Object(members)) => json::member(members, name),
        _ => None,
    }
}

/// The name of the format that a notebook says it is in.
pub open spec fn format_named(metadata: Seq<(Seq<char>, json::Json)>) -> Option<Seq<char>> {
    let nested = member_of(json::member(metadata, "jupyter"@), "jupytext"@);
    let jupytext = if nested is Some {
        nested
    } else {
        json::member(metadata, "jupytext"@)
    };
    json::text_of(member_of(member_of(jupytext, "text_representation"@), "format_name"@))
}

fn find_member_of<'a>(value: Option<&'a JsonValue>, name: &str) -> (r: Option<&'a JsonValue>)
    ensures
        match r {
            Some(found) => value is Some && member_of(Some(value->0@), name@) == Some(found@),
            None => value is None || member_of(Some(value->0@), name@) is None,
        },
{
    match value {
        Some(v) => {
            proof {
                json::lemma_view(*v);
            }
            match v {
                JsonValue::Object(members) => find_member(members.as_slice(), name),
                _ => None,
            }
        },
        None => None,
    }
}

/// Whether a notebook says that it is in the light format.
pub fn is_light_format(metadata: &Vec<(String, JsonValue)>) -> (r: bool)
    ensures
        r == (format_named(json::members(metadata@)) == Some("light"@)),
{
    let nested = find_member_of(find_member(metadata.as_slice(), "jupyter"), "jupytext");
    let jupytext = match nested {
        Some(found) => Some(found),
        None => find_member(metadata.as_slice(), "jupytext"),
    };
    let name = find_member_of(find_member_of(jupytext, "text_representation"), "format_name");
    match json::as_text(name) {
        Some(s) => same_str(s, "light"),
        None => false,
    }
}

/// The header of a notebook kept as source code, if the text may be one.
pub fn find_notebook_header(content: &str, budget: &mut SecurityBudget) -> (r: Result<
    Option<CommentedHeader>,
    XbergError,
>)
    ensures
        ({
            let opened = Render { text: Seq::empty(), ledger: security::open_ledger(*old(budget)), too_deep: false };
            let (done, found) = commented_header(opened, text::lines_of(content@));
            &&& *final(budget) == done.ledger.budget
            &&& match done.ledger.verdict {
                Err(limit) => r is Err && error::reports(r->Err_0, limit),
                Ok(()) => match found {
                    Some((yaml, end)) => r matches Ok(Some(header)) && header.yaml@ == yaml && header.end == end,
                    None => r matches Ok(None),
                },
            }
        }),
{
    let mut renderer = Renderer::new(Ledger::new(*budget));
    let all = lines(chars_of(content).as_slice());
    let header = renderer.parse_commented_header(all.as_slice());
    *budget = renderer.ledger.budget;
    match renderer.ledger.verdict {
        Err(limit) => Err(security_error(limit)),
        Ok(()) => Ok(header),
    }
}

/// The lines of a notebook after its header.
pub open spec fn body_lines(content: Seq<char>, end: int) -> Seq<Seq<char>> {
    let lines = text::lines_of(content);
    if end <= lines.len() {
        lines.skip(end)
    } else {
        Seq::empty()
    }
}

/// The cells of a notebook kept as source code, given what its header says and the line after that.
pub open spec fn source_notebook(
    content: Seq<char>,
    metadata: Seq<(Seq<char>, json::Json)>,
    end: int,
    budget: SecurityBudget,
) -> (Render, Option<Seq<Cell>>) {
    let opened = Render { text: Seq::empty(), ledger: security::open_ledger(budget), too_deep: false };
    let done = source_cells(opened, body_lines(content, end), format_named(metadata) == Some("light"@));
    (
        done.render,
        if done.cells.len() == 0 {
            None
        } else {
            Some(done.cells)
        },
    )
}

/// Reads a notebook kept as source code, given what its header says and the line after that. Without a
/// cell it is none.
pub fn parse_jupytext_parts(
    content: &str,
    metadata: Vec<(String, JsonValue)>,
    header_end: usize,
    budget: &mut SecurityBudget,
) -> (r: Result<Option<TextNotebook>, XbergError>)
    ensures
        ({
            let (done, found) = source_notebook(
                content@,
                json::members(metadata@),
                header_end as int,
                *old(budget),
            );
            &&& *final(budget) == done.ledger.budget
            &&& tells_notebook(r, done, found, json::members(metadata@))
        }),
{
    let all = lines(chars_of(content).as_slice());
    let n = all.len();
    let start = if header_end <= n {
        header_end
    } else {
        n
    };
    let body = slice_subrange(all.as_slice(), start, n);
    proof {
        assert(text::texts(body@) =~= body_lines(content@, header_end as int));
    }
    let light = is_light_format(&metadata);
    let (renderer, list) = parse_source_cells(body, light, Renderer::new(Ledger::new(*budget)));
    *budget = renderer.ledger.budget;
    match renderer.ledger.verdict {
        Err(limit) => Err(security_error(limit)),
        Ok(()) => {
            if list.len() == 0 {
                Ok(None)
            } else {
                Ok(Some(TextNotebook { metadata, cells: list }))
            }
        },
    }
}

/// What a notebook kept as source code says of itself, and the line after that. A header that cannot be read, or that
/// says no object, counts as none.
pub open spec fn header_said(header: Option<(Seq<char>, int)>) -> (Seq<(Seq<char>, json::Json)>, int) {
    match header {
        Some((yaml, end)) => match object_members(yaml_said(yaml)) {
            Some(members) => (members, end),
            None => (Seq::empty(), 0),
        },
        None => (Seq::empty(), 0),
    }
}

/// What comes of reading a notebook kept as source code: what reading costs, the cells if any, and what the
/// notebook says of itself.
pub open spec fn source_notebook_read(content: Seq<char>, budget: SecurityBudget) -> (
    Render,
    Option<Seq<Cell>>,
    Seq<(Seq<char>, json::Json)>,
) {
    let opened = Render { text: Seq::empty(), ledger: security::open_ledger(budget), too_deep: false };
    let (after, header) = commented_header(opened, text::lines_of(content));
    let (members, end) = header_said(header);
    if after.ledger.verdict is Err {
        (after, None, members)
    } else {
        let (done, found) = source_notebook(content, members, end, after.ledger.budget);
        (done, found, members)
    }
}

/// Reads a notebook kept as source code. Without a cell it is none.
pub fn parse_jupytext_notebook(content: &str, budget: &mut SecurityBudget) -> (r: Result<
    Option<TextNotebook>,
    XbergError,
>)
    ensures
        ({
            let (done, found, members) = source_notebook_read(content@, *old(budget));
            &&& *final(budget) == done.ledger.budget
            &&& tells_notebook(r, done, found, members)
        }),
{
    let header = match find_notebook_header(content, budget) {
        Ok(header) => header,
        Err(error) => {
            return Err(error);
        },
    };
    let mut members: Vec<(String, JsonValue)> = Vec::new();
    let mut end: usize = 0;
    proof {
        assert(json::members(members@) =~= Seq::empty());
    }
    if let Some(found) = header {
        if let Some(value) = read_said(found.yaml.as_str()) {
            proof {
                json::lemma_view(value);
            }
            if let JsonValue::Object(list) = value {
                members = list;
                end = found.end;
            }
        }
    }
    parse_jupytext_parts(content, members, end, budget)
}

/// Whether a text may be a notebook kept as source code.
pub open spec fn hints_at_source_notebook(content: Seq<char>) -> bool {
    exists|i: int| 0 <= i < text::lines_of(content).len() && hints_at_notebook(#[trigger] text::lines_of(content)[i])
}

/// Reads a source that may be a notebook. One that cannot be costs nothing.
pub fn parse_text_notebook(content: &str, budget: &mut SecurityBudget) -> (r: Result<Option<TextNotebook>, XbergError>)
    ensures
        if hints_at_source_notebook(content@) {
            let (done, found, members) = source_notebook_read(content@, *old(budget));
            &&& *final(budget) == done.ledger.budget
            &&& tells_notebook(r, done, found, members)
        } else {
            r matches Ok(None) && *final(budget) == *old(budget)
        },
{
    if !might_be_jupytext_notebook(content) {
        return Ok(None);
    }
    parse_jupytext_notebook(content, budget)
}

} // verus!
