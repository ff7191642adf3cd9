//! The colour table and the font table.
use crate::rtf::words;
use crate::rtf::words::{fcharset_to_codepage, parse_rtf_control_word};
use crate::text;
use crate::text::{ascii_digit, digits_up_to, find_from, has_prefix, is_str, split_chars, trim};
use std::collections::HashMap;
use vstd::prelude::*;
use vstd::slice::slice_subrange;

verus! {

broadcast use vstd::std_specs::hash::group_hash_axioms;

/// The text of a group from a position, up to the brace that closes it; `depth` counts the groups
/// open before that position.
pub open spec fn group_body(s: Seq<char>, p: int, depth: int) -> Seq<char>
    decreases s.len() - p,
{
    if p < 0 || p >= s.len() {
        Seq::empty()
    } else {
        let inner = if s[p] == '{' {
            depth + 1
        } else if s[p] == '}' {
            depth - 1
        } else {
            depth
        };
        if s[p] == '}' && inner == 0 {
            Seq::empty()
        } else if inner > 0 {
            seq![s[p]] + group_body(s, p + 1, inner)
        } else {
            group_body(s, p + 1, inner)
        }
    }
}

/// The text of the group that starts at a position, without its closing brace.
pub fn extract_balanced_group_body(s: &[char], start: usize) -> (r: Vec<char>)
    requires
        start <= s.len() <= i32::MAX,
    ensures
        r@ == group_body(s@, start as int, 0),
        r@.len() <= s@.len(),
{
    let mut body: Vec<char> = Vec::new();
    let mut depth: i32 = 0;
    let mut p: usize = start;
    proof {
        assert(body@ + group_body(s@, p as int, 0) =~= group_body(s@, start as int, 0));
    }
    while p < s.len()
        invariant
            start <= p <= s.len() <= i32::MAX,
            -(p - start) <= depth <= p - start,
            body@ + group_body(s@, p as int, depth as int) == group_body(s@, start as int, 0),
            body@.len() <= p - start,
        decreases s.len() - p,
    {
        let c = s[p];
        if c == '{' {
            depth = depth + 1;
        } else if c == '}' {
            depth = depth - 1;
            if depth == 0 {
                proof {
                    assert(body@ + Seq::<char>::empty() =~= body@);
                }
                return body;
            }
        }
        if depth > 0 {
            let ghost before = body@;
            body.push(c);
            proof {
                let rest = group_body(s@, p + 1, depth as int);
                assert(before + (seq![c] + rest) =~= body@ + rest);
            }
        }
        p = p + 1;
    }
    proof {
        assert(body@ + Seq::<char>::empty() =~= body@);
    }
    body
}

/// A colour channel written in decimal, with an optional plus sign; anything else is zero.
pub open spec fn channel(s: Seq<char>) -> u8 {
    let digits = if s.len() > 1 && s[0] == '+' { s.skip(1) } else { s };
    if digits.len() > 0 && text::all_digits(digits) && text::digits_value(digits) <= 255 {
        text::digits_value(digits) as u8
    } else {
        0
    }
}

fn parse_channel(s: &[char]) -> (r: u8)
    ensures
        r == channel(s@),
{
    let signed = s.len() > 1 && s[0] == '+';
    proof {
        assert(s@.subrange(0, s@.len() as int) =~= s@);
        if s@.len() > 1 {
            assert(s@.subrange(1, s@.len() as int) =~= s@.skip(1));
        }
    }
    let digits = slice_subrange(s, if signed { 1 } else { 0 }, s.len());
    if digits.len() == 0 {
        return 0;
    }
    let mut i: usize = 0;
    while i < digits.len()
        invariant
            i <= digits.len(),
            forall|k: int| 0 <= k < i ==> text::is_digit(#[trigger] digits@[k]),
            digits@.len() > 0,
            digits@ == if s@.len() > 1 && s@[0] == '+' { s@.skip(1) } else { s@ },
        decreases digits.len() - i,
    {
        if !ascii_digit(digits[i]) {
            return 0;
        }
        i = i + 1;
    }
    match digits_up_to(digits, 255) {
        Some(n) => n as u8,
        None => 0,
    }
}

/// The red, green and blue channels that the parts of a colour entry set; the last word wins.
pub open spec fn channels(parts: Seq<Seq<char>>) -> (u8, u8, u8)
    decreases parts.len(),
{
    if parts.len() == 0 {
        (0, 0, 0)
    } else {
        let before = channels(parts.drop_last());
        let part = text::trimmed(parts.last());
        if text::occurs_at(part, "red"@, 0) {
            (channel(part.skip(3)), before.1, before.2)
        } else if text::occurs_at(part, "green"@, 0) {
            (before.0, channel(part.skip(5)), before.2)
        } else if text::occurs_at(part, "blue"@, 0) {
            (before.0, before.1, channel(part.skip(4)))
        } else {
            before
        }
    }
}

/// A hexadecimal digit in lower case.
pub open spec fn hex_digit_char(n: int) -> char {
    if n < 10 {
        (48 + n) as char
    } else {
        (87 + n) as char
    }
}

/// Two hexadecimal digits.
pub open spec fn hex_pair(n: u8) -> Seq<char> {
    seq![hex_digit_char((n / 16) as int), hex_digit_char((n % 16) as int)]
}

/// A colour written `#rrggbb`.
pub open spec fn color_text(rgb: (u8, u8, u8)) -> Seq<char> {
    seq!['#'] + hex_pair(rgb.0) + hex_pair(rgb.1) + hex_pair(rgb.2)
}

/// The colour that one entry of the table defines; an empty entry is the automatic colour.
pub open spec fn color_entry(entry: Seq<char>) -> Seq<char> {
    let trimmed = text::trimmed(entry);
    if trimmed.len() == 0 {
        Seq::empty()
    } else {
        color_text(channels(text::split_on(trimmed, '\\')))
    }
}

/// The colours that a document defines: the entries of its colour table, between semicolons.
pub open spec fn color_table(content: Seq<char>) -> Seq<Seq<char>> {
    match text::first_occurrence(content, "{\\colortbl"@, 0) {
        None => Seq::empty(),
        Some(start) => {
            let body = group_body(content, start, 0);
            let entries = if text::occurs_at(body, "{\\colortbl"@, 0) { body.skip(10) } else { body };
            text::split_on(entries, ';').map_values(|entry: Seq<char>| color_entry(entry))
        },
    }
}

fn hex_digit_of(n: u8) -> (c: char)
    requires
        n < 16,
    ensures
        c == hex_digit_char(n as int),
{
    if n < 10 {
        (48 + n) as char
    } else {
        (87 + n) as char
    }
}

fn push_hex_pair(out: &mut String, n: u8)
    ensures
        final(out)@ == old(out)@ + hex_pair(n),
{
    out.push(hex_digit_of(n / 16));
    out.push(hex_digit_of(n % 16));
    proof {
        assert(final(out)@ =~= old(out)@ + hex_pair(n));
    }
}

fn parse_color_entry(entry: &[char]) -> (r: String)
    ensures
        r@ == color_entry(entry@),
{
    let trimmed = trim(entry);
    let mut out = String::new();
    if trimmed.len() == 0 {
        return out;
    }
    let parts = split_chars(trimmed, '\\');
    let ghost all = text::texts(parts@);
    let mut red: u8 = 0;
    let mut green: u8 = 0;
    let mut blue: u8 = 0;
    let mut i: usize = 0;
    while i < parts.len()
        invariant
            i <= parts.len(),
            all == text::texts(parts@),
            (red, green, blue) == channels(all.take(i as int)),
        decreases parts.len() - i,
    {
        let part = trim(parts[i].as_slice());
        proof {
            assert(all.take(i + 1).drop_last() =~= all.take(i as int));
            assert(all.take(i + 1).last() == parts@[i as int]@);
            reveal_strlit("red");
            reveal_strlit("green");
            reveal_strlit("blue");
            if part@.len() >= 5 {
                assert(part@.subrange(5, part@.len() as int) =~= part@.skip(5));
            }
            if part@.len() >= 4 {
                assert(part@.subrange(4, part@.len() as int) =~= part@.skip(4));
            }
            if part@.len() >= 3 {
                assert(part@.subrange(3, part@.len() as int) =~= part@.skip(3));
            }
        }
        if has_prefix(part, "red") {
            red = parse_channel(slice_subrange(part, 3, part.len()));
        } else if has_prefix(part, "green") {
            green = parse_channel(slice_subrange(part, 5, part.len()));
        } else if has_prefix(part, "blue") {
            blue = parse_channel(slice_subrange(part, 4, part.len()));
        }
        i = i + 1;
    }
    proof {
        assert(all.take(all.len() as int) =~= all);
    }
    out.push('#');
    push_hex_pair(&mut out, red);
    push_hex_pair(&mut out, green);
    push_hex_pair(&mut out, blue);
    proof {
        assert(out@ =~= color_text((red, green, blue)));
    }
    out
}

/// Reads the colour table of a document.
pub fn parse_rtf_color_table(content: &[char]) -> (r: Vec<String>)
    requires
        content@.len() <= i32::MAX,
    ensures
        text::strings(r@) == color_table(content@),
{
    let mut colors: Vec<String> = Vec::new();
    let start = match find_from(content, "{\\colortbl", 0) {
        Some(start) => start,
        None => {
            proof {
                assert(text::strings(colors@) =~= Seq::<Seq<char>>::empty());
            }
            return colors;
        },
    };
    let body = extract_balanced_group_body(content, start);
    proof {
        reveal_strlit("{\\colortbl");
    }
    let skipped: usize = if has_prefix(body.as_slice(), "{\\colortbl") { 10 } else { 0 };
    proof {
        assert(body@.subrange(0, body@.len() as int) =~= body@);
        if body@.len() >= 10 {
            assert(body@.subrange(10, body@.len() as int) =~= body@.skip(10));
        }
    }
    let entries = split_chars(slice_subrange(body.as_slice(), skipped, body.len()), ';');
    let ghost all = text::texts(entries@);
    let ghost table = all.map_values(|entry: Seq<char>| color_entry(entry));
    let mut i: usize = 0;
    while i < entries.len()
        invariant
            i <= entries.len(),
            all == text::texts(entries@),
            table == all.map_values(|entry: Seq<char>| color_entry(entry)),
            text::strings(colors@) == table.take(i as int),
        decreases entries.len() - i,
    {
        let ghost before = text::strings(colors@);
        let color = parse_color_entry(entries[i].as_slice());
        proof {
            assert(table.take(i + 1) =~= before.push(color@));
        }
        let ghost old_colors = colors@;
        colors.push(color);
        proof {
            assert(text::strings(colors@) =~= text::strings(old_colors).push(color@));
        }
        i = i + 1;
    }
    proof {
        assert(table.take(table.len() as int) =~= table);
    }
    colors
}

/// A non-negative parameter kept to its lowest bits.
pub open spec fn clamped(value: i32, modulus: int) -> int {
    if value < 0 {
        0
    } else {
        value as int % modulus
    }
}

/// What the font table said so far: the open groups, what the entry at hand declares, and the code
/// pages of the fonts that are complete.
#[verifier::ext_equal]
pub struct FontScan {
    /// Number of open groups.
    pub depth: int,
    /// Font of the entry at hand.
    pub id: Option<u16>,
    /// Its charset.
    pub charset: Option<u8>,
    /// Its code page.
    pub codepage: Option<u32>,
    /// Code page of each font that has one.
    pub fonts: Map<u16, u32>,
}

/// The code pages after the entry at hand: its charset decides even where it fixes no code page.
pub open spec fn font_entry_closed(scan: FontScan) -> Map<u16, u32> {
    let chosen = match scan.charset {
        Some(charset) => words::charset_codepage(charset),
        None => scan.codepage,
    };
    match (scan.id, chosen) {
        (Some(id), Some(codepage)) => scan.fonts.insert(id, codepage),
        _ => scan.fonts,
    }
}

/// What a control word adds to the entry at hand.
pub open spec fn font_word(scan: FontScan, word: Seq<char>, param: Option<i32>) -> FontScan {
    match param {
        None => scan,
        Some(value) => if word == "f"@ {
            FontScan { id: Some(clamped(value, 65536) as u16), ..scan }
        } else if word == "fcharset"@ {
            FontScan { charset: Some(clamped(value, 256) as u8), ..scan }
        } else if word == "cpg"@ && value > 0 {
            FontScan { codepage: Some(value as u32), ..scan }
        } else {
            scan
        },
    }
}

/// What the font table says from a position on.
pub open spec fn font_scan(s: Seq<char>, p: int, scan: FontScan) -> Map<u16, u32>
    decreases s.len() - p,
{
    if p < 0 || p >= s.len() {
        scan.fonts
    } else if s[p] == '{' {
        font_scan(
            s,
            p + 1,
            if scan.depth + 1 == 2 {
                FontScan { depth: 2, id: None, charset: None, codepage: None, fonts: scan.fonts }
            } else {
                FontScan { depth: scan.depth + 1, ..scan }
            },
        )
    } else if s[p] == '}' {
        font_scan(
            s,
            p + 1,
            FontScan {
                depth: scan.depth - 1,
                fonts: if scan.depth - 1 == 1 { font_entry_closed(scan) } else { scan.fonts },
                ..scan
            },
        )
    } else if s[p] == '\\' && scan.depth >= 2 {
        let w = words::control_word_at(s, p + 1);
        if p < w.end <= s.len() {
            font_scan(s, w.end, font_word(scan, w.word, w.param))
        } else {
            scan.fonts
        }
    } else {
        font_scan(s, p + 1, scan)
    }
}

/// Where the font table of a document starts.
pub open spec fn font_table_start(content: Seq<char>) -> Option<int> {
    match text::first_occurrence(content, "{\\*\\fonttbl"@, 0) {
        Some(start) => Some(start),
        None => text::first_occurrence(content, "{\\fonttbl"@, 0),
    }
}

/// The code page of each font of a document that has one.
pub open spec fn font_codepages(content: Seq<char>) -> Map<u16, u32> {
    match font_table_start(content) {
        None => Map::empty(),
        Some(start) => font_scan(
            group_body(content, start, 0),
            0,
            FontScan { depth: 0, id: None, charset: None, codepage: None, fonts: Map::empty() },
        ),
    }
}

/// A non-negative parameter kept to 16 bits.
pub fn clamp_u16(value: i32) -> (r: u16)
    ensures
        r == clamped(value, 65536),
{
    if value < 0 {
        0
    } else {
        (value % 65536) as u16
    }
}

fn clamp_u8(value: i32) -> (r: u8)
    ensures
        r == clamped(value, 256),
{
    if value < 0 {
        0
    } else {
        (value % 256) as u8
    }
}

/// Reads the font table of a document: the code page of each font that has one.
pub fn parse_font_charset_table(content: &[char]) -> (r: HashMap<u16, u32>)
    requires
        content@.len() <= i32::MAX,
    ensures
        r@ == font_codepages(content@),
{
    let mut fonts: HashMap<u16, u32> = HashMap::new();
    let start = match find_from(content, "{\\*\\fonttbl", 0) {
        Some(start) => start,
        None => match find_from(content, "{\\fonttbl", 0) {
            Some(start) => start,
            None => {
                return fonts;
            },
        },
    };
    let body = extract_balanced_group_body(content, start);
    let mut depth: i32 = 0;
    let mut id: Option<u16> = None;
    let mut charset: Option<u8> = None;
    let mut codepage: Option<u32> = None;
    let mut p: usize = 0;
    let ghost whole = font_codepages(content@);
    while p < body.len()
        invariant
            p <= body.len() <= i32::MAX,
            -p <= depth <= p,
            whole == font_codepages(content@),
            font_scan(body@, p as int, (FontScan { depth: depth as int, id, charset, codepage, fonts: fonts@ })) == whole,
        decreases body.len() - p,
    {
        let c = body[p];
        if c == '{' {
            depth = depth + 1;
            if depth == 2 {
                id = None;
                charset = None;
                codepage = None;
            }
            p = p + 1;
        } else if c == '}' {
            depth = depth - 1;
            if depth == 1 {
                let chosen: Option<u32> = match charset {
                    Some(value) => fcharset_to_codepage(value),
                    None => codepage,
                };
                if let Some(font) = id {
                    if let Some(value) = chosen {
                        fonts.insert(font, value);
                    }
                }
            }
            p = p + 1;
        } else if c == '\\' && depth >= 2 {
            let (word, param, end) = parse_rtf_control_word(body.as_slice(), p + 1);
            if let Some(value) = param {
                if is_str(word.as_slice(), "f") {
                    id = Some(clamp_u16(value));
                } else if is_str(word.as_slice(), "fcharset") {
                    charset = Some(clamp_u8(value));
                } else if is_str(word.as_slice(), "cpg") && value > 0 {
                    codepage = Some(value as u32);
                }
            }
            p = end;
        } else {
            p = p + 1;
        }
    }
    fonts
}

/// The code page in which hex escapes are decoded: that of the active font, else of the default
/// font, else the declared one, else the Western one. A font without a code page counts as none.
pub open spec fn decode_codepage(
    font_stack: Seq<Option<u16>>,
    default_font: Option<u16>,
    fonts: Map<u16, u32>,
    codepages: Seq<u32>,
) -> u32 {
    let active = if font_stack.len() > 0 && font_stack.last() is Some {
        font_stack.last()
    } else {
        default_font
    };
    if active is Some && fonts.dom().contains(active->0) {
        fonts[active->0]
    } else if codepages.len() > 0 {
        codepages.last()
    } else {
        1252
    }
}

/// The code page in which hex escapes are decoded.
pub fn resolve_decode_codepage(
    font_id_stack: &[Option<u16>],
    default_font_id: Option<u16>,
    font_charsets: &HashMap<u16, u32>,
    ansi_codepage_stack: &[u32],
) -> (r: u32)
    ensures
        r == decode_codepage(font_id_stack@, default_font_id, font_charsets@, ansi_codepage_stack@),
{
    let mut active = default_font_id;
    if font_id_stack.len() > 0 {
        if let Some(id) = font_id_stack[font_id_stack.len() - 1] {
            active = Some(id);
        }
    }
    if let Some(id) = active {
        if let Some(codepage) = font_charsets.get(&id) {
            return *codepage;
        }
    }
    if ansi_codepage_stack.len() > 0 {
        ansi_codepage_stack[ansi_codepage_stack.len() - 1]
    } else {
        1252
    }
}

} // verus!
