//! Control words, hex escapes and code pages.
use crate::encoding;
use crate::encoding::decode_labelled;
use crate::text;
use crate::text::{digits_up_to, letter, skip_digits};
use vstd::prelude::*;
use vstd::slice::slice_subrange;

verus! {

/// The position after a run of letters.
pub open spec fn letters_end(s: Seq<char>, p: int) -> int
    decreases s.len() - p,
{
    if 0 <= p < s.len() && text::is_letter(s[p]) {
        letters_end(s, p + 1)
    } else {
        p
    }
}

/// A control word as it stands after its backslash.
pub struct ControlWord {
    /// Its letters.
    pub word: Seq<char>,
    /// Its numeric parameter; one too large for 32 bits counts as zero.
    pub param: Option<i32>,
    /// The position after it, and after the one space that may end it.
    pub end: int,
}

/// The number that the digits of a parameter stand for.
pub open spec fn param_magnitude(digits: Seq<char>) -> int {
    if text::digits_value(digits) <= i32::MAX {
        text::digits_value(digits) as int
    } else {
        0
    }
}

/// The control word at a position: letters, then an optional signed number, then an optional space.
pub open spec fn control_word_at(s: Seq<char>, p: int) -> ControlWord {
    let letters = letters_end(s, p);
    let negative = letters < s.len() && s[letters] == '-';
    let first_digit = if negative { letters + 1 } else { letters };
    let digits = text::digits_end(s, first_digit);
    ControlWord {
        word: s.subrange(p, letters),
        param: if digits > first_digit {
            let magnitude = param_magnitude(s.subrange(first_digit, digits));
            Some((if negative { -magnitude } else { magnitude }) as i32)
        } else {
            None
        },
        end: if digits < s.len() && s[digits] == ' ' { digits + 1 } else { digits },
    }
}

/// Reads the control word at a position: its letters, its parameter and the position after it.
pub fn parse_rtf_control_word(s: &[char], p: usize) -> (r: (Vec<char>, Option<i32>, usize))
    requires
        p <= s.len(),
    ensures
        r.0@ == control_word_at(s@, p as int).word,
        r.1 == control_word_at(s@, p as int).param,
        r.2 == control_word_at(s@, p as int).end,
        p <= r.2 <= s.len(),
{
    let mut word: Vec<char> = Vec::new();
    let mut i: usize = p;
    while i < s.len() && letter(s[i])
        invariant
            p <= i <= s.len(),
            word@ == s@.subrange(p as int, i as int),
            letters_end(s@, i as int) == letters_end(s@, p as int),
        decreases s.len() - i,
    {
        word.push(s[i]);
        proof {
            assert(word@ =~= s@.subrange(p as int, i + 1));
        }
        i = i + 1;
    }
    let negative = i < s.len() && s[i] == '-';
    if negative {
        i = i + 1;
    }
    let first = i;
    i = skip_digits(s, first);
    let mut param: Option<i32> = None;
    if i > first {
        let magnitude: i32 = match digits_up_to(slice_subrange(s, first, i), 0x7fff_ffff) {
            Some(n) => n as i32,
            None => 0,
        };
        param = Some(if negative { -magnitude } else { magnitude });
    }
    if i < s.len() && s[i] == ' ' {
        i = i + 1;
    }
    (word, param, i)
}

/// The value of a hexadecimal digit given by its ASCII code.
pub open spec fn hex_value(b: u8) -> Option<u8> {
    if 48 <= b <= 57 {
        Some((b - 48) as u8)
    } else if 97 <= b <= 102 {
        Some((b - 87) as u8)
    } else if 65 <= b <= 70 {
        Some((b - 55) as u8)
    } else {
        None
    }
}

/// The byte that two hexadecimal digits stand for.
pub open spec fn hex_byte(h1: u8, h2: u8) -> Option<u8> {
    match (hex_value(h1), hex_value(h2)) {
        (Some(high), Some(low)) => Some((high * 16 + low) as u8),
        _ => None,
    }
}

fn hex_digit(b: u8) -> (r: Option<u8>)
    ensures
        r == hex_value(b),
        r matches Some(v) ==> v < 16,
{
    if 48 <= b && b <= 57 {
        Some(b - 48)
    } else if 97 <= b && b <= 102 {
        Some(b - 87)
    } else if 65 <= b && b <= 70 {
        Some(b - 55)
    } else {
        None
    }
}

/// The byte that two hexadecimal digits stand for.
pub fn parse_hex_byte(h1: u8, h2: u8) -> (r: Option<u8>)
    ensures
        r == hex_byte(h1, h2),
{
    match (hex_digit(h1), hex_digit(h2)) {
        (Some(high), Some(low)) => Some(high * 16 + low),
        _ => None,
    }
}

/// The lowest eight bits of a character's code.
pub open spec fn low_byte(c: char) -> u8 {
    ((c as u32) % 256) as u8
}

/// The lowest eight bits of a character's code.
pub fn char_low_byte(c: char) -> (r: u8)
    ensures
        r == low_byte(c),
{
    let code: u32 = c as u32;
    (code % 256) as u8
}

/// The bytes of the hex escapes that follow one another from a position, and the position after
/// the last of them. Line breaks may stand between two escapes.
pub open spec fn hex_run(s: Seq<char>, p: int) -> (Seq<u8>, int)
    decreases s.len() - p,
{
    match adjacent_escape(s, p) {
        Some((byte, end)) => if p < end {
            let rest = hex_run(s, end);
            (seq![byte] + rest.0, rest.1)
        } else {
            (Seq::empty(), p)
        },
        None => (Seq::empty(), p),
    }
}

/// The position of the first character from a position that is no line break.
pub open spec fn breaks_end(s: Seq<char>, p: int) -> int
    decreases s.len() - p,
{
    if 0 <= p < s.len() && (s[p] == '\r' || s[p] == '\n') {
        breaks_end(s, p + 1)
    } else {
        p
    }
}

/// The hex escape that starts at a position, line breaks before it skipped: its byte and the
/// position after it.
pub open spec fn adjacent_escape(s: Seq<char>, p: int) -> Option<(u8, int)> {
    let q = breaks_end(s, p);
    if q + 4 <= s.len() && s[q] == '\\' && s[q + 1] == '\'' {
        match hex_byte(low_byte(s[q + 2]), low_byte(s[q + 3])) {
            Some(byte) => Some((byte, q + 4)),
            None => None,
        }
    } else {
        None
    }
}

/// Reads the hex escape that follows at a position, if one does.
pub fn consume_adjacent_hex_escape(s: &[char], p: usize) -> (r: Option<(u8, usize)>)
    requires
        p <= s.len(),
    ensures
        match adjacent_escape(s@, p as int) {
            Some((byte, end)) => r == Some((byte, end as usize)) && p < end <= s.len(),
            None => r is None,
        },
{
    let mut q: usize = p;
    while q < s.len() && (s[q] == '\r' || s[q] == '\n')
        invariant
            p <= q <= s.len(),
            breaks_end(s@, q as int) == breaks_end(s@, p as int),
        decreases s.len() - q,
    {
        q = q + 1;
    }
    if s.len() - q < 4 || s[q] != '\\' || s[q + 1] != '\'' {
        return None;
    }
    match parse_hex_byte(char_low_byte(s[q + 2]), char_low_byte(s[q + 3])) {
        Some(byte) => Some((byte, q + 4)),
        None => None,
    }
}

/// Reads the hex escapes that follow one another from a position.
pub fn consume_hex_run(s: &[char], p: usize) -> (r: (Vec<u8>, usize))
    requires
        p <= s.len(),
    ensures
        r.0@ == hex_run(s@, p as int).0,
        r.1 == hex_run(s@, p as int).1,
        p <= r.1 <= s.len(),
        r.0@.len() <= r.1 - p,
{
    let mut bytes: Vec<u8> = Vec::new();
    let mut q: usize = p;
    let ghost whole = hex_run(s@, p as int);
    proof {
        assert(bytes@ + hex_run(s@, q as int).0 =~= whole.0);
    }
    loop
        invariant
            p <= q <= s.len(),
            whole == hex_run(s@, p as int),
            bytes@ + hex_run(s@, q as int).0 == whole.0,
            hex_run(s@, q as int).1 == whole.1,
            bytes@.len() <= q - p,
        decreases s.len() - q,
    {
        match consume_adjacent_hex_escape(s, q) {
            Some((byte, end)) => {
                let ghost before = bytes@;
                bytes.push(byte);
                proof {
                    assert(before + (seq![byte] + hex_run(s@, end as int).0) =~= bytes@ + hex_run(s@, end as int).0);
                }
                q = end;
            },
            None => {
                proof {
                    assert(bytes@ + Seq::<u8>::empty() =~= bytes@);
                }
                return (bytes, q);
            },
        }
    }
}

/// The Windows code page that a font charset stands for; `None` where none is fixed.
pub open spec fn charset_codepage(charset: u8) -> Option<u32> {
    match charset {
        0 => Some(1252),
        77 => Some(10000),
        128 => Some(932),
        129 => Some(949),
        134 => Some(936),
        136 => Some(950),
        161 => Some(1253),
        162 => Some(1254),
        163 => Some(1258),
        177 => Some(1255),
        178 => Some(1256),
        186 => Some(1257),
        204 => Some(1251),
        222 => Some(874),
        238 => Some(1250),
        _ => None,
    }
}

/// The Windows code page that a font charset stands for; `None` where none is fixed.
pub fn fcharset_to_codepage(charset: u8) -> (r: Option<u32>)
    ensures
        r == charset_codepage(charset),
{
    match charset {
        0 => Some(1252),
        77 => Some(10000),
        128 => Some(932),
        129 => Some(949),
        134 => Some(936),
        136 => Some(950),
        161 => Some(1253),
        162 => Some(1254),
        163 => Some(1258),
        177 => Some(1255),
        178 => Some(1256),
        186 => Some(1257),
        204 => Some(1251),
        222 => Some(874),
        238 => Some(1250),
        _ => None,
    }
}

/// The label under which the bytes of a code page are decoded; unknown ones fall back to the
/// Western code page.
pub open spec fn codepage_label(codepage: u32) -> Seq<char> {
    match codepage {
        866 => "ibm866"@,
        874 => "windows-874"@,
        932 => "shift_jis"@,
        936 => "gbk"@,
        949 => "euc-kr"@,
        950 => "big5"@,
        1250 => "windows-1250"@,
        1251 => "windows-1251"@,
        1253 => "windows-1253"@,
        1254 => "windows-1254"@,
        1255 => "windows-1255"@,
        1256 => "windows-1256"@,
        1257 => "windows-1257"@,
        1258 => "windows-1258"@,
        10000 => "macintosh"@,
        65001 => "utf-8"@,
        _ => "windows-1252"@,
    }
}

fn label_of_codepage(codepage: u32) -> (r: &'static str)
    ensures
        r@ == codepage_label(codepage),
{
    match codepage {
        866 => "ibm866",
        874 => "windows-874",
        932 => "shift_jis",
        936 => "gbk",
        949 => "euc-kr",
        950 => "big5",
        1250 => "windows-1250",
        1251 => "windows-1251",
        1253 => "windows-1253",
        1254 => "windows-1254",
        1255 => "windows-1255",
        1256 => "windows-1256",
        1257 => "windows-1257",
        1258 => "windows-1258",
        10000 => "macintosh",
        65001 => "utf-8",
        _ => "windows-1252",
    }
}

/// The text that bytes stand for in a code page.
pub open spec fn ansi_text(bytes: Seq<u8>, codepage: u32) -> Seq<char> {
    match encoding::decoding(codepage_label(codepage), bytes) {
        Some((decoded, _)) => decoded,
        None => Seq::empty(),
    }
}

/// Decodes bytes in a code page; malformed sequences are replaced.
pub fn decode_ansi_bytes(bytes: &[u8], codepage: u32) -> (r: String)
    requires
        bytes@.len() <= usize::MAX / 16,
    ensures
        r@ == ansi_text(bytes@, codepage),
{
    match decode_labelled(label_of_codepage(codepage), bytes) {
        Some((decoded, _)) => decoded,
        None => String::new(),
    }
}

} // verus!
