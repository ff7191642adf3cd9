//! Which languages a text is written in, as the `whatlang` crate detects them.
use crate::json;
use crate::json::is_less;
use crate::lookup;
use crate::lookup::{insert_number, new_lookup, number_of};
use crate::text;
use crate::text::{chars_of, comes_before, is_blank, string_of};
use vstd::prelude::*;
use vstd::slice::slice_subrange;

verus! {

/// How many characters of a text are looked at together where several languages are detected.
pub const CHUNK_SIZE: usize = 200;

/// How many languages there are.
pub const LANGUAGE_COUNT: u8 = 70;

/// Options for language detection.
#[derive(Clone, Copy, Debug)]
pub struct LanguageDetectionConfig {
    /// Whether languages are detected at all.
    pub enabled: bool,
    /// The bits of the double that a confidence has to reach.
    pub min_confidence: u64,
    /// Whether to look for several languages.
    pub detect_multiple: bool,
}

/// The language of a text.
#[derive(Clone, Debug)]
pub struct Detection {
    /// The number of the language.
    pub language: u8,
    /// The name of the script.
    pub script: String,
    /// The bits of the double that says how sure the detection is.
    pub confidence: u64,
    /// Whether the detection is reliable.
    pub reliable: bool,
}

/// A detection, with its text as a sequence.
pub open spec fn told(d: Option<Detection>) -> Option<(u8, Seq<char>, u64, bool)> {
    match d {
        Some(d) => Some((d.language, d.script@, d.confidence, d.reliable)),
        None => None,
    }
}

/// The detections of several texts, with their texts as sequences.
pub open spec fn all_told(v: Seq<Option<Detection>>) -> Seq<Option<(u8, Seq<char>, u64, bool)>> {
    v.map_values(|d: Option<Detection>| told(d))
}

/// The language of a text: its number, the name of its script, the bits of the confidence, and
/// whether the detection is reliable.
pub uninterp spec fn language_of(text: Seq<char>) -> Option<(u8, Seq<char>, u64, bool)>;

/// `whatlang::detect` gives the language of a text, or nothing where the text has no characters of a
/// known script. The languages are numbered from zero on, in the order of the variants of
/// `whatlang::Lang`.
#[verifier::external_body]
pub(crate) fn detect(t: &str) -> (r: Option<Detection>)
    ensures
        told(r) == language_of(t@),
        r matches Some(d) ==> d.language < LANGUAGE_COUNT,
{
    whatlang::detect(t).map(
        |info| Detection {
            language: info.lang() as u8,
            script: info.script().name().to_string(),
            confidence: info.confidence().to_bits(),
            reliable: info.is_reliable(),
        },
    )
}

/// The ISO 639-3 code of a language.
pub open spec fn iso_code(language: u8) -> Seq<char> {
    match language {
        0u8 => "epo"@,
        1u8 => "eng"@,
        2u8 => "rus"@,
        3u8 => "cmn"@,
        4u8 => "spa"@,
        5u8 => "por"@,
        6u8 => "ita"@,
        7u8 => "ben"@,
        8u8 => "fra"@,
        9u8 => "deu"@,
        10u8 => "ukr"@,
        11u8 => "kat"@,
        12u8 => "ara"@,
        13u8 => "hin"@,
        14u8 => "jpn"@,
        15u8 => "heb"@,
        16u8 => "yid"@,
        17u8 => "pol"@,
        18u8 => "amh"@,
        19u8 => "jav"@,
        20u8 => "kor"@,
        21u8 => "nob"@,
        22u8 => "dan"@,
        23u8 => "swe"@,
        24u8 => "fin"@,
        25u8 => "tur"@,
        26u8 => "nld"@,
        27u8 => "hun"@,
        28u8 => "ces"@,
        29u8 => "ell"@,
        30u8 => "bul"@,
        31u8 => "bel"@,
        32u8 => "mar"@,
        33u8 => "kan"@,
        34u8 => "ron"@,
        35u8 => "slv"@,
        36u8 => "hrv"@,
        37u8 => "srp"@,
        38u8 => "mkd"@,
        39u8 => "lit"@,
        40u8 => "lav"@,
        41u8 => "est"@,
        42u8 => "tam"@,
        43u8 => "vie"@,
        44u8 => "urd"@,
        45u8 => "tha"@,
        46u8 => "guj"@,
        47u8 => "uzb"@,
        48u8 => "pan"@,
        49u8 => "aze"@,
        50u8 => "ind"@,
        51u8 => "tel"@,
        52u8 => "pes"@,
        53u8 => "mal"@,
        54u8 => "ori"@,
        55u8 => "mya"@,
        56u8 => "nep"@,
        57u8 => "sin"@,
        58u8 => "khm"@,
        59u8 => "tuk"@,
        60u8 => "aka"@,
        61u8 => "zul"@,
        62u8 => "sna"@,
        63u8 => "afr"@,
        64u8 => "lat"@,
        65u8 => "slk"@,
        66u8 => "cat"@,
        67u8 => "tgl"@,
        68u8 => "hye"@,
        69u8 => "cym"@,
        _ => Seq::empty(),
    }
}

/// The ISO 639-3 code of a language.
pub fn lang_to_iso639_3(language: u8) -> (r: String)
    requires
        language < LANGUAGE_COUNT,
    ensures
        r@ == iso_code(language),
{
    let code: &str = match language {
        0 => "epo",
        1 => "eng",
        2 => "rus",
        3 => "cmn",
        4 => "spa",
        5 => "por",
        6 => "ita",
        7 => "ben",
        8 => "fra",
        9 => "deu",
        10 => "ukr",
        11 => "kat",
        12 => "ara",
        13 => "hin",
        14 => "jpn",
        15 => "heb",
        16 => "yid",
        17 => "pol",
        18 => "amh",
        19 => "jav",
        20 => "kor",
        21 => "nob",
        22 => "dan",
        23 => "swe",
        24 => "fin",
        25 => "tur",
        26 => "nld",
        27 => "hun",
        28 => "ces",
        29 => "ell",
        30 => "bul",
        31 => "bel",
        32 => "mar",
        33 => "kan",
        34 => "ron",
        35 => "slv",
        36 => "hrv",
        37 => "srp",
        38 => "mkd",
        39 => "lit",
        40 => "lav",
        41 => "est",
        42 => "tam",
        43 => "vie",
        44 => "urd",
        45 => "tha",
        46 => "guj",
        47 => "uzb",
        48 => "pan",
        49 => "aze",
        50 => "ind",
        51 => "tel",
        52 => "pes",
        53 => "mal",
        54 => "ori",
        55 => "mya",
        56 => "nep",
        57 => "sin",
        58 => "khm",
        59 => "tuk",
        60 => "aka",
        61 => "zul",
        62 => "sna",
        63 => "afr",
        64 => "lat",
        65 => "slk",
        66 => "cat",
        67 => "tgl",
        68 => "hye",
        69 => "cym",
        _ => "",
    };
    code.to_owned()
}

/// Whether bits are those of a NaN.
pub open spec fn is_nan(bits: u64) -> bool {
    bits % 0x8000_0000_0000_0000 > 0x7ff0_0000_0000_0000
}

/// Whether a confidence reaches a threshold.
pub open spec fn reaches(confidence: u64, threshold: u64) -> bool {
    !is_nan(confidence) && !is_nan(threshold) && json::order_of(confidence) >= json::order_of(threshold)
}

/// Whether a confidence reaches a threshold.
fn at_least(confidence: u64, threshold: u64) -> (r: bool)
    ensures
        r == reaches(confidence, threshold),
{
    confidence % 0x8000_0000_0000_0000 <= 0x7ff0_0000_0000_0000 && threshold % 0x8000_0000_0000_0000
        <= 0x7ff0_0000_0000_0000 && !is_less(confidence, threshold)
}

/// One language of a text.
#[derive(Clone, Debug)]
pub struct LanguageShare {
    /// Its ISO 639-3 code.
    pub language: String,
    /// The confidences of the chunks that are written in it, as bits of doubles, in the order of the
    /// chunks.
    pub confidences: Vec<u64>,
    /// The script of the last of those chunks.
    pub script: String,
}

/// One language of a text, with its texts as sequences.
#[verifier::ext_equal]
pub struct Share {
    /// Its ISO 639-3 code.
    pub language: Seq<char>,
    /// The confidences of the chunks that are written in it.
    pub confidences: Seq<u64>,
    /// The script of the last of those chunks.
    pub script: Seq<char>,
}

impl View for LanguageShare {
    type V = Share;

    open spec fn view(&self) -> Share {
        Share { language: self.language@, confidences: self.confidences@, script: self.script@ }
    }
}

/// Languages, with their texts as sequences.
pub open spec fn shares(v: Seq<LanguageShare>) -> Seq<Share> {
    v.map_values(|s: LanguageShare| s@)
}

/// Where a language stands among languages.
pub open spec fn index_of_language(list: Seq<Share>, language: Seq<char>) -> Option<int>
    decreases list.len(),
{
    if list.len() == 0 {
        None
    } else if list.last().language == language {
        Some(list.len() - 1)
    } else {
        index_of_language(list.drop_last(), language)
    }
}

/// Languages with one more chunk.
pub open spec fn with_chunk(list: Seq<Share>, d: (u8, Seq<char>, u64, bool)) -> Seq<Share> {
    let code = iso_code(d.0);
    match index_of_language(list, code) {
        Some(i) => list.update(
            i,
            Share { language: code, confidences: list[i].confidences.push(d.2), script: d.1 },
        ),
        None => list.push(Share { language: code, confidences: seq![d.2], script: d.1 }),
    }
}

/// The languages of chunks, in the order in which they come up; a chunk counts where its confidence
/// reaches a threshold.
pub open spec fn languages_of(chunks: Seq<Option<(u8, Seq<char>, u64, bool)>>, threshold: u64) -> Seq<Share>
    decreases chunks.len(),
{
    if chunks.len() == 0 {
        Seq::empty()
    } else {
        let before = languages_of(chunks.drop_last(), threshold);
        match chunks.last() {
            Some(d) => if reaches(d.2, threshold) {
                with_chunk(before, d)
            } else {
                before
            },
            None => before,
        }
    }
}

/// Whether a language comes before another: it has more chunks, or as many and the smaller code.
pub open spec fn precedes(a: Share, b: Share) -> bool {
    a.confidences.len() > b.confidences.len() || (a.confidences.len() == b.confidences.len() && text::text_before(
        a.language,
        b.language,
    ))
}

/// A language put where it belongs in a list.
pub open spec fn put(list: Seq<Share>, share: Share) -> Seq<Share>
    decreases list.len(),
{
    if list.len() == 0 || !precedes(share, list.last()) {
        list.push(share)
    } else {
        put(list.drop_last(), share).push(list.last())
    }
}

/// Languages in their order.
pub open spec fn arranged(list: Seq<Share>) -> Seq<Share>
    decreases list.len(),
{
    if list.len() == 0 {
        Seq::empty()
    } else {
        put(arranged(list.drop_last()), list.last())
    }
}

/// A language found at a position stands there, and nowhere after it.
proof fn lemma_index_of_language(list: Seq<Share>, language: Seq<char>)
    ensures
        match index_of_language(list, language) {
            Some(i) => 0 <= i < list.len() && list[i].language == language,
            None => forall|i: int| 0 <= i < list.len() ==> list[i].language != language,
        },
    decreases list.len(),
{
    if list.len() > 0 {
        lemma_index_of_language(list.drop_last(), language);
        if list.last().language != language && index_of_language(list, language) is None {
            assert forall|i: int| 0 <= i < list.len() implies list[i].language != language by {
                if i < list.len() - 1 {
                    assert(list.drop_last()[i] == list[i]);
                }
            }
        }
    }
}

/// Whether a lookup holds the positions of the languages of a list, each of which is in it once.
spec fn keeps_positions(entries: Map<Seq<char>, u32>, list: Seq<Share>) -> bool {
    &&& forall|i: int|
        0 <= i < list.len() ==> entries.dom().contains(#[trigger] list[i].language) && entries[list[i].language] == i
    &&& forall|code: Seq<char>|
        #[trigger] entries.dom().contains(code) ==> (0 <= entries[code] < list.len()
            && list[entries[code] as int].language == code)
}

/// With such a lookup, the position of a language is the number that it is given.
proof fn lemma_position_is_number(entries: Map<Seq<char>, u32>, list: Seq<Share>, code: Seq<char>)
    requires
        keeps_positions(entries, list),
    ensures
        index_of_language(list, code) == if entries.dom().contains(code) {
            Some(entries[code] as int)
        } else {
            None
        },
{
    lemma_index_of_language(list, code);
    match index_of_language(list, code) {
        Some(i) => {
            assert(entries.dom().contains(list[i].language));
        },
        None => {
            if entries.dom().contains(code) {
                assert(list[entries[code] as int].language == code);
            }
        },
    }
}

/// The codes of the languages with a number below one.
pub open spec fn codes_below(n: nat) -> Set<Seq<char>>
    decreases n,
{
    if n == 0 {
        Set::empty()
    } else {
        codes_below((n - 1) as nat).insert(iso_code((n - 1) as u8))
    }
}

/// There are at most as many codes as numbers.
proof fn lemma_codes_below(n: nat)
    requires
        n <= LANGUAGE_COUNT,
    ensures
        codes_below(n).finite(),
        codes_below(n).len() <= n,
        forall|k: u8| k < n ==> #[trigger] codes_below(n).contains(iso_code(k)),
    decreases n,
{
    if n > 0 {
        lemma_codes_below((n - 1) as nat);
    }
}

/// Where each language is in a list once, the list is no longer than there are languages.
proof fn lemma_few_languages(entries: Map<Seq<char>, u32>, list: Seq<Share>)
    requires
        keeps_positions(entries, list),
        forall|i: int| 0 <= i < list.len() ==> codes_below(LANGUAGE_COUNT as nat).contains(#[trigger] list[i].language),
    ensures
        list.len() <= LANGUAGE_COUNT,
{
    let codes = list.map_values(|s: Share| s.language);
    assert(codes.no_duplicates()) by {
        assert forall|i: int, j: int| 0 <= i < codes.len() && 0 <= j < codes.len() && i != j implies codes[i]
            != codes[j] by {
            assert(entries[list[i].language] == i);
            assert(entries[list[j].language] == j);
        }
    }
    codes.unique_seq_to_set();
    lemma_codes_below(LANGUAGE_COUNT as nat);
    assert(codes.to_set().subset_of(codes_below(LANGUAGE_COUNT as nat))) by {
        assert forall|c: Seq<char>| codes.to_set().contains(c) implies codes_below(LANGUAGE_COUNT as nat).contains(c) by {
            let i = choose|i: int| 0 <= i < codes.len() && codes[i] == c;
            assert(codes_below(LANGUAGE_COUNT as nat).contains(list[i].language));
        }
    }
    vstd::set_lib::lemma_len_subset(codes.to_set(), codes_below(LANGUAGE_COUNT as nat));
}

/// The languages of chunks, in the order in which they come up.
fn gather_languages(chunks: &[Option<Detection>], threshold: u64) -> (r: Vec<LanguageShare>)
    requires
        forall|i: int| 0 <= i < chunks@.len() ==> (#[trigger] chunks@[i] matches Some(d) ==> d.language < LANGUAGE_COUNT),
    ensures
        shares(r@) == languages_of(all_told(chunks@), threshold),
{
    let ghost all = all_told(chunks@);
    let mut list: Vec<LanguageShare> = Vec::new();
    let mut positions = new_lookup();
    let mut i: usize = 0;
    assert(shares(list@) =~= Seq::<Share>::empty());
    while i < chunks.len()
        invariant
            i <= chunks.len(),
            forall|k: int|
                0 <= k < chunks@.len() ==> (#[trigger] chunks@[k] matches Some(d) ==> d.language < LANGUAGE_COUNT),
            all == all_told(chunks@),
            forall|k: int|
                0 <= k < list@.len() ==> codes_below(LANGUAGE_COUNT as nat).contains(#[trigger] shares(list@)[k].language),
            shares(list@) == languages_of(all.take(i as int), threshold),
            keeps_positions(lookup::entries(positions), shares(list@)),
        decreases chunks.len() - i,
    {
        proof {
            assert(all.take(i + 1).drop_last() =~= all.take(i as int));
            assert(all.take(i + 1).last() == told(chunks@[i as int]));
        }
        if let Some(d) = &chunks[i] {
            if at_least(d.confidence, threshold) {
                let ghost before = shares(list@);
                let code = lang_to_iso639_3(d.language);
                proof {
                    lemma_few_languages(lookup::entries(positions), before);
                    lemma_codes_below(LANGUAGE_COUNT as nat);
                    assert(codes_below(LANGUAGE_COUNT as nat).contains(iso_code(d.language)));
                    lemma_position_is_number(lookup::entries(positions), before, code@);
                }
                match number_of(&positions, code.as_str()) {
                    Some(at) => {
                        let at: usize = at as usize;
                        assert(before[at as int] == list@[at as int]@);
                        list[at].confidences.push(d.confidence);
                        list[at].script = d.script.as_str().to_owned();
                        assert(shares(list@) =~= with_chunk(before, told(chunks@[i as int])->0));
                        assert forall|k: int| 0 <= k < list@.len() implies codes_below(LANGUAGE_COUNT as nat).contains(
                            #[trigger] shares(list@)[k].language,
                        ) by {
                            if k < before.len() {
                                assert(shares(list@)[k].language == before[k].language);
                            }
                        }
                        assert(keeps_positions(lookup::entries(positions), shares(list@))) by {
                            assert forall|k: int| 0 <= k < list@.len() implies lookup::entries(
                                positions,
                            ).dom().contains(#[trigger] shares(list@)[k].language) && lookup::entries(
                                positions,
                            )[shares(list@)[k].language] == k by {
                                assert(shares(list@)[k].language == before[k].language);
                            }
                        }
                    },
                    None => {
                        let mut confidences: Vec<u64> = Vec::new();
                        confidences.push(d.confidence);
                        let number = list.len() as u32;
                        insert_number(&mut positions, code.as_str().to_owned(), number);
                        list.push(LanguageShare { language: code, confidences, script: d.script.as_str().to_owned() });
                        assert(confidences@ =~= seq![d.confidence]);
                        assert(shares(list@) =~= with_chunk(before, told(chunks@[i as int])->0));
                        assert forall|k: int| 0 <= k < list@.len() implies codes_below(LANGUAGE_COUNT as nat).contains(
                            #[trigger] shares(list@)[k].language,
                        ) by {
                            if k < before.len() {
                                assert(shares(list@)[k].language == before[k].language);
                            }
                        }
                        assert(keeps_positions(lookup::entries(positions), shares(list@))) by {
                            assert forall|k: int| 0 <= k < list@.len() implies lookup::entries(
                                positions,
                            ).dom().contains(#[trigger] shares(list@)[k].language) && lookup::entries(
                                positions,
                            )[shares(list@)[k].language] == k by {
                                if k < before.len() {
                                    assert(shares(list@)[k] == before[k]);
                                    assert(before[k].language != code@) by {
                                        lemma_index_of_language(before, code@);
                                    }
                                }
                            }
                            assert forall|c: Seq<char>| #[trigger]
                                lookup::entries(positions).dom().contains(c) implies (0 <= lookup::entries(
                                positions,
                            )[c] < list@.len() && shares(list@)[lookup::entries(positions)[c] as int].language == c) by {
                                if c != code@ {
                                    let at = lookup::entries(positions)[c] as int;
                                    assert(shares(list@)[at] == before[at]);
                                }
                            }
                        }
                    },
                }
            }
        }
        i += 1;
    }
    assert(all.take(all.len() as int) =~= all);
    list
}

/// Whether a language comes before another.
fn is_before(a: &LanguageShare, b: &LanguageShare) -> (r: bool)
    ensures
        r == precedes(a@, b@),
{
    a.confidences.len() > b.confidences.len() || (a.confidences.len() == b.confidences.len() && comes_before(
        chars_of(a.language.as_str()).as_slice(),
        chars_of(b.language.as_str()).as_slice(),
    ))
}

/// Puts a language where it belongs in a list.
fn put_share(list: &mut Vec<LanguageShare>, share: LanguageShare)
    ensures
        shares(final(list)@) == put(shares(old(list)@), share@),
{
    let ghost all = shares(list@);
    let mut at: usize = list.len();
    assert(all.take(at as int) =~= all);
    assert(all.skip(at as int) =~= Seq::<Share>::empty());
    while at > 0 && is_before(&share, &list[at - 1])
        invariant
            at <= list.len(),
            all == shares(list@),
            put(all, share@) == put(all.take(at as int), share@) + all.skip(at as int),
        decreases at,
    {
        proof {
            let head = all.take(at as int);
            assert(head.drop_last() =~= all.take(at - 1));
            assert(head.last() == list@[at - 1]@);
            assert(put(all.take(at - 1), share@).push(head.last()) + all.skip(at as int) =~= put(
                all.take(at - 1),
                share@,
            ) + all.skip(at - 1));
        }
        at -= 1;
    }
    proof {
        if at > 0 {
            assert(all.take(at as int).last() == list@[at - 1]@);
        }
        assert(put(all, share@) =~= all.take(at as int).push(share@) + all.skip(at as int));
    }
    list.insert(at, share);
    assert(shares(list@) =~= put(all, share@));
}

/// The languages of chunks, by the number of chunks that are written in them, then by their codes.
pub fn arrange_languages(chunks: &[Option<Detection>], threshold: u64) -> (r: Vec<LanguageShare>)
    requires
        forall|i: int| 0 <= i < chunks@.len() ==> (#[trigger] chunks@[i] matches Some(d) ==> d.language < LANGUAGE_COUNT),
    ensures
        shares(r@) == arranged(languages_of(all_told(chunks@), threshold)),
{
    let mut rest = gather_languages(chunks, threshold);
    let ghost all = shares(rest@);
    let mut list: Vec<LanguageShare> = Vec::new();
    let ghost mut taken: int = 0;
    assert(shares(list@) =~= Seq::<Share>::empty());
    assert(all.take(0) =~= Seq::<Share>::empty());
    while rest.len() > 0
        invariant
            0 <= taken <= all.len(),
            shares(rest@) =~= all.skip(taken),
            shares(list@) == arranged(all.take(taken)),
        decreases rest.len(),
    {
        let ghost before = shares(rest@);
        assert(before.len() == rest@.len());
        let share = rest.remove(0);
        proof {
            assert(before[0] == share@);
            assert(before[0] == all[taken]);
            assert(all.take(taken + 1).drop_last() =~= all.take(taken));
            assert(shares(rest@) =~= before.skip(1));
            taken = taken + 1;
        }
        put_share(&mut list, share);
    }
    assert(all.take(all.len() as int) =~= all);
    list
}

/// Whether no language of a list comes before one that stands ahead of it.
pub open spec fn in_order(list: Seq<Share>) -> bool {
    forall|i: int, j: int| 0 <= i < j < list.len() ==> !precedes(#[trigger] list[j], #[trigger] list[i])
}

/// Of three texts the first does not come before the last if neither neighbour comes before the next.
proof fn lemma_not_before(a: Seq<char>, b: Seq<char>, c: Seq<char>)
    requires
        !text::text_before(a, b),
        !text::text_before(b, c),
    ensures
        !text::text_before(a, c),
    decreases a.len(),
{
    if a.len() > 0 && b.len() > 0 && c.len() > 0 {
        if a[0] == b[0] && b[0] == c[0] {
            lemma_not_before(a.skip(1), b.skip(1), c.skip(1));
        }
    }
}

/// Two texts do not come before each other.
proof fn lemma_before_one_way(a: Seq<char>, b: Seq<char>)
    requires
        text::text_before(a, b),
    ensures
        !text::text_before(b, a),
    decreases a.len(),
{
    if a.len() > 0 && b.len() > 0 && a[0] == b[0] {
        lemma_before_one_way(a.skip(1), b.skip(1));
    }
}

/// Of three languages the first does not come before the last if neither neighbour comes before the
/// next.
proof fn lemma_not_preceding(a: Share, b: Share, c: Share)
    requires
        !precedes(a, b),
        !precedes(b, c),
    ensures
        !precedes(a, c),
{
    if a.confidences.len() == b.confidences.len() && b.confidences.len() == c.confidences.len() {
        lemma_not_before(a.language, b.language, c.language);
    }
}

/// Putting a language where it belongs keeps a list in order, and adds nothing but the language.
proof fn lemma_put(list: Seq<Share>, share: Share)
    requires
        in_order(list),
    ensures
        in_order(put(list, share)),
        put(list, share).len() == list.len() + 1,
        put(list, share).to_multiset() == list.to_multiset().insert(share),
        forall|k: int|
            0 <= k <= list.len() ==> #[trigger] put(list, share)[k] == share || list.contains(put(list, share)[k]),
    decreases list.len(),
{
    broadcast use vstd::seq_lib::group_to_multiset_ensures;

    let all = put(list, share);
    if list.len() == 0 || !precedes(share, list.last()) {
        assert forall|i: int, j: int| 0 <= i < j < all.len() implies !precedes(#[trigger] all[j], #[trigger] all[i]) by {
            if j == list.len() {
                if i < list.len() - 1 {
                    assert(!precedes(list[list.len() - 1], list[i]));
                    lemma_not_preceding(share, list.last(), list[i]);
                }
            } else {
                assert(!precedes(list[j], list[i]));
            }
        }
        assert forall|k: int| 0 <= k <= list.len() implies #[trigger] all[k] == share || list.contains(all[k]) by {
            if k < list.len() {
                assert(list.contains(list[k]));
            }
        }
    } else {
        let head = list.drop_last();
        let last = list.last();
        assert(in_order(head)) by {
            assert forall|i: int, j: int| 0 <= i < j < head.len() implies !precedes(#[trigger] head[j], #[trigger] head[i]) by {
                assert(!precedes(list[j], list[i]));
            }
        }
        lemma_put(head, share);
        let start = put(head, share);
        assert forall|i: int, j: int| 0 <= i < j < all.len() implies !precedes(#[trigger] all[j], #[trigger] all[i]) by {
            if j < start.len() {
                assert(!precedes(start[j], start[i]));
            } else if start[i] == share {
                if share.confidences.len() == last.confidences.len() {
                    lemma_before_one_way(share.language, last.language);
                }
            } else {
                let k = head.index_of(start[i]);
                assert(head.contains(start[i]));
                assert(list[k] == start[i]);
                assert(!precedes(list[list.len() - 1], list[k]));
            }
        }
        assert forall|k: int| 0 <= k <= list.len() implies #[trigger] all[k] == share || list.contains(all[k]) by {
            if k < start.len() {
                if start[k] != share {
                    let at = head.index_of(start[k]);
                    assert(head.contains(start[k]));
                    assert(list[at] == start[k]);
                }
            } else {
                assert(list[list.len() - 1] == all[k]);
            }
        }
        assert(list =~= head.push(last));
        assert(head.to_multiset().insert(share).insert(last) =~= head.to_multiset().insert(last).insert(share));
    }
}

/// Languages come by the number of chunks that are written in them, then by their codes, and
/// arranging them neither adds nor loses one.
pub proof fn law_languages_come_by_share(list: Seq<Share>)
    ensures
        in_order(arranged(list)),
        arranged(list).to_multiset() == list.to_multiset(),
    decreases list.len(),
{
    broadcast use vstd::seq_lib::group_to_multiset_ensures;

    if list.len() > 0 {
        law_languages_come_by_share(list.drop_last());
        lemma_put(arranged(list.drop_last()), list.last());
        assert(list =~= list.drop_last().push(list.last()));
    }
}

/// How many of a list's chunks are written in a language.
pub open spec fn chunks_in(list: Seq<Share>) -> nat
    decreases list.len(),
{
    if list.len() == 0 {
        0
    } else {
        chunks_in(list.drop_last()) + list.last().confidences.len()
    }
}

/// How many chunks have a confidence that reaches a threshold.
pub open spec fn confident_chunks(chunks: Seq<Option<(u8, Seq<char>, u64, bool)>>, threshold: u64) -> nat
    decreases chunks.len(),
{
    if chunks.len() == 0 {
        0
    } else {
        confident_chunks(chunks.drop_last(), threshold) + match chunks.last() {
            Some(d) => if reaches(d.2, threshold) {
                1nat
            } else {
                0nat
            },
            None => 0nat,
        }
    }
}

/// One more chunk in a language is one more chunk altogether.
proof fn lemma_chunks_in_update(list: Seq<Share>, i: int, share: Share)
    requires
        0 <= i < list.len(),
        share.confidences.len() == list[i].confidences.len() + 1,
    ensures
        chunks_in(list.update(i, share)) == chunks_in(list) + 1,
    decreases list.len(),
{
    if i < list.len() - 1 {
        lemma_chunks_in_update(list.drop_last(), i, share);
        assert(list.update(i, share).drop_last() =~= list.drop_last().update(i, share));
    } else {
        assert(list.update(i, share).drop_last() =~= list.drop_last());
    }
}

/// Every chunk with a sufficient confidence counts for one language, and no other chunk does.
pub proof fn law_every_confident_chunk_counts_once(chunks: Seq<Option<(u8, Seq<char>, u64, bool)>>, threshold: u64)
    ensures
        chunks_in(languages_of(chunks, threshold)) == confident_chunks(chunks, threshold),
    decreases chunks.len(),
{
    if chunks.len() > 0 {
        law_every_confident_chunk_counts_once(chunks.drop_last(), threshold);
        let before = languages_of(chunks.drop_last(), threshold);
        if let Some(d) = chunks.last() {
            if reaches(d.2, threshold) {
                lemma_index_of_language(before, iso_code(d.0));
                match index_of_language(before, iso_code(d.0)) {
                    Some(i) => {
                        lemma_chunks_in_update(
                            before,
                            i,
                            Share {
                                language: iso_code(d.0),
                                confidences: before[i].confidences.push(d.2),
                                script: d.1,
                            },
                        );
                    },
                    None => {
                        let more = with_chunk(before, d);
                        assert(more.drop_last() =~= before);
                    },
                }
            }
        }
    }
}

/// A text in chunks of a number of characters; the last chunk may be shorter.
pub open spec fn chunked(s: Seq<char>, size: nat) -> Seq<Seq<char>>
    decreases s.len(),
{
    if s.len() == 0 || size == 0 {
        Seq::empty()
    } else if s.len() <= size {
        seq![s]
    } else {
        seq![s.take(size as int)] + chunked(s.skip(size as int), size)
    }
}

/// The languages of texts.
pub open spec fn detected(parts: Seq<Seq<char>>) -> Seq<Option<(u8, Seq<char>, u64, bool)>> {
    parts.map_values(|part: Seq<char>| language_of(part))
}

/// Detects the languages of the chunks of a text.
fn detect_chunks(chars: &[char]) -> (r: Vec<Option<Detection>>)
    ensures
        all_told(r@) == detected(chunked(chars@, CHUNK_SIZE as nat)),
        forall|i: int| 0 <= i < r@.len() ==> (#[trigger] r@[i] matches Some(d) ==> d.language < LANGUAGE_COUNT),
{
    let ghost wanted = detected(chunked(chars@, CHUNK_SIZE as nat));
    let mut found: Vec<Option<Detection>> = Vec::new();
    let mut at: usize = 0;
    let n = chars.len();
    assert(chars@.skip(0) =~= chars@);
    assert(all_told(found@) + wanted =~= wanted);
    while at < n
        invariant
            at <= n,
            n == chars@.len(),
            wanted == detected(chunked(chars@, CHUNK_SIZE as nat)),
            all_told(found@) + detected(chunked(chars@.skip(at as int), CHUNK_SIZE as nat)) == wanted,
            forall|i: int|
                0 <= i < found@.len() ==> (#[trigger] found@[i] matches Some(d) ==> d.language < LANGUAGE_COUNT),
        decreases n - at,
    {
        let end: usize = if n - at > CHUNK_SIZE {
            at + CHUNK_SIZE
        } else {
            n
        };
        let ghost rest = chars@.skip(at as int);
        let ghost before = found@;
        let part = string_of(slice_subrange(chars, at, end));
        let one = detect(part.as_str());
        found.push(one);
        proof {
            assert(part@ =~= rest.take(end - at));
            assert(chars@.skip(end as int) =~= rest.skip(end - at));
            assert(all_told(found@) =~= all_told(before).push(language_of(part@)));
            assert(rest.len() <= CHUNK_SIZE ==> rest.take(end - at) =~= rest);
            assert(chunked(rest, CHUNK_SIZE as nat) =~= seq![part@] + chunked(
                chars@.skip(end as int),
                CHUNK_SIZE as nat,
            ));
            assert(detected(chunked(rest, CHUNK_SIZE as nat)) =~= seq![language_of(part@)] + detected(
                chunked(chars@.skip(end as int), CHUNK_SIZE as nat),
            ));
            assert(all_told(found@) + detected(chunked(chars@.skip(end as int), CHUNK_SIZE as nat)) =~= all_told(
                before,
            ) + detected(chunked(rest, CHUNK_SIZE as nat)));
        }
        at = end;
    }
    assert(chunked(chars@.skip(n as int), CHUNK_SIZE as nat) =~= Seq::<Seq<char>>::empty());
    assert(all_told(found@) =~= wanted);
    found
}

/// The languages of a text.
#[derive(Clone, Debug)]
pub struct DetectedLanguages {
    /// The languages.
    pub languages: Vec<LanguageShare>,
    /// How many chunks were looked at.
    pub chunks: usize,
    /// Whether the detection is reliable, where the text was looked at as a whole.
    pub reliable: Option<bool>,
}

/// The languages of a text, with their texts as sequences.
pub open spec fn languages_told(d: Option<DetectedLanguages>) -> Option<(Seq<Share>, nat, Option<bool>)> {
    match d {
        Some(d) => Some((shares(d.languages@), d.chunks as nat, d.reliable)),
        None => None,
    }
}

/// The language of a text that is looked at as a whole, where its confidence reaches a threshold.
pub open spec fn only_language(whole: Option<(u8, Seq<char>, u64, bool)>, threshold: u64) -> Option<
    (Seq<Share>, nat, Option<bool>),
> {
    match whole {
        Some(d) => if reaches(d.2, threshold) {
            Some((seq![Share { language: iso_code(d.0), confidences: seq![d.2], script: d.1 }], 1, Some(d.3)))
        } else {
            None
        },
        None => None,
    }
}

/// The language of a text that is looked at as a whole, where its confidence reaches a threshold.
pub fn single_language(whole: Option<Detection>, threshold: u64) -> (r: Option<DetectedLanguages>)
    requires
        whole matches Some(d) ==> d.language < LANGUAGE_COUNT,
    ensures
        languages_told(r) == only_language(told(whole), threshold),
{
    let d = match whole {
        None => return None,
        Some(d) => d,
    };
    if !at_least(d.confidence, threshold) {
        return None;
    }
    let mut confidences: Vec<u64> = Vec::new();
    confidences.push(d.confidence);
    let mut languages: Vec<LanguageShare> = Vec::new();
    languages.push(LanguageShare { language: lang_to_iso639_3(d.language), confidences, script: d.script });
    proof {
        assert(confidences@ =~= seq![d.confidence]);
        assert(shares(languages@) =~= seq![
            Share { language: iso_code(d.language), confidences: seq![d.confidence], script: d.script@ },
        ]);
    }
    Some(DetectedLanguages { languages, chunks: 1, reliable: Some(d.reliable) })
}

/// The languages of a text.
pub open spec fn languages_in(t: Seq<char>, config: LanguageDetectionConfig) -> Option<
    (Seq<Share>, nat, Option<bool>),
> {
    if !config.enabled || text::trimmed(t).len() == 0 {
        None
    } else {
        let parts = detected(chunked(t, CHUNK_SIZE as nat));
        let several = languages_of(parts, config.min_confidence);
        if config.detect_multiple && several.len() > 0 {
            Some((arranged(several), parts.len(), None))
        } else {
            only_language(language_of(t), config.min_confidence)
        }
    }
}

/// Detects the languages of a text: none where detection is off, the text is blank or no detection is
/// sure enough; several, by their shares, where several are asked for; otherwise the one that the
/// text is written in.
pub fn detect_language_details(t: &str, config: &LanguageDetectionConfig) -> (r: Option<DetectedLanguages>)
    ensures
        languages_told(r) == languages_in(t@, *config),
{
    if !config.enabled || is_blank(t) {
        return None;
    }
    if config.detect_multiple {
        let chars = chars_of(t);
        let found = detect_chunks(chars.as_slice());
        let languages = arrange_languages(found.as_slice(), config.min_confidence);
        proof {
            law_languages_come_by_share(languages_of(all_told(found@), config.min_confidence));
            lemma_arranged_len(languages_of(all_told(found@), config.min_confidence));
        }
        if languages.len() > 0 {
            return Some(DetectedLanguages { languages, chunks: found.len(), reliable: None });
        }
    }
    single_language(detect(t), config.min_confidence)
}

/// Arranging languages keeps their number.
proof fn lemma_arranged_len(list: Seq<Share>)
    ensures
        arranged(list).len() == list.len(),
    decreases list.len(),
{
    if list.len() > 0 {
        lemma_arranged_len(list.drop_last());
        law_languages_come_by_share(list.drop_last());
        lemma_put(arranged(list.drop_last()), list.last());
    }
}

/// The codes of languages.
pub open spec fn codes(list: Seq<Share>) -> Seq<Seq<char>> {
    list.map_values(|s: Share| s.language)
}

/// Detects the languages of a text, and gives their codes alone.
pub fn detect_languages(t: &str, config: &LanguageDetectionConfig) -> (r: Option<Vec<String>>)
    ensures
        match languages_in(t@, *config) {
            Some(found) => r matches Some(list) && text::strings(list@) == codes(found.0),
            None => r is None,
        },
{
    match detect_language_details(t, config) {
        None => None,
        Some(details) => {
            let mut list: Vec<String> = Vec::new();
            let mut i: usize = 0;
            while i < details.languages.len()
                invariant
                    i <= details.languages.len(),
                    list@.len() == i,
                    forall|k: int| 0 <= k < i ==> (#[trigger] list@[k])@ == details.languages@[k].language@,
                decreases details.languages.len() - i,
            {
                list.push(details.languages[i].language.as_str().to_owned());
                i += 1;
            }
            assert(text::strings(list@) =~= codes(shares(details.languages@)));
            Some(list)
        },
    }
}

/// How reliably the languages of chunks were detected.
#[derive(Clone, Debug)]
pub struct ChunkReliability {
    /// How many chunks there are.
    pub chunks: usize,
    /// How many of them have a reliable detection.
    pub reliable_chunks: usize,
    /// The confidences of those with any detection, as bits of doubles.
    pub confidences: Vec<u64>,
}

/// How many detections are reliable.
pub open spec fn reliable_among(found: Seq<Option<(u8, Seq<char>, u64, bool)>>) -> nat
    decreases found.len(),
{
    if found.len() == 0 {
        0
    } else {
        reliable_among(found.drop_last()) + match found.last() {
            Some(d) => if d.3 {
                1nat
            } else {
                0nat
            },
            None => 0nat,
        }
    }
}

/// The confidences of detections.
pub open spec fn confidences_among(found: Seq<Option<(u8, Seq<char>, u64, bool)>>) -> Seq<u64>
    decreases found.len(),
{
    if found.len() == 0 {
        Seq::empty()
    } else {
        let before = confidences_among(found.drop_last());
        match found.last() {
            Some(d) => before.push(d.2),
            None => before,
        }
    }
}

/// Counts how reliably the languages of chunks are detected. A chunk without a detection counts as a
/// chunk all the same.
pub fn chunk_reliability(chunks: &[&str]) -> (r: ChunkReliability)
    ensures
        r.chunks == chunks@.len(),
        r.reliable_chunks == reliable_among(detected(text::slices(chunks@))),
        r.confidences@ == confidences_among(detected(text::slices(chunks@))),
{
    let ghost all = detected(text::slices(chunks@));
    let mut reliable_chunks: usize = 0;
    let mut confidences: Vec<u64> = Vec::new();
    let mut i: usize = 0;
    while i < chunks.len()
        invariant
            i <= chunks.len(),
            all == detected(text::slices(chunks@)),
            reliable_chunks <= i,
            reliable_chunks == reliable_among(all.take(i as int)),
            confidences@ == confidences_among(all.take(i as int)),
        decreases chunks.len() - i,
    {
        proof {
            assert(all.take(i + 1).drop_last() =~= all.take(i as int));
            assert(all.take(i + 1).last() == language_of(chunks@[i as int]@));
        }
        if let Some(d) = detect(chunks[i]) {
            confidences.push(d.confidence);
            if d.reliable {
                reliable_chunks += 1;
            }
        }
        i += 1;
    }
    assert(all.take(all.len() as int) =~= all);
    ChunkReliability { chunks: chunks.len(), reliable_chunks, confidences }
}

/// The three letters of a code as one number.
spec fn code_number(code: Seq<char>) -> u32 {
    ((code[0] as int * 1000 + code[1] as int) * 1000 + code[2] as int) as u32
}

/// The language whose code has a number.
spec fn language_numbered(number: u32) -> int {
    match number {
        101112111u32 => 0,
        101110103u32 => 1,
        114117115u32 => 2,
        99109110u32 => 3,
        115112097u32 => 4,
        112111114u32 => 5,
        105116097u32 => 6,
        98101110u32 => 7,
        102114097u32 => 8,
        100101117u32 => 9,
        117107114u32 => 10,
        107097116u32 => 11,
        97114097u32 => 12,
        104105110u32 => 13,
        106112110u32 => 14,
        104101098u32 => 15,
        121105100u32 => 16,
        112111108u32 => 17,
        97109104u32 => 18,
        106097118u32 => 19,
        107111114u32 => 20,
        110111098u32 => 21,
        100097110u32 => 22,
        115119101u32 => 23,
        102105110u32 => 24,
        116117114u32 => 25,
        110108100u32 => 26,
        104117110u32 => 27,
        99101115u32 => 28,
        101108108u32 => 29,
        98117108u32 => 30,
        98101108u32 => 31,
        109097114u32 => 32,
        107097110u32 => 33,
        114111110u32 => 34,
        115108118u32 => 35,
        104114118u32 => 36,
        115114112u32 => 37,
        109107100u32 => 38,
        108105116u32 => 39,
        108097118u32 => 40,
        101115116u32 => 41,
        116097109u32 => 42,
        118105101u32 => 43,
        117114100u32 => 44,
        116104097u32 => 45,
        103117106u32 => 46,
        117122098u32 => 47,
        112097110u32 => 48,
        97122101u32 => 49,
        105110100u32 => 50,
        116101108u32 => 51,
        112101115u32 => 52,
        109097108u32 => 53,
        111114105u32 => 54,
        109121097u32 => 55,
        110101112u32 => 56,
        115105110u32 => 57,
        107104109u32 => 58,
        116117107u32 => 59,
        97107097u32 => 60,
        122117108u32 => 61,
        115110097u32 => 62,
        97102114u32 => 63,
        108097116u32 => 64,
        115108107u32 => 65,
        99097116u32 => 66,
        116103108u32 => 67,
        104121101u32 => 68,
        99121109u32 => 69,
        _ => -1,
    }
}

#[verifier::rlimit(50)]
proof fn lemma_code(language: u8)
    requires
        language < LANGUAGE_COUNT,
    ensures
        iso_code(language).len() == 3,
        forall|k: int| 0 <= k < 3 ==> 97 <= #[trigger] iso_code(language)[k] as int <= 122,
        language_numbered(code_number(iso_code(language))) == language,
{
    match language {
        0u8 => {
            reveal_strlit("epo");
        },
        1u8 => {
            reveal_strlit("eng");
        },
        2u8 => {
            reveal_strlit("rus");
        },
        3u8 => {
            reveal_strlit("cmn");
        },
        4u8 => {
            reveal_strlit("spa");
        },
        5u8 => {
            reveal_strlit("por");
        },
        6u8 => {
            reveal_strlit("ita");
        },
        7u8 => {
            reveal_strlit("ben");
        },
        8u8 => {
            reveal_strlit("fra");
        },
        9u8 => {
            reveal_strlit("deu");
        },
        10u8 => {
            reveal_strlit("ukr");
        },
        11u8 => {
            reveal_strlit("kat");
        },
        12u8 => {
            reveal_strlit("ara");
        },
        13u8 => {
            reveal_strlit("hin");
        },
        14u8 => {
            reveal_strlit("jpn");
        },
        15u8 => {
            reveal_strlit("heb");
        },
        16u8 => {
            reveal_strlit("yid");
        },
        17u8 => {
            reveal_strlit("pol");
        },
        18u8 => {
            reveal_strlit("amh");
        },
        19u8 => {
            reveal_strlit("jav");
        },
        20u8 => {
            reveal_strlit("kor");
        },
        21u8 => {
            reveal_strlit("nob");
        },
        22u8 => {
            reveal_strlit("dan");
        },
        23u8 => {
            reveal_strlit("swe");
        },
        24u8 => {
            reveal_strlit("fin");
        },
        25u8 => {
            reveal_strlit("tur");
        },
        26u8 => {
            reveal_strlit("nld");
        },
        27u8 => {
            reveal_strlit("hun");
        },
        28u8 => {
            reveal_strlit("ces");
        },
        29u8 => {
            reveal_strlit("ell");
        },
        30u8 => {
            reveal_strlit("bul");
        },
        31u8 => {
            reveal_strlit("bel");
        },
        32u8 => {
            reveal_strlit("mar");
        },
        33u8 => {
            reveal_strlit("kan");
        },
        34u8 => {
            reveal_strlit("ron");
        },
        35u8 => {
            reveal_strlit("slv");
        },
        36u8 => {
            reveal_strlit("hrv");
        },
        37u8 => {
            reveal_strlit("srp");
        },
        38u8 => {
            reveal_strlit("mkd");
        },
        39u8 => {
            reveal_strlit("lit");
        },
        40u8 => {
            reveal_strlit("lav");
        },
        41u8 => {
            reveal_strlit("est");
        },
        42u8 => {
            reveal_strlit("tam");
        },
        43u8 => {
            reveal_strlit("vie");
        },
        44u8 => {
            reveal_strlit("urd");
        },
        45u8 => {
            reveal_strlit("tha");
        },
        46u8 => {
            reveal_strlit("guj");
        },
        47u8 => {
            reveal_strlit("uzb");
        },
        48u8 => {
            reveal_strlit("pan");
        },
        49u8 => {
            reveal_strlit("aze");
        },
        50u8 => {
            reveal_strlit("ind");
        },
        51u8 => {
            reveal_strlit("tel");
        },
        52u8 => {
            reveal_strlit("pes");
        },
        53u8 => {
            reveal_strlit("mal");
        },
        54u8 => {
            reveal_strlit("ori");
        },
        55u8 => {
            reveal_strlit("mya");
        },
        56u8 => {
            reveal_strlit("nep");
        },
        57u8 => {
            reveal_strlit("sin");
        },
        58u8 => {
            reveal_strlit("khm");
        },
        59u8 => {
            reveal_strlit("tuk");
        },
        60u8 => {
            reveal_strlit("aka");
        },
        61u8 => {
            reveal_strlit("zul");
        },
        62u8 => {
            reveal_strlit("sna");
        },
        63u8 => {
            reveal_strlit("afr");
        },
        64u8 => {
            reveal_strlit("lat");
        },
        65u8 => {
            reveal_strlit("slk");
        },
        66u8 => {
            reveal_strlit("cat");
        },
        67u8 => {
            reveal_strlit("tgl");
        },
        68u8 => {
            reveal_strlit("hye");
        },
        69u8 => {
            reveal_strlit("cym");
        },
        _ => {},
    }
}

/// The code of every language has three lowercase letters, and no two languages share one.
pub proof fn law_codes_are_three_letters_and_distinct(a: u8, b: u8)
    requires
        a < LANGUAGE_COUNT,
        b < LANGUAGE_COUNT,
    ensures
        iso_code(a).len() == 3,
        forall|k: int| 0 <= k < 3 ==> 'a' <= #[trigger] iso_code(a)[k] <= 'z',
        iso_code(a) == iso_code(b) ==> a == b,
{
    lemma_code(a);
    lemma_code(b);
}

} // verus!
