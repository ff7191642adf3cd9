//! What speaks for the quality of an extraction.
use crate::text;
use crate::text::{chars_of, white};
use vstd::prelude::*;

verus! {

/// How far the batches of an output follow the schema.
#[derive(Clone, Copy, Debug, PartialEq, Eq, Structural)]
pub enum SchemaCompliance {
    /// Every batch does.
    AllValid,
    /// Some batches do, some do not.
    PartialValid,
    /// No batch does.
    AllInvalid,
}

impl SchemaCompliance {
    /// The weight of the compliance, in halves.
    pub open spec fn spec_half_points(self) -> u8 {
        match self {
            SchemaCompliance::AllValid => 2,
            SchemaCompliance::PartialValid => 1,
            SchemaCompliance::AllInvalid => 0,
        }
    }

    /// The weight of the compliance, in halves.
    pub fn half_points(self) -> (r: u8)
        ensures
            r == self.spec_half_points(),
    {
        match self {
            SchemaCompliance::AllValid => 2,
            SchemaCompliance::PartialValid => 1,
            SchemaCompliance::AllInvalid => 0,
        }
    }
}

/// Something that text recognition read.
#[derive(Clone, Debug)]
pub struct OcrElement {
    /// Its text.
    pub text: String,
    /// The bits of the double that says how sure the recognition is.
    pub recognition: u64,
    /// The page that it stands on.
    pub page_number: u32,
}

/// How sure the recognition of a page is.
#[derive(Clone, Copy, Debug)]
pub struct PageOcrConfidence {
    /// The bits of the double that says so, where the backend has a scale for it.
    pub score: Option<u64>,
    /// How many words were read.
    pub word_count: u32,
}

/// How many words a text has: how often a character that is no white space follows white space or the
/// beginning.
pub open spec fn word_count(s: Seq<char>) -> nat
    decreases s.len(),
{
    if s.len() == 0 {
        0
    } else {
        let before = word_count(s.drop_last());
        let starts = !text::is_white(s.last()) && (s.len() == 1 || text::is_white(s[s.len() - 2]));
        if starts {
            before + 1
        } else {
            before
        }
    }
}

/// Counts the words of a text.
pub fn count_words(s: &str) -> (n: usize)
    ensures
        n == word_count(s@),
{
    let chars = chars_of(s);
    let mut n: usize = 0;
    let mut i: usize = 0;
    while i < chars.len()
        invariant
            i <= chars.len(),
            n <= i,
            n == word_count(chars@.take(i as int)),
        decreases chars.len() - i,
    {
        proof {
            let longer = chars@.take(i + 1);
            assert(longer.drop_last() =~= chars@.take(i as int));
            assert(longer.last() == chars@[i as int]);
            assert(i > 0 ==> longer[longer.len() - 2] == chars@[i - 1]);
        }
        if !white(chars[i]) && (i == 0 || white(chars[i - 1])) {
            n += 1;
        }
        i += 1;
    }
    assert(chars@.take(chars@.len() as int) =~= chars@);
    n
}

/// The scores of elements, each with its number of words.
pub open spec fn element_evidence(elements: Seq<OcrElement>) -> Seq<(u64, nat)> {
    elements.map_values(|e: OcrElement| (e.recognition, word_count(e.text@)))
}

/// The scores of pages, each with its number of words; a page without a score is no evidence.
pub open spec fn page_evidence(pages: Seq<Option<PageOcrConfidence>>) -> Seq<(u64, nat)>
    decreases pages.len(),
{
    if pages.len() == 0 {
        Seq::empty()
    } else {
        let before = page_evidence(pages.drop_last());
        match pages.last() {
            Some(page) => match page.score {
                Some(score) => before.push((score, page.word_count as nat)),
                None => before,
            },
            None => before,
        }
    }
}

/// Whether some evidence rests on a word.
pub open spec fn has_words(evidence: Seq<(u64, nat)>) -> bool {
    exists|i: int| 0 <= i < evidence.len() && (#[trigger] evidence[i]).1 > 0
}

/// Evidence, with its counts as natural numbers.
pub open spec fn pairs(evidence: Seq<(u64, u64)>) -> Seq<(u64, nat)> {
    evidence.map_values(|p: (u64, u64)| (p.0, p.1 as nat))
}

/// What a confidence is to be computed from: the elements where they hold a word, otherwise the pages
/// where they do.
pub open spec fn evidence_of(
    elements: Option<Seq<OcrElement>>,
    pages: Option<Seq<Option<PageOcrConfidence>>>,
) -> Option<Seq<(u64, nat)>> {
    if elements is Some && has_words(element_evidence(elements->0)) {
        Some(element_evidence(elements->0))
    } else if pages is Some && has_words(page_evidence(pages->0)) {
        Some(page_evidence(pages->0))
    } else {
        None
    }
}

/// Whether some evidence rests on a word.
fn holds_words(evidence: &[(u64, u64)]) -> (r: bool)
    ensures
        r == has_words(pairs(evidence@)),
{
    let mut i: usize = 0;
    while i < evidence.len()
        invariant
            i <= evidence.len(),
            forall|k: int| 0 <= k < i ==> (#[trigger] pairs(evidence@)[k]).1 == 0,
        decreases evidence.len() - i,
    {
        assert(pairs(evidence@)[i as int].1 == evidence@[i as int].1);
        if evidence[i].1 > 0 {
            return true;
        }
        i += 1;
    }
    false
}

/// The scores of elements, each with its number of words.
pub fn ocr_confidence_from_elements(elements: &[OcrElement]) -> (r: Option<Vec<(u64, u64)>>)
    ensures
        match r {
            Some(evidence) => pairs(evidence@) == element_evidence(elements@) && has_words(element_evidence(elements@)),
            None => !has_words(element_evidence(elements@)),
        },
{
    let mut evidence: Vec<(u64, u64)> = Vec::new();
    let mut i: usize = 0;
    while i < elements.len()
        invariant
            i <= elements.len(),
            pairs(evidence@) =~= element_evidence(elements@.take(i as int)),
        decreases elements.len() - i,
    {
        let ghost before = evidence@;
        let words = count_words(elements[i].text.as_str());
        evidence.push((elements[i].recognition, words as u64));
        proof {
            assert(pairs(evidence@) =~= pairs(before).push((elements@[i as int].recognition, words as nat)));
            assert(element_evidence(elements@.take(i + 1)) =~= element_evidence(elements@.take(i as int)).push(
                (elements@[i as int].recognition, words as nat),
            ));
        }
        i += 1;
    }
    assert(elements@.take(elements@.len() as int) =~= elements@);
    if holds_words(evidence.as_slice()) {
        Some(evidence)
    } else {
        None
    }
}

/// The scores of pages, each with its number of words; a page without a score is no evidence.
pub fn ocr_confidence_from_pages(pages: &[Option<PageOcrConfidence>]) -> (r: Option<Vec<(u64, u64)>>)
    ensures
        match r {
            Some(evidence) => pairs(evidence@) == page_evidence(pages@) && has_words(page_evidence(pages@)),
            None => !has_words(page_evidence(pages@)),
        },
{
    let mut evidence: Vec<(u64, u64)> = Vec::new();
    let mut i: usize = 0;
    assert(pairs(evidence@) =~= Seq::<(u64, nat)>::empty());
    while i < pages.len()
        invariant
            i <= pages.len(),
            pairs(evidence@) == page_evidence(pages@.take(i as int)),
        decreases pages.len() - i,
    {
        let ghost before = evidence@;
        assert(pages@.take(i + 1).drop_last() =~= pages@.take(i as int));
        if let Some(page) = &pages[i] {
            if let Some(score) = page.score {
                evidence.push((score, page.word_count as u64));
                assert(pairs(evidence@) =~= pairs(before).push((score, page.word_count as nat)));
            }
        }
        i += 1;
    }
    assert(pages@.take(pages@.len() as int) =~= pages@);
    if holds_words(evidence.as_slice()) {
        Some(evidence)
    } else {
        None
    }
}

/// What a confidence is to be computed from, as scores and their numbers of words: the elements where
/// they hold a word, otherwise the pages where they do.
pub fn ocr_evidence(elements: Option<&[OcrElement]>, pages: Option<&[Option<PageOcrConfidence>]>) -> (r: Option<
    Vec<(u64, u64)>,
>)
    ensures
        match evidence_of(
            match elements {
                Some(list) => Some(list@),
                None => None,
            },
            match pages {
                Some(list) => Some(list@),
                None => None,
            },
        ) {
            Some(wanted) => r matches Some(evidence) && pairs(evidence@) == wanted,
            None => r is None,
        },
{
    if let Some(list) = elements {
        if let Some(evidence) = ocr_confidence_from_elements(list) {
            return Some(evidence);
        }
    }
    match pages {
        Some(list) => ocr_confidence_from_pages(list),
        None => None,
    }
}

/// Elements that hold a word are the evidence, whatever the pages say.
pub proof fn law_elements_come_first(elements: Seq<OcrElement>, pages: Option<Seq<Option<PageOcrConfidence>>>)
    requires
        has_words(element_evidence(elements)),
    ensures
        evidence_of(Some(elements), pages) == Some(element_evidence(elements)),
{
}

/// A page without a score is no evidence, however many words it has.
pub proof fn law_pages_without_score_are_no_evidence(pages: Seq<Option<PageOcrConfidence>>)
    requires
        forall|i: int| 0 <= i < pages.len() ==> (#[trigger] pages[i] matches Some(page) ==> page.score is None),
    ensures
        evidence_of(None, Some(pages)) is None,
{
    lemma_no_scores(pages);
}

/// Pages without scores give no evidence.
proof fn lemma_no_scores(pages: Seq<Option<PageOcrConfidence>>)
    requires
        forall|i: int| 0 <= i < pages.len() ==> (#[trigger] pages[i] matches Some(page) ==> page.score is None),
    ensures
        page_evidence(pages) == Seq::<(u64, nat)>::empty(),
    decreases pages.len(),
{
    if pages.len() > 0 {
        assert(pages[pages.len() - 1] == pages.last());
        assert forall|i: int| 0 <= i < pages.drop_last().len() implies (#[trigger] pages.drop_last()[i] matches Some(
            page,
        ) ==> page.score is None) by {
            assert(pages.drop_last()[i] == pages[i]);
        }
        lemma_no_scores(pages.drop_last());
    }
}

} // verus!
