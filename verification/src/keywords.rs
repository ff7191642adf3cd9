//! Options for keyword extraction.
use crate::error::XbergError;
use crate::text;
use crate::text::push_decimal;
use vstd::prelude::*;

verus! {

/// How keywords are found.
#[derive(Clone, Copy, Debug, PartialEq, Eq, Structural)]
pub enum KeywordAlgorithm {
    /// By statistics of single documents.
    Yake,
    /// By co-occurrence in phrases.
    Rake,
}

/// How many words a keyword candidate has.
#[derive(Clone, Copy, Debug, PartialEq, Eq, Structural)]
pub struct NgramRange {
    /// The fewest.
    pub min: usize,
    /// The most.
    pub max: usize,
}

impl NgramRange {
    /// What is wrong with a range, if anything.
    pub open spec fn spec_fault(self) -> Option<Seq<char>> {
        if self.min == 0 {
            Some("ngram range minimum must be at least 1, got 0"@)
        } else if self.min > self.max {
            Some(
                "ngram range minimum must not exceed maximum ("@ + text::decimal(self.min as nat) + " > "@
                    + text::decimal(self.max as nat) + ")"@,
            )
        } else {
            None
        }
    }

    /// Checks that a range holds at least one number of words and no zero.
    pub fn validate(self) -> (r: Result<Self, String>)
        ensures
            match self.spec_fault() {
                Some(fault) => r matches Err(message) && message@ == fault,
                None => r matches Ok(range) && range == self,
            },
    {
        if self.min == 0 {
            return Err("ngram range minimum must be at least 1, got 0".to_owned());
        }
        if self.min > self.max {
            let mut message = "ngram range minimum must not exceed maximum (".to_owned();
            push_decimal(&mut message, self.min as u64);
            message.append(" > ");
            push_decimal(&mut message, self.max as u64);
            message.append(")");
            return Err(message);
        }
        Ok(self)
    }
}

impl From<(usize, usize)> for NgramRange {
    fn from(bounds: (usize, usize)) -> (r: Self) {
        NgramRange { min: bounds.0, max: bounds.1 }
    }
}

impl vstd::std_specs::convert::FromSpecImpl<(usize, usize)> for NgramRange {
    open spec fn obeys_from_spec() -> bool {
        true
    }

    open spec fn from_spec(bounds: (usize, usize)) -> Self {
        NgramRange { min: bounds.0, max: bounds.1 }
    }
}

impl From<NgramRange> for (usize, usize) {
    fn from(range: NgramRange) -> (r: Self) {
        (range.min, range.max)
    }
}

impl vstd::std_specs::convert::FromSpecImpl<NgramRange> for (usize, usize) {
    open spec fn obeys_from_spec() -> bool {
        true
    }

    open spec fn from_spec(range: NgramRange) -> Self {
        (range.min, range.max)
    }
}

impl Default for NgramRange {
    fn default() -> (r: Self)
        ensures
            r == (NgramRange { min: 1, max: 3 }),
    {
        NgramRange { min: 1, max: 3 }
    }
}

/// Options for `KeywordAlgorithm::Yake`.
#[derive(Clone, Copy, Debug)]
pub struct YakeParams {
    /// How many neighbours of a word count as its context.
    pub window_size: usize,
}

impl Default for YakeParams {
    fn default() -> (r: Self)
        ensures
            r == (YakeParams { window_size: 2 }),
    {
        YakeParams { window_size: 2 }
    }
}

/// Options for `KeywordAlgorithm::Rake`.
#[derive(Clone, Copy, Debug)]
pub struct RakeParams {
    /// The shortest word that counts.
    pub min_word_length: usize,
    /// The most words in a phrase.
    pub max_words_per_phrase: usize,
}

impl Default for RakeParams {
    fn default() -> (r: Self)
        ensures
            r == (RakeParams { min_word_length: 1, max_words_per_phrase: 3 }),
    {
        RakeParams { min_word_length: 1, max_words_per_phrase: 3 }
    }
}

/// A score, as the bits of a single-precision number and as it is displayed.
#[derive(Clone, Debug)]
pub struct Score {
    /// The bits.
    pub bits: u32,
    /// How it is displayed.
    pub text: String,
}

/// Whether bits are those of a number from zero to one, either zero included.
pub open spec fn is_fraction(bits: u32) -> bool {
    bits <= 0x3f80_0000 || bits == 0x8000_0000
}

/// How many keywords are looked for unless told otherwise.
pub fn default_max_keywords() -> (n: usize)
    ensures
        n == 10,
{
    10
}

/// Options for keyword extraction.
#[derive(Clone, Debug)]
pub struct KeywordConfig {
    /// How keywords are found.
    pub algorithm: KeywordAlgorithm,
    /// The most keywords to give.
    pub max_keywords: usize,
    /// The lowest score that a keyword may have.
    pub min_score: Score,
    /// How many words a candidate has.
    pub ngram_range: NgramRange,
    /// The language whose stop words are left out.
    pub language: Option<String>,
    /// Options for `KeywordAlgorithm::Yake`.
    pub yake_params: Option<YakeParams>,
    /// Options for `KeywordAlgorithm::Rake`.
    pub rake_params: Option<RakeParams>,
}

impl Default for KeywordConfig {
    fn default() -> (r: Self)
        ensures
            r.algorithm == KeywordAlgorithm::Yake,
            r.is_default_but_for_algorithm(),
    {
        KeywordConfig {
            algorithm: KeywordAlgorithm::Yake,
            max_keywords: default_max_keywords(),
            min_score: Score { bits: 0, text: "0".to_owned() },
            ngram_range: NgramRange { min: 1, max: 3 },
            language: Some("en".to_owned()),
            yake_params: None,
            rake_params: None,
        }
    }
}

impl KeywordConfig {
    /// Whether everything but the algorithm is as by default.
    pub open spec fn is_default_but_for_algorithm(self) -> bool {
        &&& self.max_keywords == 10
        &&& self.min_score.bits == 0
        &&& self.min_score.text@ == "0"@
        &&& self.ngram_range == (NgramRange { min: 1, max: 3 })
        &&& self.language matches Some(code)
        &&& code@ == "en"@
        &&& self.yake_params is None
        &&& self.rake_params is None
    }

    /// What is wrong with options, if anything.
    pub open spec fn spec_fault(self) -> Option<Seq<char>> {
        if !is_fraction(self.min_score.bits) {
            Some("keywords.min_score must be a finite value between 0.0 and 1.0, got "@ + self.min_score.text@)
        } else {
            self.ngram_range.spec_fault()
        }
    }

    /// The default options with `KeywordAlgorithm::Yake`.
    pub fn yake() -> (r: Self)
        ensures
            r.algorithm == KeywordAlgorithm::Yake,
            r.is_default_but_for_algorithm(),
    {
        KeywordConfig { algorithm: KeywordAlgorithm::Yake, ..KeywordConfig::default() }
    }

    /// The default options with `KeywordAlgorithm::Rake`.
    pub fn rake() -> (r: Self)
        ensures
            r.algorithm == KeywordAlgorithm::Rake,
            r.is_default_but_for_algorithm(),
    {
        KeywordConfig { algorithm: KeywordAlgorithm::Rake, ..KeywordConfig::default() }
    }

    /// The same options with another number of keywords to give at most.
    pub fn with_max_keywords(self, max: usize) -> (r: Self)
        ensures
            r == (KeywordConfig { max_keywords: max, ..self }),
    {
        KeywordConfig { max_keywords: max, ..self }
    }

    /// The same options with another lowest score.
    pub fn with_min_score(self, score: Score) -> (r: Self)
        ensures
            r == (KeywordConfig { min_score: score, ..self }),
    {
        KeywordConfig { min_score: score, ..self }
    }

    /// The same options with another range of words.
    pub fn with_ngram_range(self, min: usize, max: usize) -> (r: Self)
        ensures
            r == (KeywordConfig { ngram_range: NgramRange { min, max }, ..self }),
    {
        KeywordConfig { ngram_range: NgramRange { min, max }, ..self }
    }

    /// The same options with options for `KeywordAlgorithm::Yake`.
    pub fn with_yake_params(self, params: YakeParams) -> (r: Self)
        ensures
            r == (KeywordConfig { yake_params: Some(params), ..self }),
    {
        KeywordConfig { yake_params: Some(params), ..self }
    }

    /// The same options with options for `KeywordAlgorithm::Rake`.
    pub fn with_rake_params(self, params: RakeParams) -> (r: Self)
        ensures
            r == (KeywordConfig { rake_params: Some(params), ..self }),
    {
        KeywordConfig { rake_params: Some(params), ..self }
    }

    /// The same options with another language.
    pub fn with_language(self, language: &str) -> (r: Self)
        ensures
            r.language matches Some(code) && code@ == language@,
            r == (KeywordConfig { language: r.language, ..self }),
    {
        KeywordConfig { language: Some(language.to_owned()), ..self }
    }

    /// Checks that the score threshold is a fraction and the range of words makes sense.
    pub fn validate(&self) -> (r: Result<(), XbergError>)
        ensures
            match self.spec_fault() {
                Some(fault) => r matches Err(XbergError::Validation { message, source }) && message@ == fault
                    && source is None,
                None => r is Ok,
            },
    {
        if !(self.min_score.bits <= 0x3f80_0000 || self.min_score.bits == 0x8000_0000) {
            let mut message = "keywords.min_score must be a finite value between 0.0 and 1.0, got ".to_owned();
            message.append(self.min_score.text.as_str());
            return Err(XbergError::Validation { message, source: None });
        }
        match self.ngram_range.validate() {
            Ok(_) => Ok(()),
            Err(message) => Err(XbergError::Validation { message, source: None }),
        }
    }
}

/// A range is valid exactly where it starts at one word or more and does not end before it starts.
pub proof fn law_valid_ranges(range: NgramRange)
    ensures
        range.spec_fault() is None <==> 1 <= range.min <= range.max,
{
}

} // verus!
