//! Limits on what a document may ask of the extractors, and the counters that enforce them.
//!
//! Every counter uses saturating arithmetic, so no amount of input wraps a total back below its
//! ceiling. A value exactly at a ceiling is within it.
use crate::config::ExtractionConfig;
use crate::text;
use crate::text::{
    chars_of, contains_char, join_chars, push_chars, push_decimal, replace_char, split_chars, str_byte_len, string_of,
};
use vstd::slice::slice_subrange;
use vstd::prelude::*;

verus! {

/// Configured ceilings of one extraction.
#[derive(Clone, Debug)]
pub struct SecurityLimits {
    /// Largest uncompressed archive, in bytes.
    pub max_archive_size: usize,
    /// Largest accepted ratio of uncompressed to compressed size.
    pub max_compression_ratio: usize,
    /// Largest number of entries in an archive.
    pub max_files_in_archive: usize,
    /// Deepest nesting of structures.
    pub max_nesting_depth: usize,
    /// Longest single entity, attribute or token, in bytes.
    pub max_entity_length: usize,
    /// Largest amount of emitted text per operation, in bytes.
    pub max_content_size: usize,
    /// Largest number of parser-loop turns per operation.
    pub max_iterations: usize,
    /// Deepest nesting of XML elements.
    pub max_xml_depth: usize,
    /// Largest number of table cells per document.
    pub max_table_cells: usize,
    /// Largest number of pages per document; `None` is unlimited.
    pub max_pages: Option<usize>,
}

/// The ceilings that apply when none are configured.
pub open spec fn default_limits() -> SecurityLimits {
    SecurityLimits {
        max_archive_size: 524_288_000,
        max_compression_ratio: 100,
        max_files_in_archive: 10_000,
        max_nesting_depth: 1024,
        max_entity_length: 1_048_576,
        max_content_size: 104_857_600,
        max_iterations: 10_000_000,
        max_xml_depth: 1024,
        max_table_cells: 100_000,
        max_pages: None,
    }
}

impl Default for SecurityLimits {
    fn default() -> (r: Self)
        ensures
            r == default_limits(),
    {
        SecurityLimits {
            max_archive_size: 500 * 1024 * 1024,
            max_compression_ratio: 100,
            max_files_in_archive: 10_000,
            max_nesting_depth: 1024,
            max_entity_length: 1024 * 1024,
            max_content_size: 100 * 1024 * 1024,
            max_iterations: 10_000_000,
            max_xml_depth: 1024,
            max_table_cells: 100_000,
            max_pages: None,
        }
    }
}

/// A ceiling that a document went past.
#[derive(Clone, Debug)]
pub enum SecurityError {
    /// An archive, or one entry of it, inflates by more than the accepted ratio.
    ZipBombDetected {
        /// Compressed size in bytes.
        compressed_size: u64,
        /// Uncompressed size in bytes.
        uncompressed_size: u64,
    },
    /// An archive is larger than accepted once uncompressed.
    ArchiveTooLarge { size: u64, max: usize },
    /// An archive lists too many entries.
    TooManyFiles { count: usize, max: usize },
    /// Structures are nested too deeply.
    NestingTooDeep { depth: usize, max: usize },
    /// Too much text was emitted.
    ContentTooLarge { size: usize, max: usize },
    /// One token is too long.
    EntityTooLong { length: usize, max: usize },
    /// A parser loop ran for too long.
    TooManyIterations { count: usize, max: usize },
    /// XML elements are nested too deeply.
    XmlDepthExceeded { depth: usize, max: usize },
    /// The tables of a document hold too many cells.
    TooManyCells { cells: usize, max: usize },
    /// A document has too many pages.
    TooManyPages { count: usize, max: usize },
    /// An archive entry could not be read, so the totals of the archive cannot be trusted.
    UnreadableEntry {
        /// Zero-based index of the entry.
        index: usize,
        /// Why its header could not be read.
        reason: String,
    },
}

/// The binary exponent of a number of twentieths.
pub open spec fn exponent_of_twentieths(n: nat) -> int
    decreases n,
{
    if n >= 40 {
        1 + exponent_of_twentieths(n / 2)
    } else if n >= 20 {
        0
    } else if n >= 10 {
        -1
    } else if n >= 5 {
        -2
    } else if n >= 3 {
        -3
    } else if n >= 2 {
        -4
    } else {
        -5
    }
}

/// What a power of two leaves when it is divided by five.
pub open spec fn power_of_two_by_five(exponent: int) -> int {
    if exponent % 4 == 0 {
        1
    } else if exponent % 4 == 1 {
        2
    } else if exponent % 4 == 2 {
        4
    } else {
        3
    }
}

/// Whether a ratio halfway between a number of tenths and the next is shown as the next. The double that holds the
/// ratio lies beside it, unless the ratio is a number of quarters: then the even tenth is shown.
pub open spec fn half_goes_up(tenths: nat) -> bool {
    let twentieths = 2 * tenths + 1;
    if twentieths % 5 == 0 {
        tenths % 2 == 1
    } else {
        (twentieths % 5 * power_of_two_by_five(50 - exponent_of_twentieths(twentieths))) % 5 >= 3
    }
}

/// The tenths of the quotient of two sizes, rounded to the nearest.
pub open spec fn ratio_tenths(uncompressed: nat, compressed: nat) -> nat
    recommends
        compressed > 0,
{
    let whole = (uncompressed * 10) / compressed;
    let rest = (uncompressed * 10) % compressed;
    if 2 * rest > compressed || (2 * rest == compressed && half_goes_up(whole)) {
        whole + 1
    } else {
        whole
    }
}

/// A compression ratio in words: one decimal, or `inf` for an entry that came from nothing.
pub open spec fn ratio_text(uncompressed: nat, compressed: nat) -> Seq<char> {
    if compressed == 0 {
        "inf"@
    } else {
        text::decimal(ratio_tenths(uncompressed, compressed) / 10) + "."@ + text::decimal(
            ratio_tenths(uncompressed, compressed) % 10,
        )
    }
}

impl SecurityError {
    /// What the error says of itself.
    pub open spec fn spec_message(self) -> Seq<char> {
        match self {
            SecurityError::ZipBombDetected { compressed_size, uncompressed_size } =>
                "Potential ZIP bomb detected: compressed "@ + text::decimal(compressed_size as nat)
                + "B -> uncompressed "@ + text::decimal(uncompressed_size as nat) + "B (ratio: "@
                + ratio_text(uncompressed_size as nat, compressed_size as nat) + ":1)"@,
            SecurityError::ArchiveTooLarge { size, max } =>
                "Archive too large: "@ + text::decimal(size as nat) + " bytes (max: "@ + text::decimal(max as nat)
                + " bytes)"@,
            SecurityError::TooManyFiles { count, max } =>
                "Archive has too many files: "@ + text::decimal(count as nat) + " (max: "@ + text::decimal(max as nat)
                + ")"@,
            SecurityError::NestingTooDeep { depth, max } =>
                "Nesting too deep: "@ + text::decimal(depth as nat) + " levels (max: "@ + text::decimal(max as nat)
                + ")"@,
            SecurityError::ContentTooLarge { size, max } =>
                "Content too large: "@ + text::decimal(size as nat) + " bytes (max: "@ + text::decimal(max as nat)
                + " bytes)"@,
            SecurityError::EntityTooLong { length, max } =>
                "Entity too long: "@ + text::decimal(length as nat) + " chars (max: "@ + text::decimal(max as nat)
                + ")"@,
            SecurityError::TooManyIterations { count, max } =>
                "Too many iterations: "@ + text::decimal(count as nat) + " (max: "@ + text::decimal(max as nat) + ")"@,
            SecurityError::XmlDepthExceeded { depth, max } =>
                "XML depth exceeded: "@ + text::decimal(depth as nat) + " (max: "@ + text::decimal(max as nat) + ")"@,
            SecurityError::TooManyCells { cells, max } =>
                "Table cell limit exceeded: observed "@ + text::decimal(cells as nat)
                + " cells, but `security_limits.max_table_cells` is "@ + text::decimal(max as nat)
                + ". If this input is trusted, raise `security_limits.max_table_cells`; otherwise reduce or split the table."@,
            SecurityError::TooManyPages { count, max } =>
                "Document has too many pages: "@ + text::decimal(count as nat) + " (max: "@ + text::decimal(max as nat)
                + "). Raise `security_limits.max_pages` if this document is legitimate, or split it before extraction."@,
            SecurityError::UnreadableEntry { index, reason } =>
                "Archive entry "@ + text::decimal(index as nat)
                + " could not be read for security accounting: "@ + reason@,
        }
    }

    /// The error in words.
    pub fn message(&self) -> (r: String)
        ensures
            r@ == self.spec_message(),
    {
        match self {
            SecurityError::ZipBombDetected { compressed_size, uncompressed_size } => {
                let mut out = counted("Potential ZIP bomb detected: compressed ", *compressed_size, "B -> uncompressed ");
                push_decimal(&mut out, *uncompressed_size);
                out.append("B (ratio: ");
                push_ratio(&mut out, *uncompressed_size, *compressed_size);
                out.append(":1)");
                out
            },
            SecurityError::ArchiveTooLarge { size, max } =>
                limit_message("Archive too large: ", *size, " bytes (max: ", *max as u64, " bytes)"),
            SecurityError::TooManyFiles { count, max } =>
                limit_message("Archive has too many files: ", *count as u64, " (max: ", *max as u64, ")"),
            SecurityError::NestingTooDeep { depth, max } =>
                limit_message("Nesting too deep: ", *depth as u64, " levels (max: ", *max as u64, ")"),
            SecurityError::ContentTooLarge { size, max } =>
                limit_message("Content too large: ", *size as u64, " bytes (max: ", *max as u64, " bytes)"),
            SecurityError::EntityTooLong { length, max } =>
                limit_message("Entity too long: ", *length as u64, " chars (max: ", *max as u64, ")"),
            SecurityError::TooManyIterations { count, max } =>
                limit_message("Too many iterations: ", *count as u64, " (max: ", *max as u64, ")"),
            SecurityError::XmlDepthExceeded { depth, max } =>
                limit_message("XML depth exceeded: ", *depth as u64, " (max: ", *max as u64, ")"),
            SecurityError::TooManyCells { cells, max } =>
                limit_message(
                    "Table cell limit exceeded: observed ",
                    *cells as u64,
                    " cells, but `security_limits.max_table_cells` is ",
                    *max as u64,
                    ". If this input is trusted, raise `security_limits.max_table_cells`; otherwise reduce or split the table.",
                ),
            SecurityError::TooManyPages { count, max } =>
                limit_message(
                    "Document has too many pages: ",
                    *count as u64,
                    " (max: ",
                    *max as u64,
                    "). Raise `security_limits.max_pages` if this document is legitimate, or split it before extraction.",
                ),
            SecurityError::UnreadableEntry { index, reason } => {
                let mut out = counted(
                    "Archive entry ",
                    *index as u64,
                    " could not be read for security accounting: ",
                );
                out.append(reason.as_str());
                out
            },
        }
    }
}

/// A number between two pieces of text.
fn counted(head: &str, n: u64, tail: &str) -> (r: String)
    ensures
        r@ == head@ + text::decimal(n as nat) + tail@,
{
    let mut out = head.to_owned();
    push_decimal(&mut out, n);
    out.append(tail);
    out
}

/// An observed and an accepted number between three pieces of text.
fn limit_message(head: &str, observed: u64, middle: &str, max: u64, tail: &str) -> (r: String)
    ensures
        r@ == head@ + text::decimal(observed as nat) + middle@ + text::decimal(max as nat) + tail@,
{
    let mut out = counted(head, observed, middle);
    push_decimal(&mut out, max);
    out.append(tail);
    out
}

/// The binary exponent of a number of twentieths, less by a multiple of four.
fn exponent_class(n: u128) -> (r: u8)
    ensures
        r < 4,
        (exponent_of_twentieths(n as nat) - r) % 4 == 0,
    decreases n,
{
    if n >= 40 {
        (exponent_class(n / 2) + 1) % 4
    } else if n >= 20 {
        0
    } else if n >= 10 {
        3
    } else if n >= 5 {
        2
    } else if n >= 3 {
        1
    } else if n >= 2 {
        0
    } else {
        3
    }
}

/// Whether a ratio halfway between a number of tenths and the next is shown as the next.
fn rounds_half_up(tenths: u128) -> (r: bool)
    requires
        tenths <= 10 * u64::MAX,
    ensures
        r == half_goes_up(tenths as nat),
{
    let twentieths: u128 = 2 * tenths + 1;
    if twentieths % 5 == 0 {
        return tenths % 2 == 1;
    }
    let left: u128 = twentieths % 5;
    let class = exponent_class(twentieths);
    let power: u128 = if class == 2 {
        1
    } else if class == 1 {
        2
    } else if class == 0 {
        4
    } else {
        3
    };
    (left * power) % 5 >= 3
}

/// Appends a compression ratio in words.
fn push_ratio(out: &mut String, uncompressed: u64, compressed: u64)
    ensures
        final(out)@ == old(out)@ + ratio_text(uncompressed as nat, compressed as nat),
{
    if compressed == 0 {
        out.append("inf");
        return ;
    }
    let scaled: u128 = uncompressed as u128 * 10;
    let divisor: u128 = compressed as u128;
    let whole: u128 = scaled / divisor;
    let rest: u128 = scaled % divisor;
    proof {
        assert(whole <= scaled) by (nonlinear_arith)
            requires
                whole == scaled / divisor,
                divisor > 0,
        ;
    }
    let tenths: u128 = if 2 * rest > divisor || (2 * rest == divisor && rounds_half_up(whole)) {
        whole + 1
    } else {
        whole
    };
    let units: u64 = (tenths / 10) as u64;
    let tenth: u64 = (tenths % 10) as u64;
    proof {
        assert(tenths == ratio_tenths(uncompressed as nat, compressed as nat));
        if tenths / 10 > u64::MAX {
            assert(false) by (nonlinear_arith)
                requires
                    whole == scaled / divisor,
                    rest == scaled % divisor,
                    divisor >= 1,
                    tenths <= whole + 1,
                    divisor == 1 ==> tenths == whole,
                    scaled <= 10 * u64::MAX,
                    tenths / 10 > u64::MAX,
            ;
        }
    }
    push_decimal(out, units);
    out.append(".");
    push_decimal(out, tenth);
    proof {
        assert(final(out)@ =~= old(out)@ + ratio_text(uncompressed as nat, compressed as nat));
    }
}

/// Rejects a document with more pages than accepted.
pub fn enforce_page_count(count: usize, max_pages: Option<usize>) -> (r: Result<(), SecurityError>)
    ensures
        r == (match max_pages {
            Some(max) if count > max => Err(SecurityError::TooManyPages { count, max }),
            _ => Ok::<(), SecurityError>(()),
        }),
{
    match max_pages {
        Some(max) => {
            if count > max {
                Err(SecurityError::TooManyPages { count, max })
            } else {
                Ok(())
            }
        },
        None => Ok(()),
    }
}

/// A count held within the range of the counters.
pub open spec fn saturated(n: int) -> usize {
    if n > usize::MAX {
        usize::MAX
    } else {
        n as usize
    }
}

/// Caps the text that an extraction accumulates.
#[derive(Clone, Copy, Debug)]
pub struct StringGrowthValidator {
    /// The ceiling.
    pub max_size: usize,
    /// The running total.
    pub current_size: usize,
}

impl StringGrowthValidator {
    /// A counter at zero under the given ceiling.
    pub fn new(max_size: usize) -> (r: Self)
        ensures
            r == (StringGrowthValidator { max_size, current_size: 0 }),
    {
        StringGrowthValidator { max_size, current_size: 0 }
    }

    /// Accounts for bytes that are about to be appended.
    pub fn check_append(&mut self, len: usize) -> (r: Result<(), SecurityError>)
        ensures
            final(self).max_size == old(self).max_size,
            final(self).current_size == saturated(old(self).current_size + len),
            r == (if final(self).current_size > final(self).max_size {
                Err(SecurityError::ContentTooLarge { size: final(self).current_size, max: final(self).max_size })
            } else {
                Ok::<(), SecurityError>(())
            }),
    {
        self.current_size = self.current_size.saturating_add(len);
        if self.current_size > self.max_size {
            Err(SecurityError::ContentTooLarge { size: self.current_size, max: self.max_size })
        } else {
            Ok(())
        }
    }
}

/// Caps the turns of a parser loop.
#[derive(Clone, Copy, Debug)]
pub struct IterationValidator {
    /// The ceiling.
    pub max_iterations: usize,
    /// The running total.
    pub current_count: usize,
}

impl IterationValidator {
    /// A counter at zero under the given ceiling.
    pub fn new(max_iterations: usize) -> (r: Self)
        ensures
            r == (IterationValidator { max_iterations, current_count: 0 }),
    {
        IterationValidator { max_iterations, current_count: 0 }
    }

    /// Accounts for one more turn.
    pub fn check_iteration(&mut self) -> (r: Result<(), SecurityError>)
        ensures
            final(self).max_iterations == old(self).max_iterations,
            final(self).current_count == saturated(old(self).current_count + 1),
            r == (if final(self).current_count > final(self).max_iterations {
                Err(SecurityError::TooManyIterations { count: final(self).current_count, max: final(self).max_iterations })
            } else {
                Ok::<(), SecurityError>(())
            }),
    {
        self.current_count = self.current_count.saturating_add(1);
        if self.current_count > self.max_iterations {
            Err(SecurityError::TooManyIterations { count: self.current_count, max: self.max_iterations })
        } else {
            Ok(())
        }
    }
}

/// Caps the nesting depth.
#[derive(Clone, Copy, Debug)]
pub struct DepthValidator {
    /// The ceiling.
    pub max_depth: usize,
    /// The running total.
    pub current_depth: usize,
}

impl DepthValidator {
    /// A counter at zero under the given ceiling.
    pub fn new(max_depth: usize) -> (r: Self)
        ensures
            r == (DepthValidator { max_depth, current_depth: 0 }),
    {
        DepthValidator { max_depth, current_depth: 0 }
    }

    /// Enters one level.
    pub fn push(&mut self) -> (r: Result<(), SecurityError>)
        ensures
            final(self).max_depth == old(self).max_depth,
            final(self).current_depth == saturated(old(self).current_depth + 1),
            r == (if final(self).current_depth > final(self).max_depth {
                Err(SecurityError::NestingTooDeep { depth: final(self).current_depth, max: final(self).max_depth })
            } else {
                Ok::<(), SecurityError>(())
            }),
    {
        self.current_depth = self.current_depth.saturating_add(1);
        if self.current_depth > self.max_depth {
            Err(SecurityError::NestingTooDeep { depth: self.current_depth, max: self.max_depth })
        } else {
            Ok(())
        }
    }

    /// Leaves one level; an unbalanced close stays at the top.
    pub fn pop(&mut self)
        ensures
            final(self).max_depth == old(self).max_depth,
            final(self).current_depth == if old(self).current_depth > 0 {
                old(self).current_depth - 1
            } else {
                0
            },
    {
        if self.current_depth > 0 {
            self.current_depth = self.current_depth - 1;
        }
    }
}

/// Caps the length of a single token.
#[derive(Clone, Copy, Debug)]
pub struct EntityValidator {
    /// The ceiling in bytes.
    pub max_length: usize,
}

impl EntityValidator {
    /// What the cap says of a token.
    pub open spec fn verdict(self, content: Seq<char>) -> Result<(), SecurityError> {
        if text::byte_len(content) > self.max_length {
            Err(SecurityError::EntityTooLong { length: text::byte_len(content) as usize, max: self.max_length })
        } else {
            Ok(())
        }
    }

    /// A cap of the given number of bytes.
    pub fn new(max_length: usize) -> (r: Self)
        ensures
            r.max_length == max_length,
    {
        EntityValidator { max_length }
    }

    /// Rejects a token longer than the cap.
    pub fn validate(&self, content: &str) -> (r: Result<(), SecurityError>)
        ensures
            r == self.verdict(content@),
    {
        let length = str_byte_len(content);
        if length > self.max_length {
            Err(SecurityError::EntityTooLong { length, max: self.max_length })
        } else {
            Ok(())
        }
    }

    /// Rejects an attribute whose value is longer than the cap.
    pub fn check_attr(&self, _name: &str, value: &str) -> (r: Result<(), SecurityError>)
        ensures
            r == self.verdict(value@),
    {
        self.validate(value)
    }
}

/// Caps the table cells of a document.
#[derive(Clone, Copy, Debug)]
pub struct TableValidator {
    /// The ceiling.
    pub max_cells: usize,
    /// The running total.
    pub current_cells: usize,
}

impl TableValidator {
    /// A counter at zero under the given ceiling.
    pub fn new(max_cells: usize) -> (r: Self)
        ensures
            r == (TableValidator { max_cells, current_cells: 0 }),
    {
        TableValidator { max_cells, current_cells: 0 }
    }

    /// Accounts for more cells.
    pub fn add_cells(&mut self, count: usize) -> (r: Result<(), SecurityError>)
        ensures
            final(self).max_cells == old(self).max_cells,
            final(self).current_cells == saturated(old(self).current_cells + count),
            r == (if final(self).current_cells > final(self).max_cells {
                Err(SecurityError::TooManyCells { cells: final(self).current_cells, max: final(self).max_cells })
            } else {
                Ok::<(), SecurityError>(())
            }),
    {
        self.current_cells = self.current_cells.saturating_add(count);
        if self.current_cells > self.max_cells {
            Err(SecurityError::TooManyCells { cells: self.current_cells, max: self.max_cells })
        } else {
            Ok(())
        }
    }
}

/// The counters of one extraction.
#[derive(Clone, Copy, Debug)]
pub struct SecurityBudget {
    /// Nesting depth.
    pub depth: DepthValidator,
    /// Parser-loop turns.
    pub iteration: IterationValidator,
    /// Token length.
    pub entity: EntityValidator,
    /// Emitted text.
    pub growth: StringGrowthValidator,
    /// Table cells.
    pub table: TableValidator,
}

/// The smaller of two ceilings.
pub open spec fn tighter(a: usize, b: usize) -> usize {
    if a <= b {
        a
    } else {
        b
    }
}

/// An untouched budget under the given ceilings, with the given nesting limit.
pub open spec fn fresh_budget(limits: SecurityLimits, max_depth: usize) -> SecurityBudget {
    SecurityBudget {
        depth: DepthValidator { max_depth, current_depth: 0 },
        iteration: IterationValidator { max_iterations: limits.max_iterations, current_count: 0 },
        entity: EntityValidator { max_length: limits.max_entity_length },
        growth: StringGrowthValidator { max_size: limits.max_content_size, current_size: 0 },
        table: TableValidator { max_cells: limits.max_table_cells, current_cells: 0 },
    }
}

/// The budget of an extraction before anything is read: that of the configured ceilings, or of the
/// default ones.
pub open spec fn configured_budget(config: ExtractionConfig) -> SecurityBudget {
    match config.security_limits {
        Some(limits) => fresh_budget(limits, tighter(limits.max_xml_depth, limits.max_nesting_depth)),
        None => fresh_budget(default_limits(), 1024),
    }
}

impl SecurityBudget {
    /// An untouched budget. Both depth limits apply to the same parse, so the tighter one counts.
    pub fn from_limits(limits: &SecurityLimits) -> (r: Self)
        ensures
            r == fresh_budget(*limits, tighter(limits.max_xml_depth, limits.max_nesting_depth)),
    {
        let max_depth = if limits.max_xml_depth <= limits.max_nesting_depth {
            limits.max_xml_depth
        } else {
            limits.max_nesting_depth
        };
        SecurityBudget {
            depth: DepthValidator::new(max_depth),
            iteration: IterationValidator::new(limits.max_iterations),
            entity: EntityValidator::new(limits.max_entity_length),
            growth: StringGrowthValidator::new(limits.max_content_size),
            table: TableValidator::new(limits.max_table_cells),
        }
    }

    /// An untouched budget for protobuf messages, to which XML depth does not apply.
    pub fn for_iwork(limits: &SecurityLimits) -> (r: Self)
        ensures
            r == fresh_budget(*limits, limits.max_nesting_depth),
    {
        let mut budget = SecurityBudget::from_limits(limits);
        budget.depth = DepthValidator::new(limits.max_nesting_depth);
        budget
    }

    /// An untouched budget under the configured ceilings, or the default ones.
    pub fn from_config(config: &ExtractionConfig) -> (r: Self)
        ensures
            r == configured_budget(*config),
    {
        match &config.security_limits {
            Some(limits) => SecurityBudget::from_limits(limits),
            None => SecurityBudget::with_defaults(),
        }
    }

    /// An untouched budget under the default ceilings.
    pub fn with_defaults() -> (r: Self)
        ensures
            r == fresh_budget(default_limits(), 1024),
    {
        SecurityBudget::from_limits(&SecurityLimits::default())
    }

    /// One parser-loop turn: the budget after it, and whether it is within the ceiling.
    pub open spec fn spec_step(self) -> (SecurityBudget, Result<(), SecurityError>) {
        let count = saturated(self.iteration.current_count + 1);
        (
            SecurityBudget { iteration: IterationValidator { current_count: count, ..self.iteration }, ..self },
            if count > self.iteration.max_iterations {
                Err(SecurityError::TooManyIterations { count, max: self.iteration.max_iterations })
            } else {
                Ok(())
            },
        )
    }

    /// One level of nesting entered.
    pub open spec fn spec_enter(self) -> (SecurityBudget, Result<(), SecurityError>) {
        let depth = saturated(self.depth.current_depth + 1);
        (
            SecurityBudget { depth: DepthValidator { current_depth: depth, ..self.depth }, ..self },
            if depth > self.depth.max_depth {
                Err(SecurityError::NestingTooDeep { depth, max: self.depth.max_depth })
            } else {
                Ok(())
            },
        )
    }

    /// One level of nesting left; an unbalanced close stays at the top.
    pub open spec fn spec_leave(self) -> SecurityBudget {
        SecurityBudget {
            depth: DepthValidator {
                current_depth: if self.depth.current_depth > 0 {
                    (self.depth.current_depth - 1) as usize
                } else {
                    0
                },
                ..self.depth
            },
            ..self
        }
    }

    /// Text emitted.
    pub open spec fn spec_account_text(self, len: int) -> (SecurityBudget, Result<(), SecurityError>) {
        let size = saturated(self.growth.current_size + len);
        (
            SecurityBudget { growth: StringGrowthValidator { current_size: size, ..self.growth }, ..self },
            if size > self.growth.max_size {
                Err(SecurityError::ContentTooLarge { size, max: self.growth.max_size })
            } else {
                Ok(())
            },
        )
    }

    /// Table cells added.
    pub open spec fn spec_add_cells(self, count: int) -> (SecurityBudget, Result<(), SecurityError>) {
        let cells = saturated(self.table.current_cells + count);
        (
            SecurityBudget { table: TableValidator { current_cells: cells, ..self.table }, ..self },
            if cells > self.table.max_cells {
                Err(SecurityError::TooManyCells { cells, max: self.table.max_cells })
            } else {
                Ok(())
            },
        )
    }

    /// Whether two budgets enforce the same ceilings.
    pub open spec fn same_ceilings(self, other: SecurityBudget) -> bool {
        &&& self.depth.max_depth == other.depth.max_depth
        &&& self.iteration.max_iterations == other.iteration.max_iterations
        &&& self.entity == other.entity
        &&& self.growth.max_size == other.growth.max_size
        &&& self.table.max_cells == other.table.max_cells
    }

    /// Accounts for one parser-loop turn.
    pub fn step(&mut self) -> (r: Result<(), SecurityError>)
        ensures
            (*final(self), r) == old(self).spec_step(),
    {
        self.iteration.check_iteration()
    }

    /// Enters one level of nesting.
    pub fn enter(&mut self) -> (r: Result<(), SecurityError>)
        ensures
            (*final(self), r) == old(self).spec_enter(),
    {
        self.depth.push()
    }

    /// Leaves one level of nesting; an unbalanced close stays at the top.
    pub fn leave(&mut self)
        ensures
            *final(self) == old(self).spec_leave(),
    {
        self.depth.pop();
    }

    /// The deepest level that can be entered.
    pub fn depth_limit(&self) -> (r: usize)
        ensures
            r == self.depth.max_depth,
    {
        self.depth.max_depth
    }

    /// Accounts for emitted text.
    pub fn account_text(&mut self, len: usize) -> (r: Result<(), SecurityError>)
        ensures
            (*final(self), r) == old(self).spec_account_text(len as int),
    {
        self.growth.check_append(len)
    }

    /// Rejects an attribute value longer than the token cap.
    pub fn check_attr(&self, name: &str, value: &str) -> (r: Result<(), SecurityError>)
        ensures
            r == self.entity.verdict(value@),
    {
        self.entity.check_attr(name, value)
    }

    /// Rejects a token longer than the token cap.
    pub fn check_entity(&self, value: &str) -> (r: Result<(), SecurityError>)
        ensures
            r == self.entity.verdict(value@),
    {
        self.entity.validate(value)
    }

    /// Accounts for more table cells.
    pub fn add_cells(&mut self, count: usize) -> (r: Result<(), SecurityError>)
        ensures
            (*final(self), r) == old(self).spec_add_cells(count as int),
    {
        self.table.add_cells(count)
    }
}

/// No accounting ever changes a ceiling.
pub proof fn law_accounting_keeps_the_ceilings(budget: SecurityBudget, amount: int)
    ensures
        budget.spec_step().0.same_ceilings(budget),
        budget.spec_enter().0.same_ceilings(budget),
        budget.spec_leave().same_ceilings(budget),
        budget.spec_account_text(amount).0.same_ceilings(budget),
        budget.spec_add_cells(amount).0.same_ceilings(budget),
{
}

/// Entering a level and leaving it again leaves the budget as it was, unless the depth counter is
/// already at the end of its range.
pub proof fn law_leaving_undoes_entering(budget: SecurityBudget)
    requires
        budget.depth.current_depth < usize::MAX,
    ensures
        budget.spec_enter().0.spec_leave() == budget,
{
}

/// An exceeded ceiling stays exceeded: whatever is accounted for next is rejected too.
pub proof fn law_exceeded_ceilings_stay_exceeded(budget: SecurityBudget, first: usize, more: usize)
    ensures
        budget.spec_step().1 is Err ==> budget.spec_step().0.spec_step().1 is Err,
        budget.spec_account_text(first as int).1 is Err ==> budget.spec_account_text(first as int).0.spec_account_text(
            more as int,
        ).1 is Err,
        budget.spec_add_cells(first as int).1 is Err ==> budget.spec_add_cells(first as int).0.spec_add_cells(
            more as int,
        ).1 is Err,
{
}

/// The in-memory archive reader of the `zip` crate.
#[verifier::external_type_specification]
#[verifier::external_body]
#[verifier::reject_recursive_types(R)]
pub struct ExZipArchive<R>(zip::ZipArchive<R>);

/// The in-memory cursor of std.
#[verifier::external_type_specification]
#[verifier::external_body]
#[verifier::reject_recursive_types(T)]
pub struct ExCursor<T>(std::io::Cursor<T>);

/// What the entries of an archive declare, in the order of its central directory: the compressed
/// and the uncompressed size, or why the header of the entry cannot be read.
pub uninterp spec fn archive_entries(archive: zip::ZipArchive<std::io::Cursor<Vec<u8>>>) -> Seq<
    Result<(u64, u64), Seq<char>>,
>;

/// `zip::ZipArchive::len` is the number of entries in the central directory.
#[verifier::external_body]
fn entry_count(archive: &zip::ZipArchive<std::io::Cursor<Vec<u8>>>) -> (n: usize)
    ensures
        n == archive_entries(*archive).len(),
{
    archive.len()
}

/// `zip::ZipArchive::by_index_raw` reads the header of one entry: `compressed_size` and `size` of
/// the entry it hands out are the sizes that the header declares. The entries stay as they were.
#[verifier::external_body]
fn entry_sizes(archive: &mut zip::ZipArchive<std::io::Cursor<Vec<u8>>>, index: usize) -> (r: Result<
    (u64, u64),
    String,
>)
    requires
        index < archive_entries(*old(archive)).len(),
    ensures
        archive_entries(*final(archive)) == archive_entries(*old(archive)),
        match r {
            Ok(sizes) => archive_entries(*old(archive))[index as int] == Ok::<(u64, u64), Seq<char>>(sizes),
            Err(reason) => archive_entries(*old(archive))[index as int] == Err::<(u64, u64), Seq<char>>(reason@),
        },
{
    match archive.by_index_raw(index) {
        Ok(file) => Ok((file.compressed_size(), file.size())),
        Err(error) => Err(error.to_string()),
    }
}

/// A verdict in which a reason is its text.
pub enum ArchiveVerdict {
    /// The archive is within every limit.
    Safe,
    /// The archive is past a limit.
    Limit(SecurityError),
    /// The header of an entry cannot be read.
    Unreadable(nat, Seq<char>),
}

/// Whether a size came from so few bytes that the accepted ratio is exceeded.
pub open spec fn inflates_past(uncompressed: int, compressed: int, max_ratio: usize) -> bool {
    if compressed == 0 {
        uncompressed > 0
    } else {
        uncompressed > max_ratio * compressed
    }
}

/// The smallest uncompressed size, in bytes, to which the ratio cap of single entries applies.
pub const MEMBER_RATIO_FLOOR: u64 = 1_048_576;

/// What one entry brings about, given the totals that include it.
pub open spec fn entry_verdict(
    limits: SecurityLimits,
    compressed: u64,
    uncompressed: u64,
    total_uncompressed: u64,
) -> Option<SecurityError> {
    if uncompressed > 0 && (compressed == 0 || uncompressed >= MEMBER_RATIO_FLOOR) && inflates_past(
        uncompressed as int,
        compressed as int,
        limits.max_compression_ratio,
    ) {
        Some(SecurityError::ZipBombDetected { compressed_size: compressed, uncompressed_size: uncompressed })
    } else if total_uncompressed > limits.max_archive_size {
        Some(SecurityError::ArchiveTooLarge { size: total_uncompressed, max: limits.max_archive_size })
    } else {
        None
    }
}

/// The sum of the sizes that the first entries declare, held within 64 bits: the compressed sizes
/// and the uncompressed ones. An unreadable entry adds nothing.
pub open spec fn totals(entries: Seq<Result<(u64, u64), Seq<char>>>, n: int) -> (u64, u64)
    decreases n,
{
    if n <= 0 {
        (0, 0)
    } else {
        let before = totals(entries, n - 1);
        match entries[n - 1] {
            Ok(sizes) => (saturated64(before.0 + sizes.0), saturated64(before.1 + sizes.1)),
            Err(_) => before,
        }
    }
}

/// A size held within 64 bits.
pub open spec fn saturated64(n: int) -> u64 {
    if n > u64::MAX {
        u64::MAX
    } else {
        n as u64
    }
}

/// What the entry at an index brings about.
pub open spec fn verdict_at(
    limits: SecurityLimits,
    entries: Seq<Result<(u64, u64), Seq<char>>>,
    i: int,
) -> ArchiveVerdict {
    match entries[i] {
        Err(reason) => ArchiveVerdict::Unreadable(i as nat, reason),
        Ok(sizes) => match entry_verdict(limits, sizes.0, sizes.1, totals(entries, i + 1).1) {
            Some(error) => ArchiveVerdict::Limit(error),
            None => ArchiveVerdict::Safe,
        },
    }
}

/// The verdict on an archive whose first entries were found safe: that of the first later entry
/// that is not safe, else that of the archive as a whole.
pub open spec fn archive_verdict_from(
    limits: SecurityLimits,
    entries: Seq<Result<(u64, u64), Seq<char>>>,
    i: int,
) -> ArchiveVerdict
    decreases entries.len() - i,
{
    if i >= entries.len() {
        let all = totals(entries, entries.len() as int);
        if all.0 > 0 && inflates_past(all.1 as int, all.0 as int, limits.max_compression_ratio) {
            ArchiveVerdict::Limit(
                SecurityError::ZipBombDetected { compressed_size: all.0, uncompressed_size: all.1 },
            )
        } else {
            ArchiveVerdict::Safe
        }
    } else if verdict_at(limits, entries, i) is Safe {
        archive_verdict_from(limits, entries, i + 1)
    } else {
        verdict_at(limits, entries, i)
    }
}

/// The verdict on an archive with the given entries.
pub open spec fn archive_verdict(
    limits: SecurityLimits,
    entries: Seq<Result<(u64, u64), Seq<char>>>,
) -> ArchiveVerdict {
    if entries.len() > limits.max_files_in_archive {
        ArchiveVerdict::Limit(
            SecurityError::TooManyFiles { count: entries.len() as usize, max: limits.max_files_in_archive },
        )
    } else {
        archive_verdict_from(limits, entries, 0)
    }
}

/// Whether a result says what a verdict says.
pub open spec fn tells(r: Result<(), SecurityError>, verdict: ArchiveVerdict) -> bool {
    match verdict {
        ArchiveVerdict::Safe => r is Ok,
        ArchiveVerdict::Limit(error) => r == Err::<(), SecurityError>(error),
        ArchiveVerdict::Unreadable(i, why) => r matches Err(SecurityError::UnreadableEntry { index, reason })
            && index == i && reason@ == why,
    }
}

/// Judges archives before anything is extracted from them.
#[derive(Clone, Debug)]
pub struct ZipBombValidator {
    /// The ceilings to enforce.
    pub limits: SecurityLimits,
}

impl ZipBombValidator {
    /// A validator for the given ceilings.
    pub fn new(limits: SecurityLimits) -> (r: Self)
        ensures
            r.limits == limits,
    {
        ZipBombValidator { limits }
    }

    /// Judges one entry, given the total that includes it.
    fn judge_entry(&self, compressed: u64, uncompressed: u64, total_uncompressed: u64) -> (r: Option<
        SecurityError,
    >)
        ensures
            r == entry_verdict(self.limits, compressed, uncompressed, total_uncompressed),
    {
        if uncompressed > 0 && (compressed == 0 || uncompressed >= MEMBER_RATIO_FLOOR)
            && self.inflates(uncompressed, compressed) {
            Some(SecurityError::ZipBombDetected { compressed_size: compressed, uncompressed_size: uncompressed })
        } else if total_uncompressed > self.limits.max_archive_size as u64 {
            Some(SecurityError::ArchiveTooLarge { size: total_uncompressed, max: self.limits.max_archive_size })
        } else {
            None
        }
    }

    /// Whether a size came from so few bytes that the accepted ratio is exceeded.
    fn inflates(&self, uncompressed: u64, compressed: u64) -> (r: bool)
        ensures
            r == inflates_past(uncompressed as int, compressed as int, self.limits.max_compression_ratio),
    {
        if compressed == 0 {
            return uncompressed > 0;
        }
        let ratio: u128 = self.limits.max_compression_ratio as u128;
        let size: u128 = compressed as u128;
        proof {
            assert(ratio * size <= 0xffff_ffff_ffff_ffff * 0xffff_ffff_ffff_ffff) by (nonlinear_arith)
                requires
                    0 <= ratio <= 0xffff_ffff_ffff_ffff,
                    0 <= size <= 0xffff_ffff_ffff_ffff,
            ;
        }
        uncompressed as u128 > ratio * size
    }

    /// Judges an archive by the sizes that its entries declare. Every entry of the central
    /// directory counts; one whose header cannot be read is an error of its own.
    pub fn validate(&self, archive: &mut zip::ZipArchive<std::io::Cursor<Vec<u8>>>) -> (r: Result<
        (),
        SecurityError,
    >)
        ensures
            archive_entries(*final(archive)) == archive_entries(*old(archive)),
            tells(r, archive_verdict(self.limits, archive_entries(*old(archive)))),
    {
        let ghost entries = archive_entries(*archive);
        let file_count = entry_count(archive);
        if file_count > self.limits.max_files_in_archive {
            return Err(
                SecurityError::TooManyFiles { count: file_count, max: self.limits.max_files_in_archive },
            );
        }
        let mut total_compressed: u64 = 0;
        let mut total_uncompressed: u64 = 0;
        let mut index: usize = 0;
        while index < file_count
            invariant
                index <= file_count == entries.len(),
                archive_entries(*archive) == entries,
                entries == archive_entries(*old(archive)),
                file_count <= self.limits.max_files_in_archive,
                (total_compressed, total_uncompressed) == totals(entries, index as int),
                archive_verdict(self.limits, entries) == archive_verdict_from(self.limits, entries, index as int),
            decreases file_count - index,
        {
            let (compressed, uncompressed) = match entry_sizes(archive, index) {
                Ok(sizes) => sizes,
                Err(reason) => {
                    return Err(SecurityError::UnreadableEntry { index, reason });
                },
            };
            total_uncompressed = total_uncompressed.saturating_add(uncompressed);
            total_compressed = total_compressed.saturating_add(compressed);
            if let Some(error) = self.judge_entry(compressed, uncompressed, total_uncompressed) {
                return Err(error);
            }
            index = index + 1;
        }
        if total_compressed > 0 && self.inflates(total_uncompressed, total_compressed) {
            return Err(
                SecurityError::ZipBombDetected {
                    compressed_size: total_compressed,
                    uncompressed_size: total_uncompressed,
                },
            );
        }
        Ok(())
    }
}

/// Why an entry name cannot be resolved inside its container.
#[derive(Debug, Clone, Copy, PartialEq, Eq, Structural)]
pub enum PathTraversalError {
    /// A `..` component climbs past the container root.
    EscapesRoot,
    /// The name holds a NUL character.
    InvalidByte,
    /// The name starts with a drive letter or a UNC prefix.
    DriveOrUncPrefix,
    /// Nothing is left of the name.
    EmptyResult,
}

impl PathTraversalError {
    /// What the error says of itself.
    pub open spec fn spec_message(self) -> Seq<char> {
        match self {
            PathTraversalError::EscapesRoot => "path escapes the container root"@,
            PathTraversalError::InvalidByte => "path contains a NUL byte"@,
            PathTraversalError::DriveOrUncPrefix => "path carries a drive letter or UNC prefix"@,
            PathTraversalError::EmptyResult => "path resolves to no entry"@,
        }
    }

    /// The error in words.
    pub fn message(&self) -> (r: String)
        ensures
            r@ == self.spec_message(),
    {
        match self {
            PathTraversalError::EscapesRoot => "path escapes the container root".to_owned(),
            PathTraversalError::InvalidByte => "path contains a NUL byte".to_owned(),
            PathTraversalError::DriveOrUncPrefix => "path carries a drive letter or UNC prefix".to_owned(),
            PathTraversalError::EmptyResult => "path resolves to no entry".to_owned(),
        }
    }
}

/// A component that stays where it is.
pub open spec fn is_transparent(segment: Seq<char>) -> bool {
    segment == Seq::<char>::empty() || segment == seq!['.']
}

/// The directories left after walking a path from the given ones; `None` past the root.
pub open spec fn walk(stack: Seq<Seq<char>>, path: Seq<Seq<char>>) -> Option<Seq<Seq<char>>>
    decreases path.len(),
{
    if path.len() == 0 {
        Some(stack)
    } else {
        match walk(stack, path.drop_last()) {
            None => None,
            Some(here) => if is_transparent(path.last()) {
                Some(here)
            } else if path.last() == seq!['.', '.'] {
                if here.len() == 0 {
                    None
                } else {
                    Some(here.drop_last())
                }
            } else {
                Some(here.push(path.last()))
            },
        }
    }
}

/// A drive letter or UNC prefix.
pub open spec fn has_drive_or_unc_prefix(path: Seq<char>) -> bool {
    path.len() >= 2 && ((path[0] == '/' && path[1] == '/') || (text::is_letter(path[0]) && path[1] == ':'))
}

/// The components of the path that a target names: those of the base directory and its own, or
/// its own alone where it is relative to the container root.
pub open spec fn named_components(base: Seq<char>, target: Seq<char>) -> Seq<Seq<char>> {
    let normalized = text::replaced(target, '\\', '/');
    if normalized.len() > 0 && normalized[0] == '/' {
        text::split_on(normalized.skip(1), '/')
    } else {
        text::split_on(base, '/') + text::split_on(normalized, '/')
    }
}

/// The entry that a target names.
pub open spec fn resolved_entry(base: Seq<char>, target: Seq<char>) -> Result<
    Seq<Seq<char>>,
    PathTraversalError,
> {
    if target.contains('\0') {
        Err(PathTraversalError::InvalidByte)
    } else if has_drive_or_unc_prefix(text::replaced(target, '\\', '/')) {
        Err(PathTraversalError::DriveOrUncPrefix)
    } else {
        match walk(Seq::empty(), named_components(base, target)) {
            None => Err(PathTraversalError::EscapesRoot),
            Some(stack) => if stack.len() == 0 {
                Err(PathTraversalError::EmptyResult)
            } else {
                Ok(stack)
            },
        }
    }
}

/// Resolves the name of an archive entry against a directory inside the archive. A `..` is
/// followed as long as it stays within the container; a leading `/` means the container root.
pub fn resolve_container_entry(base: &str, target: &str) -> (r: Result<String, PathTraversalError>)
    ensures
        match resolved_entry(base@, target@) {
            Ok(components) => r is Ok && r->Ok_0@ == text::join(components, seq!['/']),
            Err(error) => r == Err::<String, PathTraversalError>(error),
        },
{
    let target = chars_of(target);
    if contains_char(target.as_slice(), '\0') {
        return Err(PathTraversalError::InvalidByte);
    }
    let normalized = replace_char(target.as_slice(), '\\', '/');
    if is_drive_or_unc_prefixed(normalized.as_slice()) {
        return Err(PathTraversalError::DriveOrUncPrefix);
    }
    let rooted = normalized.len() > 0 && normalized[0] == '/';
    let mut stack: Vec<Vec<char>> = Vec::new();
    let ghost none = text::texts(stack@);
    proof {
        assert(none =~= Seq::<Seq<char>>::empty());
    }
    if rooted {
        let pieces = split_chars(slice_subrange(normalized.as_slice(), 1, normalized.len()), '/');
        proof {
            assert(normalized@.subrange(1, normalized@.len() as int) =~= normalized@.skip(1));
            assert(text::texts(pieces@) == named_components(base@, target@));
        }
        match push_segments(&mut stack, pieces) {
            Ok(()) => {},
            Err(error) => {
                return Err(error);
            },
        }
    } else {
        let pieces = split_chars(chars_of(base).as_slice(), '/');
        let more = split_chars(normalized.as_slice(), '/');
        proof {
            lemma_walk_of_concat(none, text::texts(pieces@), text::texts(more@));
        }
        match push_segments(&mut stack, pieces) {
            Ok(()) => {},
            Err(error) => {
                return Err(error);
            },
        }
        match push_segments(&mut stack, more) {
            Ok(()) => {},
            Err(error) => {
                return Err(error);
            },
        }
    }
    if stack.len() == 0 {
        return Err(PathTraversalError::EmptyResult);
    }
    let slash: [char; 1] = ['/'];
    proof {
        assert(slash@ =~= seq!['/']);
    }
    Ok(string_of(join_chars(stack.as_slice(), slash.as_slice()).as_slice()))
}

/// Walks several components.
fn push_segments(stack: &mut Vec<Vec<char>>, segments: Vec<Vec<char>>) -> (r: Result<(), PathTraversalError>)
    ensures
        match walk(text::texts(old(stack)@), text::texts(segments@)) {
            Some(end) => r is Ok && text::texts(final(stack)@) == end,
            None => r == Err::<(), PathTraversalError>(PathTraversalError::EscapesRoot),
        },
{
    let ghost start = text::texts(stack@);
    let ghost path = text::texts(segments@);
    let mut i: usize = 0;
    while i < segments.len()
        invariant
            i <= segments.len(),
            start == text::texts(old(stack)@),
            path == text::texts(segments@),
            walk(start, path.take(i as int)) == Some(text::texts(stack@)),
        decreases segments.len() - i,
    {
        proof {
            assert(path.take(i + 1).drop_last() =~= path.take(i as int));
            assert(path.take(i + 1).last() == segments@[i as int]@);
        }
        let outcome = push_segment(stack, segments[i].as_slice());
        if outcome.is_err() {
            proof {
                lemma_walk_stays_outside(start, path, i + 1);
            }
            return outcome;
        }
        i = i + 1;
    }
    proof {
        assert(path.take(path.len() as int) =~= path);
    }
    Ok(())
}

/// Walks one component: an ordinary one is entered, an empty one and `.` stay, `..` leaves.
fn push_segment(stack: &mut Vec<Vec<char>>, segment: &[char]) -> (r: Result<(), PathTraversalError>)
    ensures
        match walk(text::texts(old(stack)@), seq![segment@]) {
            Some(end) => r is Ok && text::texts(final(stack)@) == end,
            None => r == Err::<(), PathTraversalError>(PathTraversalError::EscapesRoot),
        },
        walk(text::texts(old(stack)@), seq![segment@]) == if is_transparent(segment@) {
            Some(text::texts(old(stack)@))
        } else if segment@ == seq!['.', '.'] {
            if old(stack)@.len() == 0 {
                None
            } else {
                Some(text::texts(old(stack)@).drop_last())
            }
        } else {
            Some(text::texts(old(stack)@).push(segment@))
        },
{
    let ghost here = text::texts(stack@);
    proof {
        reveal_with_fuel(walk, 2);
        assert(seq![segment@].drop_last() =~= Seq::<Seq<char>>::empty());
    }
    if segment.len() == 0 {
        proof {
            assert(segment@ =~= Seq::<char>::empty());
        }
        return Ok(());
    }
    if segment.len() == 1 && segment[0] == '.' {
        proof {
            assert(segment@ =~= seq!['.']);
        }
        return Ok(());
    }
    if segment.len() == 2 && segment[0] == '.' && segment[1] == '.' {
        proof {
            assert(segment@ =~= seq!['.', '.']);
        }
        if stack.len() == 0 {
            return Err(PathTraversalError::EscapesRoot);
        }
        stack.pop();
        proof {
            assert(text::texts(stack@) =~= here.drop_last());
        }
        return Ok(());
    }
    let mut owned: Vec<char> = Vec::new();
    push_chars(&mut owned, segment);
    proof {
        assert(owned@ =~= segment@);
        assert(segment@ != seq!['.']);
        assert(segment@ != seq!['.', '.']);
    }
    stack.push(owned);
    proof {
        assert(text::texts(stack@) =~= here.push(segment@));
    }
    Ok(())
}

/// Whether a path starts with a drive letter or a UNC prefix.
fn is_drive_or_unc_prefixed(path: &[char]) -> (r: bool)
    ensures
        r == has_drive_or_unc_prefix(path@),
{
    if path.len() < 2 {
        return false;
    }
    let letter = ('a' <= path[0] && path[0] <= 'z') || ('A' <= path[0] && path[0] <= 'Z');
    (path[0] == '/' && path[1] == '/') || (letter && path[1] == ':')
}

/// Walking two paths in turn is walking their concatenation.
proof fn lemma_walk_of_concat(stack: Seq<Seq<char>>, first: Seq<Seq<char>>, second: Seq<Seq<char>>)
    ensures
        walk(stack, first + second) == match walk(stack, first) {
            None => None,
            Some(here) => walk(here, second),
        },
    decreases second.len(),
{
    if second.len() == 0 {
        assert(first + second =~= first);
    } else {
        lemma_walk_of_concat(stack, first, second.drop_last());
        assert((first + second).drop_last() =~= first + second.drop_last());
    }
}

/// A path whose beginning leaves the container leaves it.
proof fn lemma_walk_stays_outside(stack: Seq<Seq<char>>, path: Seq<Seq<char>>, n: int)
    requires
        0 <= n <= path.len(),
        walk(stack, path.take(n)) is None,
    ensures
        walk(stack, path) is None,
{
    lemma_walk_of_concat(stack, path.take(n), path.skip(n));
    assert(path.take(n) + path.skip(n) =~= path);
}

/// A resolved entry has at least one component, and none of its components is empty, `.` or `..`:
/// it names something inside the container.
pub proof fn law_resolved_entry_stays_inside(base: Seq<char>, target: Seq<char>)
    requires
        resolved_entry(base, target) is Ok,
    ensures
        ({
            let components = text::split_on(text::join(resolved_entry(base, target)->Ok_0, seq!['/']), '/');
            &&& components == resolved_entry(base, target)->Ok_0
            &&& components.len() > 0
            &&& forall|i: int| 0 <= i < components.len() ==> !is_transparent(#[trigger] components[i])
                && components[i] != seq!['.', '.']
        }),
{
    let path = named_components(base, target);
    assert forall|i: int| 0 <= i < path.len() implies !(#[trigger] path[i]).contains('/') by {
        let normalized = text::replaced(target, '\\', '/');
        text::lemma_split_pieces_hold_no_separator(base, '/');
        text::lemma_split_pieces_hold_no_separator(normalized, '/');
        text::lemma_split_pieces_hold_no_separator(normalized.skip(1), '/');
    }
    lemma_walk_keeps_ordinary(path);
    let components = resolved_entry(base, target)->Ok_0;
    text::lemma_split_of_join(components, '/');
}

/// Every component left after a walk from the root is an ordinary one of the path.
proof fn lemma_walk_keeps_ordinary(path: Seq<Seq<char>>)
    requires
        forall|i: int| 0 <= i < path.len() ==> !(#[trigger] path[i]).contains('/'),
    ensures
        walk(Seq::empty(), path) matches Some(end) ==> forall|i: int|
            0 <= i < end.len() ==> !(#[trigger] end[i]).contains('/') && !is_transparent(end[i]) && end[i]
                != seq!['.', '.'],
    decreases path.len(),
{
    if path.len() > 0 {
        let init = path.drop_last();
        assert forall|i: int| 0 <= i < init.len() implies !(#[trigger] init[i]).contains('/') by {
            assert(init[i] == path[i]);
        }
        lemma_walk_keeps_ordinary(init);
        assert(!path[path.len() - 1].contains('/'));
    }
}

/// A target that starts with a slash does not depend on the base directory.
pub proof fn law_rooted_target_ignores_base(base: Seq<char>, other: Seq<char>, target: Seq<char>)
    requires
        target.len() > 0,
        target[0] == '/',
    ensures
        resolved_entry(base, target) == resolved_entry(other, target),
{
    assert(text::replaced(target, '\\', '/')[0] == '/');
}

/// A backslash in a target means the same as a slash.
pub proof fn law_backslash_is_slash(base: Seq<char>, target: Seq<char>)
    ensures
        resolved_entry(base, target) == resolved_entry(base, text::replaced(target, '\\', '/')),
{
    let normalized = text::replaced(target, '\\', '/');
    assert(text::replaced(normalized, '\\', '/') =~= normalized);
    if target.contains('\0') {
        let k = choose|k: int| 0 <= k < target.len() && target[k] == '\0';
        assert(normalized[k] == '\0');
    }
    if normalized.contains('\0') {
        let k = choose|k: int| 0 <= k < normalized.len() && normalized[k] == '\0';
        assert(target[k] == '\0');
    }
}

/// An accepted archive holds no more entries and no more bytes than configured, every one of its
/// entries could be read, and neither the archive nor an entry past the floor inflates by more
/// than the accepted ratio. No entry past the floor comes from nothing.
pub proof fn law_accepted_archive_is_within_limits(
    limits: SecurityLimits,
    entries: Seq<Result<(u64, u64), Seq<char>>>,
)
    requires
        archive_verdict(limits, entries) is Safe,
    ensures
        entries.len() <= limits.max_files_in_archive,
        entries.len() > 0 ==> totals(entries, entries.len() as int).1 <= limits.max_archive_size,
        forall|i: int|
            0 <= i < entries.len() ==> (#[trigger] entries[i]) is Ok && (entries[i]->Ok_0.1 >= MEMBER_RATIO_FLOOR
                ==> entries[i]->Ok_0.1 <= limits.max_compression_ratio * entries[i]->Ok_0.0),
        forall|i: int|
            0 <= i < entries.len() && (#[trigger] entries[i])->Ok_0.1 >= MEMBER_RATIO_FLOOR && entries[i]->Ok_0.1 > 0
                ==> entries[i]->Ok_0.0 > 0,
        totals(entries, entries.len() as int).0 > 0 ==> totals(entries, entries.len() as int).1
            <= limits.max_compression_ratio * totals(entries, entries.len() as int).0,
{
    assert forall|i: int| 0 <= i < entries.len() implies verdict_at(limits, entries, i) is Safe by {
        lemma_safe_from_start(limits, entries, i);
    }
    lemma_safe_from_start(limits, entries, entries.len() as int);
    assert forall|i: int| 0 <= i < entries.len() implies (#[trigger] entries[i]) is Ok && (entries[i]->Ok_0.1
        >= MEMBER_RATIO_FLOOR ==> entries[i]->Ok_0.1 <= limits.max_compression_ratio * entries[i]->Ok_0.0) by {
        assert(verdict_at(limits, entries, i) is Safe);
        assert(limits.max_compression_ratio * 0 == 0) by (nonlinear_arith);
    }
    assert(limits.max_compression_ratio * 0 == 0) by (nonlinear_arith);
    if entries.len() > 0 {
        assert(verdict_at(limits, entries, entries.len() - 1) is Safe);
    }
}

/// In an accepted archive every entry was found safe on the way to the end.
proof fn lemma_safe_from_start(limits: SecurityLimits, entries: Seq<Result<(u64, u64), Seq<char>>>, n: int)
    requires
        archive_verdict_from(limits, entries, 0) is Safe,
        0 <= n <= entries.len(),
    ensures
        archive_verdict_from(limits, entries, n) is Safe,
        n < entries.len() ==> verdict_at(limits, entries, n) is Safe,
    decreases n,
{
    if n > 0 {
        lemma_safe_from_start(limits, entries, n - 1);
    }
}

/// A budget together with the first ceiling that was exceeded. Once one was, nothing more is
/// charged.
pub struct Ledger {
    /// The budget.
    pub budget: SecurityBudget,
    /// Whether it is within its ceilings.
    pub verdict: Result<(), SecurityError>,
}

/// A ledger for a budget that is within its ceilings.
pub open spec fn open_ledger(budget: SecurityBudget) -> Ledger {
    Ledger { budget, verdict: Ok(()) }
}

impl Ledger {
    /// One loop iteration done.
    pub open spec fn stepped(self) -> Ledger {
        if self.verdict is Err {
            self
        } else {
            let charged = self.budget.spec_step();
            Ledger { budget: charged.0, verdict: charged.1 }
        }
    }

    /// One level of nesting entered.
    pub open spec fn entered(self) -> Ledger {
        if self.verdict is Err {
            self
        } else {
            let charged = self.budget.spec_enter();
            Ledger { budget: charged.0, verdict: charged.1 }
        }
    }

    /// One level of nesting left.
    pub open spec fn left(self) -> Ledger {
        if self.verdict is Err {
            self
        } else {
            Ledger { budget: self.budget.spec_leave(), ..self }
        }
    }

    /// One level of nesting left, whether or not a ceiling was exceeded.
    pub open spec fn unwound(self) -> Ledger {
        Ledger { budget: self.budget.spec_leave(), ..self }
    }

    /// A token held against the token cap.
    pub open spec fn checked(self, token: Seq<char>) -> Ledger {
        if self.verdict is Err {
            self
        } else {
            Ledger { verdict: self.budget.entity.verdict(token), ..self }
        }
    }

    /// Text emitted.
    pub open spec fn accounted(self, t: Seq<char>) -> Ledger {
        if self.verdict is Err {
            self
        } else {
            let charged = self.budget.spec_account_text(text::byte_len(t) as int);
            Ledger { budget: charged.0, verdict: charged.1 }
        }
    }

    /// Table cells emitted.
    pub open spec fn tabulated(self, count: nat) -> Ledger {
        if self.verdict is Err {
            self
        } else {
            let charged = self.budget.spec_add_cells(count as int);
            Ledger { budget: charged.0, verdict: charged.1 }
        }
    }

    /// A ledger for a budget that is within its ceilings.
    pub fn new(budget: SecurityBudget) -> (r: Self)
        ensures
            r == open_ledger(budget),
    {
        Ledger { budget, verdict: Ok(()) }
    }

    /// Whether a ceiling was exceeded.
    pub fn failed(&self) -> (r: bool)
        ensures
            r == (self.verdict is Err),
    {
        self.verdict.is_err()
    }

    /// Counts one loop iteration.
    pub fn step(&mut self)
        ensures
            *final(self) == old(self).stepped(),
    {
        if !self.failed() {
            self.verdict = self.budget.step();
        }
    }

    /// Enters one level of nesting.
    pub fn enter(&mut self)
        ensures
            *final(self) == old(self).entered(),
    {
        if !self.failed() {
            self.verdict = self.budget.enter();
        }
    }

    /// Leaves one level of nesting.
    pub fn leave(&mut self)
        ensures
            *final(self) == old(self).left(),
    {
        if !self.failed() {
            self.budget.leave();
        }
    }

    /// Leaves one level of nesting, whether or not a ceiling was exceeded.
    pub fn unwind(&mut self)
        ensures
            *final(self) == old(self).unwound(),
    {
        self.budget.leave();
    }

    /// Holds a token against the token cap.
    pub fn check_entity(&mut self, token: &str)
        ensures
            *final(self) == old(self).checked(token@),
    {
        if !self.failed() {
            self.verdict = self.budget.check_entity(token);
        }
    }

    /// Accounts for emitted text.
    pub fn account_text(&mut self, t: &str)
        ensures
            *final(self) == old(self).accounted(t@),
    {
        if !self.failed() {
            self.verdict = self.budget.account_text(str_byte_len(t));
        }
    }

    /// Accounts for emitted table cells.
    pub fn add_cells(&mut self, count: usize)
        ensures
            *final(self) == old(self).tabulated(count as nat),
    {
        if !self.failed() {
            self.verdict = self.budget.add_cells(count);
        }
    }
}

} // verus!
