//! The document that holds the finished tables, and small helpers for
//! reporting on it.

use crate::config::{ExplosionMode, RollConfig};
use crate::stats::{Statistics, PROBABILITY_CUTOFF_INVERSE};
use chrono::Utc;
use std::collections::BTreeMap;
use vstd::prelude::*;
use vstd::string::StringExecFns;

verus! {

/// Version of the document's layout.
pub const SCHEMA_VERSION: &'static str = "1.0.0";

/// Trials simulated for each mode.
#[derive(Debug, Clone, Copy, PartialEq, Eq, Structural)]
pub struct SimulationRounds {
    /// Trials for a configuration of unskilled dice.
    pub unskilled: usize,
    /// Trials for a configuration of skilled dice.
    pub skilled: usize,
    /// Trials for a configuration of a master's dice.
    pub mastery: usize,
}

/// The table of one configuration.
#[derive(Debug)]
pub struct ProbabilityTable {
    /// Dice rolled.
    pub roll: u8,
    /// Dice kept.
    pub keep: u8,
    /// Which faces explode.
    pub explosion_mode: ExplosionMode,
    /// Whether emphasis is applied.
    pub emphasis: bool,
    /// Summary of the distribution of totals.
    pub statistics: Statistics,
    /// Survival table: for each threshold that is listed, the number of trials
    /// that reached it, out of `statistics.total_count`.
    pub cumulative_probability: BTreeMap<i32, u128>,
}

impl ProbabilityTable {
    /// Whether the table is that of the given pool, mode and emphasis.
    pub open spec fn is_for(&self, roll: u8, keep: u8, mode: ExplosionMode, emphasis: bool) -> bool {
        self.roll == roll && self.keep == keep && self.explosion_mode == mode && self.emphasis
            == emphasis
    }

    /// Puts the results of one configuration together.
    pub fn new(
        config: &RollConfig,
        statistics: Statistics,
        cumulative_probability: BTreeMap<i32, u128>,
    ) -> (table: Self)
        ensures
            table.is_for(config.roll, config.keep, config.explosion_mode, config.emphasis),
            table.statistics == statistics,
            table.cumulative_probability == cumulative_probability,
    {
        ProbabilityTable {
            roll: config.roll,
            keep: config.keep,
            explosion_mode: config.explosion_mode,
            emphasis: config.emphasis,
            statistics,
            cumulative_probability,
        }
    }
}

/// The whole document.
#[derive(Debug)]
pub struct ProbabilityTables {
    /// Version of the document's layout.
    pub version: String,
    /// When the document was put together, as an RFC 3339 time.
    pub generated_at: String,
    /// Trials simulated for each mode.
    pub simulation_rounds: SimulationRounds,
    /// The probability cutoff is one in this many.
    pub probability_cutoff_inverse: u128,
    /// One table for each configuration.
    pub tables: Vec<ProbabilityTable>,
}

/// The trial counts of the three modes.
pub open spec fn rounds_of_modes() -> SimulationRounds {
    SimulationRounds {
        unskilled: ExplosionMode::Unskilled.spec_simulation_rounds(),
        skilled: ExplosionMode::Skilled.spec_simulation_rounds(),
        mastery: ExplosionMode::Mastery.spec_simulation_rounds(),
    }
}

/// Whether `document` holds the given tables under the fixed header: the
/// schema version, the trial counts of the modes and the cutoff.
pub open spec fn is_document_of(document: ProbabilityTables, tables: Vec<ProbabilityTable>) -> bool {
    &&& document.version@ == SCHEMA_VERSION@
    &&& document.simulation_rounds == rounds_of_modes()
    &&& document.probability_cutoff_inverse == PROBABILITY_CUTOFF_INVERSE
    &&& document.tables == tables
}

/// The current time in UTC from `chrono::Utc::now`, written by
/// `DateTime::to_rfc3339`. It panics where the system clock stands before
/// 1970. Nothing is claimed of the text.
#[verifier::external_body]
fn current_timestamp() -> String {
    Utc::now().to_rfc3339()
}

/// Puts the document together from its tables and the time of its making.
pub fn assemble_probability_tables(tables: Vec<ProbabilityTable>, generated_at: String) -> (document:
    ProbabilityTables)
    ensures
        is_document_of(document, tables),
        document.generated_at == generated_at,
{
    ProbabilityTables {
        version: SCHEMA_VERSION.to_owned(),
        generated_at,
        simulation_rounds: SimulationRounds {
            unskilled: ExplosionMode::Unskilled.simulation_rounds(),
            skilled: ExplosionMode::Skilled.simulation_rounds(),
            mastery: ExplosionMode::Mastery.simulation_rounds(),
        },
        probability_cutoff_inverse: PROBABILITY_CUTOFF_INVERSE,
        tables,
    }
}

/// Puts the document together from its tables, stamped with the current time.
pub fn create_probability_tables(tables: Vec<ProbabilityTable>) -> (document: ProbabilityTables)
    ensures
        is_document_of(document, tables),
{
    let generated_at = current_timestamp();
    assemble_probability_tables(tables, generated_at)
}

/// Finds the table of a configuration: the position of the first table for the
/// given pool, mode and emphasis.
pub fn find_table(
    tables: &Vec<ProbabilityTable>,
    roll: u8,
    keep: u8,
    mode: ExplosionMode,
    emphasis: bool,
) -> (found: Option<usize>)
    ensures
        found matches Some(at) ==> at < tables@.len() && tables@[at as int].is_for(
            roll,
            keep,
            mode,
            emphasis,
        ),
        found matches Some(at) ==> forall|i: int|
            0 <= i < at ==> !(#[trigger] tables@[i]).is_for(roll, keep, mode, emphasis),
        found is None ==> forall|i: int|
            0 <= i < tables@.len() ==> !(#[trigger] tables@[i]).is_for(roll, keep, mode, emphasis),
{
    let mut i: usize = 0;
    while i < tables.len()
        invariant
            0 <= i <= tables@.len(),
            forall|j: int| 0 <= j < i ==> !(#[trigger] tables@[j]).is_for(roll, keep, mode, emphasis),
        decreases tables@.len() - i,
    {
        let table = &tables[i];
        if table.roll == roll && table.keep == keep && table.explosion_mode == mode
            && table.emphasis == emphasis {
            return Some(i);
        }
        i = i + 1;
    }
    None
}

/// Bytes in a kilobyte.
pub const KB: u64 = 1024;

/// Bytes in a megabyte.
pub const MB: u64 = 1_048_576;

/// The text of one decimal digit.
pub open spec fn digit_text(digit: int) -> Seq<char> {
    if digit == 0 {
        "0"@
    } else if digit == 1 {
        "1"@
    } else if digit == 2 {
        "2"@
    } else if digit == 3 {
        "3"@
    } else if digit == 4 {
        "4"@
    } else if digit == 5 {
        "5"@
    } else if digit == 6 {
        "6"@
    } else if digit == 7 {
        "7"@
    } else if digit == 8 {
        "8"@
    } else {
        "9"@
    }
}

/// A number written in decimal, without leading zeros.
pub open spec fn decimal_text(number: int) -> Seq<char>
    decreases number,
{
    if number < 10 {
        digit_text(number)
    } else {
        decimal_text(number / 10) + digit_text(number % 10)
    }
}

/// The quotient of two numbers rounded to the nearest whole number, and to the
/// even one of the two where it lies half way between them.
pub open spec fn rounded_quotient(numerator: int, denominator: int) -> int {
    let whole = numerator / denominator;
    let rest = numerator % denominator;
    if 2 * rest < denominator {
        whole
    } else if 2 * rest > denominator {
        whole + 1
    } else if whole % 2 == 0 {
        whole
    } else {
        whole + 1
    }
}

/// A size in bytes as a person reads it: in bytes below a kilobyte, in
/// kilobytes with one decimal below a megabyte, and in megabytes with two
/// decimals from there on. The last decimal is rounded.
pub open spec fn file_size_text(bytes: int) -> Seq<char> {
    if bytes < KB {
        decimal_text(bytes) + " bytes"@
    } else if bytes < MB {
        let tenths = rounded_quotient(bytes * 10, KB as int);
        decimal_text(tenths / 10) + "."@ + digit_text(tenths % 10) + " KB"@
    } else {
        let hundredths = rounded_quotient(bytes * 100, MB as int);
        decimal_text(hundredths / 100) + "."@ + digit_text(hundredths / 10 % 10) + digit_text(
            hundredths % 10,
        ) + " MB"@
    }
}

/// Divides and rounds to the nearest whole number, to the even one on a tie.
fn divide_rounded(numerator: u128, denominator: u128) -> (quotient: u128)
    requires
        0 < denominator,
        numerator <= u64::MAX * 1000,
    ensures
        quotient == rounded_quotient(numerator as int, denominator as int),
        quotient <= numerator,
{
    let whole = numerator / denominator;
    let rest = numerator % denominator;
    assert(whole * denominator + rest == numerator && whole <= whole * denominator)
        by (nonlinear_arith)
        requires
            whole == numerator / denominator,
            rest == numerator % denominator,
            0 < denominator,
            0 <= numerator,
    ;
    if 2 * rest < denominator {
        whole
    } else if 2 * rest > denominator {
        whole + 1
    } else if whole % 2 == 0 {
        whole
    } else {
        whole + 1
    }
}

/// The text of one decimal digit.
fn digit_str(digit: u128) -> (text: &'static str)
    requires
        digit < 10,
    ensures
        text@ == digit_text(digit as int),
{
    if digit == 0 {
        "0"
    } else if digit == 1 {
        "1"
    } else if digit == 2 {
        "2"
    } else if digit == 3 {
        "3"
    } else if digit == 4 {
        "4"
    } else if digit == 5 {
        "5"
    } else if digit == 6 {
        "6"
    } else if digit == 7 {
        "7"
    } else if digit == 8 {
        "8"
    } else {
        "9"
    }
}

/// Appends a number in decimal to a text.
fn push_decimal(text: &mut String, number: u128)
    ensures
        final(text)@ == old(text)@ + decimal_text(number as int),
    decreases number,
{
    if number >= 10 {
        push_decimal(text, number / 10);
    }
    text.append(digit_str(number % 10));
    assert(text@ =~= old(text)@ + decimal_text(number as int));
}

/// Writes a size in bytes as a person reads it.
///
/// Below 1024 bytes the size is given in bytes; below 1024 kilobytes in
/// kilobytes with one decimal; from there on in megabytes with two decimals.
/// The quotient is exact and its last decimal is rounded to the nearest, and
/// to the even digit on a tie.
pub fn format_file_size(bytes: u64) -> (text: String)
    ensures
        text@ == file_size_text(bytes as int),
{
    let mut text = String::new();
    if bytes < KB {
        push_decimal(&mut text, bytes as u128);
        text.append(" bytes");
        assert(text@ =~= file_size_text(bytes as int));
    } else if bytes < MB {
        let tenths = divide_rounded(bytes as u128 * 10, KB as u128);
        push_decimal(&mut text, tenths / 10);
        text.append(".");
        text.append(digit_str(tenths % 10));
        text.append(" KB");
        assert(text@ =~= file_size_text(bytes as int));
    } else {
        let hundredths = divide_rounded(bytes as u128 * 100, MB as u128);
        push_decimal(&mut text, hundredths / 100);
        text.append(".");
        text.append(digit_str(hundredths / 10 % 10));
        text.append(digit_str(hundredths % 10));
        text.append(" MB");
        assert(text@ =~= file_size_text(bytes as int));
    }
    text
}

/// The letter that stands for a mode in a label.
pub open spec fn mode_letter(mode: ExplosionMode) -> Seq<char> {
    match mode {
        ExplosionMode::Unskilled => "u"@,
        ExplosionMode::Skilled => "s"@,
        ExplosionMode::Mastery => "m"@,
    }
}

/// The short name of a configuration, such as `5k3 s` or `10k10 m+e`: dice
/// rolled, `k`, dice kept, the letter of the mode, and `+e` with emphasis.
pub open spec fn config_label_text(config: RollConfig) -> Seq<char> {
    decimal_text(config.roll as int) + "k"@ + decimal_text(config.keep as int) + " "@ + mode_letter(
        config.explosion_mode,
    ) + if config.emphasis {
        "+e"@
    } else {
        Seq::<char>::empty()
    }
}

/// Writes the short name of a configuration.
pub fn config_label(config: &RollConfig) -> (text: String)
    ensures
        text@ == config_label_text(*config),
{
    let mut text = String::new();
    push_decimal(&mut text, config.roll as u128);
    text.append("k");
    push_decimal(&mut text, config.keep as u128);
    text.append(" ");
    match config.explosion_mode {
        ExplosionMode::Unskilled => text.append("u"),
        ExplosionMode::Skilled => text.append("s"),
        ExplosionMode::Mastery => text.append("m"),
    }
    if config.emphasis {
        text.append("+e");
    }
    assert(text@ =~= config_label_text(*config));
    text
}

/// Number of digits of a number written in decimal.
pub open spec fn decimal_width(number: int) -> int
    decreases number,
{
    if number < 10 {
        1
    } else {
        decimal_width(number / 10) + 1
    }
}

/// A run of blanks.
pub open spec fn blanks(count: int) -> Seq<char>
    decreases count,
{
    if count <= 0 {
        Seq::<char>::empty()
    } else {
        blanks(count - 1) + " "@
    }
}

/// A number written in decimal, with blanks before it where it has fewer than
/// `width` digits.
pub open spec fn aligned_decimal_text(number: int, width: int) -> Seq<char> {
    blanks(width - decimal_width(number)) + decimal_text(number)
}

/// A share of a whole in percent with one decimal, rounded to the nearest and
/// to the even digit on a tie.
pub open spec fn percent_text(part: int, whole: int) -> Seq<char> {
    let tenths = rounded_quotient(part * 1000, whole);
    decimal_text(tenths / 10) + "."@ + digit_text(tenths % 10)
}

/// A share of a whole in percent with one decimal, with blanks before it where
/// it has fewer than two digits before the point.
pub open spec fn aligned_percent_text(part: int, whole: int) -> Seq<char> {
    let tenths = rounded_quotient(part * 1000, whole);
    blanks(3 - decimal_width(tenths / 10)) + percent_text(part, whole)
}

/// The line that reports progress: position and number of configurations,
/// each in a field of three, the share that is done in percent, and the short
/// name of the configuration.
pub open spec fn progress_text(current: int, total: int, config: RollConfig) -> Seq<char> {
    "["@ + aligned_decimal_text(current, 3) + "/"@ + aligned_decimal_text(total, 3) + "] ("@
        + aligned_percent_text(current, total) + "%) "@ + config_label_text(config) + " "@
}

/// Number of digits of a number written in decimal.
fn width_of(number: u128) -> (width: u64)
    ensures
        width == decimal_width(number as int),
        1 <= width <= 39,
{
    let mut width: u64 = 1;
    let mut rest: u128 = number;
    while rest >= 10
        invariant
            decimal_width(number as int) == decimal_width(rest as int) + width - 1,
            1 <= width <= 39,
            width > 1 ==> rest >= 1,
            rest * pow10(width - 1) <= u128::MAX,
        decreases rest,
    {
        proof {
            lemma_pow10_step(rest as int, (width - 1) as int);
            lemma_pow10_width((rest / 10) as int, width as int);
        }
        rest = rest / 10;
        width = width + 1;
    }
    width
}

/// Ten to the given power.
pub open spec fn pow10(power: int) -> int
    decreases power,
{
    if power <= 0 {
        1
    } else {
        10 * pow10(power - 1)
    }
}

/// Dropping a digit and raising the power of ten keeps a number below its bound.
proof fn lemma_pow10_step(rest: int, power: int)
    requires
        rest >= 10,
        power >= 0,
    ensures
        (rest / 10) * pow10(power + 1) <= rest * pow10(power),
{
    let scale = pow10(power);
    assert(pow10(power + 1) == 10 * scale);
    lemma_pow10_positive(power);
    assert((rest / 10) * (10 * scale) <= rest * scale) by (nonlinear_arith)
        requires
            rest >= 0,
            scale >= 0,
    ;
}

/// A power of ten is at least one.
proof fn lemma_pow10_positive(power: int)
    ensures
        pow10(power) >= 1,
    decreases power,
{
    if power > 0 {
        lemma_pow10_positive(power - 1);
    }
}

/// A power of ten that fits 128 bits with a leading digit is below the
/// thirty-ninth.
proof fn lemma_pow10_width(rest: int, power: int)
    requires
        0 <= power,
        rest * pow10(power) <= u128::MAX,
        rest >= 1,
    ensures
        power <= 38,
{
    if power >= 39 {
        lemma_pow10_grows(39, power);
        assert(pow10(39) == 1_000_000_000_000_000_000_000_000_000_000_000_000_000) by {
            reveal_with_fuel(pow10, 40);
        }
        assert(rest * pow10(power) >= pow10(power)) by (nonlinear_arith)
            requires
                rest >= 1,
                pow10(power) >= 0,
        ;
    }
}

/// Powers of ten grow with the power.
proof fn lemma_pow10_grows(low: int, high: int)
    requires
        0 <= low <= high,
    ensures
        pow10(low) <= pow10(high),
    decreases high - low,
{
    if high > low {
        lemma_pow10_grows(low, high - 1);
        lemma_pow10_positive(high - 1);
    }
}

/// Appends blanks to a text.
fn push_blanks(text: &mut String, count: u64)
    ensures
        final(text)@ == old(text)@ + blanks(count as int),
{
    let mut done: u64 = 0;
    assert(text@ =~= old(text)@ + blanks(0));
    while done < count
        invariant
            0 <= done <= count,
            text@ == old(text)@ + blanks(done as int),
        decreases count - done,
    {
        text.append(" ");
        done = done + 1;
        assert(text@ =~= old(text)@ + blanks(done as int));
    }
}

/// Appends a number in decimal to a text, with blanks before it where it has
/// fewer than `width` digits.
fn push_aligned_decimal(text: &mut String, number: u128, width: u64)
    ensures
        final(text)@ == old(text)@ + aligned_decimal_text(number as int, width as int),
{
    let digits = width_of(number);
    if digits < width {
        push_blanks(text, width - digits);
    } else {
        assert(blanks(width - digits) =~= Seq::<char>::empty());
    }
    push_decimal(text, number);
    assert(text@ =~= old(text)@ + aligned_decimal_text(number as int, width as int));
}

/// Writes a share of a whole in percent with one decimal: `part` is to `whole`
/// as the number written is to 100. The last digit is rounded to the nearest,
/// and to the even digit on a tie.
pub fn format_percent(part: u64, whole: u64) -> (text: String)
    requires
        whole > 0,
    ensures
        text@ == percent_text(part as int, whole as int),
{
    let tenths = divide_rounded(part as u128 * 1000, whole as u128);
    let mut text = String::new();
    push_decimal(&mut text, tenths / 10);
    text.append(".");
    text.append(digit_str(tenths % 10));
    assert(text@ =~= percent_text(part as int, whole as int));
    text
}

/// Writes the line that reports progress on configuration `current` of
/// `total`, such as `[ 17/330] (  5.2%) 3k2 m+e `.
pub fn format_progress(current: usize, total: usize, config: &RollConfig) -> (text: String)
    requires
        0 < total,
    ensures
        text@ == progress_text(current as int, total as int, *config),
{
    let mut text = String::new();
    text.append("[");
    push_aligned_decimal(&mut text, current as u128, 3);
    text.append("/");
    push_aligned_decimal(&mut text, total as u128, 3);
    text.append("] (");
    let tenths = divide_rounded(current as u128 * 1000, total as u128);
    let whole = tenths / 10;
    let digits = width_of(whole);
    if digits < 3 {
        push_blanks(&mut text, 3 - digits);
    } else {
        assert(blanks(3 - digits) =~= Seq::<char>::empty());
    }
    push_decimal(&mut text, whole);
    text.append(".");
    text.append(digit_str(tenths % 10));
    text.append("%) ");
    let label = config_label(config);
    text.append(label.as_str());
    text.append(" ");
    assert(text@ =~= progress_text(current as int, total as int, *config));
    text
}

} // verus!
