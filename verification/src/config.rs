//! The run configuration: temperatures, decay, iteration budget and the
//! selected move-generation and cooling strategies, together with the
//! key-value grammar it is read from.

use vstd::prelude::*;
use crate::cooling::CoolingMethod;
use crate::cooling::TEMP_LIMIT;
use crate::cooling::DECAY_LIMIT;
use crate::fixed::SCALE;
use crate::tour::GenerationMethod;

verus! {

/// The configuration of one annealing run, immutable for its duration.
/// All temperatures and the decay are fixed-point values (see
/// [`crate::fixed::SCALE`]).
#[derive(Clone, Copy, PartialEq, Eq, Structural, Debug)]
pub struct Config {
    pub initial_temperature: u64,
    pub minimum_temperature: u64,
    pub temperature_decay: u64,
    pub max_iterations: u64,
    pub generation_method: GenerationMethod,
    pub cooling_method: CoolingMethod,
}

impl Config {
    /// A configuration the engine accepts: a strictly positive initial
    /// temperature and decay within the supported ranges, at least one
    /// iteration, and, for the exponential schedule, decay at most one so
    /// that the schedule cools.
    pub open spec fn wf(&self) -> bool {
        &&& 1 <= self.initial_temperature <= TEMP_LIMIT
        &&& self.minimum_temperature <= TEMP_LIMIT
        &&& 1 <= self.temperature_decay <= DECAY_LIMIT
        &&& (self.cooling_method is ExponentialMultiplicativeCooling
            ==> self.temperature_decay <= SCALE)
        &&& 1 <= self.max_iterations
    }

    /// Whether the engine accepts this configuration.
    pub fn validate(&self) -> (r: bool)
        ensures
            r == self.wf(),
    {
        1 <= self.initial_temperature && self.initial_temperature <= TEMP_LIMIT
            && self.minimum_temperature <= TEMP_LIMIT && 1 <= self.temperature_decay
            && self.temperature_decay <= DECAY_LIMIT && (!matches!(
            self.cooling_method,
            CoolingMethod::ExponentialMultiplicativeCooling,
        ) || self.temperature_decay <= SCALE) && 1 <= self.max_iterations
    }
}

/// The bytes of `initial_temperature`.
pub open spec fn key_initial_temperature() -> Seq<u8> {
    seq![105u8, 110u8, 105u8, 116u8, 105u8, 97u8, 108u8, 95u8, 116u8, 101u8, 109u8, 112u8, 101u8, 114u8, 97u8, 116u8, 117u8, 114u8, 101u8]
}

/// The bytes of `minimum_temperature`.
pub open spec fn key_minimum_temperature() -> Seq<u8> {
    seq![109u8, 105u8, 110u8, 105u8, 109u8, 117u8, 109u8, 95u8, 116u8, 101u8, 109u8, 112u8, 101u8, 114u8, 97u8, 116u8, 117u8, 114u8, 101u8]
}

/// The bytes of `temperature_decay`.
pub open spec fn key_temperature_decay() -> Seq<u8> {
    seq![116u8, 101u8, 109u8, 112u8, 101u8, 114u8, 97u8, 116u8, 117u8, 114u8, 101u8, 95u8, 100u8, 101u8, 99u8, 97u8, 121u8]
}

/// The bytes of `max_iterations`.
pub open spec fn key_max_iterations() -> Seq<u8> {
    seq![109u8, 97u8, 120u8, 95u8, 105u8, 116u8, 101u8, 114u8, 97u8, 116u8, 105u8, 111u8, 110u8, 115u8]
}

/// The bytes of `generation_method`.
pub open spec fn key_generation_method() -> Seq<u8> {
    seq![103u8, 101u8, 110u8, 101u8, 114u8, 97u8, 116u8, 105u8, 111u8, 110u8, 95u8, 109u8, 101u8, 116u8, 104u8, 111u8, 100u8]
}

/// The bytes of `cooling_method`.
pub open spec fn key_cooling_method() -> Seq<u8> {
    seq![99u8, 111u8, 111u8, 108u8, 105u8, 110u8, 103u8, 95u8, 109u8, 101u8, 116u8, 104u8, 111u8, 100u8]
}

/// The bytes of `Swap`.
pub open spec fn word_swap() -> Seq<u8> {
    seq![83u8, 119u8, 97u8, 112u8]
}

/// The bytes of `Insert`.
pub open spec fn word_insert() -> Seq<u8> {
    seq![73u8, 110u8, 115u8, 101u8, 114u8, 116u8]
}

/// The bytes of `Reverse`.
pub open spec fn word_reverse() -> Seq<u8> {
    seq![82u8, 101u8, 118u8, 101u8, 114u8, 115u8, 101u8]
}

/// The bytes of `-opt`.
pub open spec fn word_opt_suffix() -> Seq<u8> {
    seq![45u8, 111u8, 112u8, 116u8]
}

/// The bytes of `ExponentialMultiplicativeCooling`.
pub open spec fn word_exponential() -> Seq<u8> {
    seq![69u8, 120u8, 112u8, 111u8, 110u8, 101u8, 110u8, 116u8, 105u8, 97u8, 108u8, 77u8, 117u8, 108u8, 116u8, 105u8, 112u8, 108u8, 105u8, 99u8, 97u8, 116u8, 105u8, 118u8, 101u8, 67u8, 111u8, 111u8, 108u8, 105u8, 110u8, 103u8]
}

/// The bytes of `LogarithmicMultiplicativeCooling`.
pub open spec fn word_logarithmic() -> Seq<u8> {
    seq![76u8, 111u8, 103u8, 97u8, 114u8, 105u8, 116u8, 104u8, 109u8, 105u8, 99u8, 77u8, 117u8, 108u8, 116u8, 105u8, 112u8, 108u8, 105u8, 99u8, 97u8, 116u8, 105u8, 118u8, 101u8, 67u8, 111u8, 111u8, 108u8, 105u8, 110u8, 103u8]
}

/// The bytes of `LinearMultiplicativeCooling`.
pub open spec fn word_linear() -> Seq<u8> {
    seq![76u8, 105u8, 110u8, 101u8, 97u8, 114u8, 77u8, 117u8, 108u8, 116u8, 105u8, 112u8, 108u8, 105u8, 99u8, 97u8, 116u8, 105u8, 118u8, 101u8, 67u8, 111u8, 111u8, 108u8, 105u8, 110u8, 103u8]
}

/// The bytes of `QuadraticMultiplicativeCooling`.
pub open spec fn word_quadratic() -> Seq<u8> {
    seq![81u8, 117u8, 97u8, 100u8, 114u8, 97u8, 116u8, 105u8, 99u8, 77u8, 117u8, 108u8, 116u8, 105u8, 112u8, 108u8, 105u8, 99u8, 97u8, 116u8, 105u8, 118u8, 101u8, 67u8, 111u8, 111u8, 108u8, 105u8, 110u8, 103u8]
}


/// Which byte counts as trimmable whitespace in the key-value grammar:
/// space, tab, carriage return.
pub open spec fn is_space(b: u8) -> bool {
    b == 32u8 || b == 9u8 || b == 13u8
}

/// `s` with leading whitespace removed.
pub open spec fn trim_start(s: Seq<u8>) -> Seq<u8>
    decreases s.len(),
{
    if s.len() > 0 && is_space(s.first()) {
        trim_start(s.drop_first())
    } else {
        s
    }
}

/// `s` with trailing whitespace removed.
pub open spec fn trim_end(s: Seq<u8>) -> Seq<u8>
    decreases s.len(),
{
    if s.len() > 0 && is_space(s.last()) {
        trim_end(s.drop_last())
    } else {
        s
    }
}

/// `s` with whitespace removed at both ends.
pub open spec fn trimmed(s: Seq<u8>) -> Seq<u8> {
    trim_end(trim_start(s))
}

/// How often `b` occurs in `s`.
pub open spec fn count_byte(s: Seq<u8>, b: u8) -> int
    decreases s.len(),
{
    if s.len() == 0 {
        0
    } else {
        count_byte(s.drop_last(), b) + if s.last() == b {
            1int
        } else {
            0int
        }
    }
}

/// The index of the first occurrence of `b` in `s` (its length if absent).
pub open spec fn first_pos(s: Seq<u8>, b: u8) -> int
    decreases s.len(),
{
    if s.len() == 0 {
        0
    } else if s.first() == b {
        0
    } else {
        1 + first_pos(s.drop_first(), b)
    }
}

/// All bytes are ASCII digits.
pub open spec fn all_digits(s: Seq<u8>) -> bool {
    forall|i: int| 0 <= i < s.len() ==> 48 <= #[trigger] s[i] <= 57
}

/// The number the digit string denotes.
pub open spec fn digits_val(s: Seq<u8>) -> int
    decreases s.len(),
{
    if s.len() == 0 {
        0
    } else {
        digits_val(s.drop_last()) * 10 + (s.last() - 48)
    }
}

/// 10^k.
pub open spec fn pow10(k: nat) -> int
    decreases k,
{
    if k == 0 {
        1
    } else {
        10 * pow10((k - 1) as nat)
    }
}

/// The fixed-point value a decimal literal denotes: an integer part of at
/// most 12 digits, optionally a dot and a fractional part of at most 6
/// digits, at least one digit in all. Anything else is unparsable.
pub open spec fn fixed_value(s: Seq<u8>) -> Option<int> {
    if count_byte(s, 46u8) == 0 {
        if 1 <= s.len() <= 12 && all_digits(s) {
            Some(digits_val(s) * (SCALE as int))
        } else {
            None
        }
    } else if count_byte(s, 46u8) == 1 {
        let d = first_pos(s, 46u8);
        let ip = s.subrange(0, d);
        let fp = s.subrange(d + 1, s.len() as int);
        if ip.len() <= 12 && fp.len() <= 6 && ip.len() + fp.len() >= 1 && all_digits(ip)
            && all_digits(fp) {
            Some(digits_val(ip) * (SCALE as int) + digits_val(fp) * pow10((6 - fp.len()) as nat))
        } else {
            None
        }
    } else {
        None
    }
}

/// The value an integer literal of at most 18 digits denotes.
pub open spec fn integer_value(s: Seq<u8>) -> Option<int> {
    if 1 <= s.len() <= 18 && all_digits(s) {
        Some(digits_val(s))
    } else {
        None
    }
}

/// The move-generation strategy a value denotes: one of the three named
/// strategies, or `<k>-opt` with `k` of at most 9 digits.
pub open spec fn generation_value(s: Seq<u8>) -> Option<GenerationMethod> {
    if s == word_swap() {
        Some(GenerationMethod::Swap)
    } else if s == word_insert() {
        Some(GenerationMethod::Insert)
    } else if s == word_reverse() {
        Some(GenerationMethod::Reverse)
    } else if s.len() >= 5 && s.subrange(s.len() - 4, s.len() as int) == word_opt_suffix()
        && s.len() - 4 <= 9 && all_digits(s.subrange(0, s.len() - 4)) {
        Some(GenerationMethod::Kopt(digits_val(s.subrange(0, s.len() - 4)) as usize))
    } else {
        None
    }
}

/// The cooling schedule a value denotes.
pub open spec fn cooling_value(s: Seq<u8>) -> Option<CoolingMethod> {
    if s == word_exponential() {
        Some(CoolingMethod::ExponentialMultiplicativeCooling)
    } else if s == word_logarithmic() {
        Some(CoolingMethod::LogarithmicMultiplicativeCooling)
    } else if s == word_linear() {
        Some(CoolingMethod::LinearMultiplicativeCooling)
    } else if s == word_quadratic() {
        Some(CoolingMethod::QuadraticMultiplicativeCooling)
    } else {
        None
    }
}

/// A configuration error, with the offending line where one exists.
#[derive(Clone, Copy, PartialEq, Eq, Structural, Debug)]
pub enum ConfigError {
    /// A line holds a key the grammar does not know.
    UnknownKey(u64),
    /// A line holds a value its key cannot parse.
    UnparsableValue(u64),
    /// A required key never appeared.
    MissingKey,
    /// All keys parsed, but a value is outside the engine's accepted range.
    InvalidValue,
}

/// The accumulating state of a configuration parse: the values seen so
/// far, and the first error if one occurred.
#[derive(Clone, Copy, PartialEq, Eq, Structural, Debug)]
pub struct ParseState {
    pub initial_temperature: Option<u64>,
    pub minimum_temperature: Option<u64>,
    pub temperature_decay: Option<u64>,
    pub max_iterations: Option<u64>,
    pub generation_method: Option<GenerationMethod>,
    pub cooling_method: Option<CoolingMethod>,
    pub error: Option<ConfigError>,
}

/// The state before any line was read.
pub open spec fn empty_state() -> ParseState {
    ParseState {
        initial_temperature: None,
        minimum_temperature: None,
        temperature_decay: None,
        max_iterations: None,
        generation_method: None,
        cooling_method: None,
        error: None,
    }
}

/// One line applied to the state: lines without exactly one `=` are
/// skipped; otherwise the trimmed key selects the field and the trimmed
/// value is parsed into it, a later occurrence replacing an earlier one.
/// The first error sticks.
pub open spec fn line_step(st: ParseState, line: Seq<u8>, idx: int) -> ParseState {
    if st.error is Some {
        st
    } else if count_byte(line, 61u8) != 1 {
        st
    } else {
        let key = trimmed(line.subrange(0, first_pos(line, 61u8)));
        let val = trimmed(line.subrange(first_pos(line, 61u8) + 1, line.len() as int));
        if key == key_initial_temperature() {
            match fixed_value(val) {
                Some(v) => ParseState { initial_temperature: Some(v as u64), ..st },
                None => ParseState { error: Some(ConfigError::UnparsableValue(idx as u64)), ..st },
            }
        } else if key == key_minimum_temperature() {
            match fixed_value(val) {
                Some(v) => ParseState { minimum_temperature: Some(v as u64), ..st },
                None => ParseState { error: Some(ConfigError::UnparsableValue(idx as u64)), ..st },
            }
        } else if key == key_temperature_decay() {
            match fixed_value(val) {
                Some(v) => ParseState { temperature_decay: Some(v as u64), ..st },
                None => ParseState { error: Some(ConfigError::UnparsableValue(idx as u64)), ..st },
            }
        } else if key == key_max_iterations() {
            match integer_value(val) {
                Some(v) => ParseState { max_iterations: Some(v as u64), ..st },
                None => ParseState { error: Some(ConfigError::UnparsableValue(idx as u64)), ..st },
            }
        } else if key == key_generation_method() {
            match generation_value(val) {
                Some(g) => ParseState { generation_method: Some(g), ..st },
                None => ParseState { error: Some(ConfigError::UnparsableValue(idx as u64)), ..st },
            }
        } else if key == key_cooling_method() {
            match cooling_value(val) {
                Some(c) => ParseState { cooling_method: Some(c), ..st },
                None => ParseState { error: Some(ConfigError::UnparsableValue(idx as u64)), ..st },
            }
        } else {
            ParseState { error: Some(ConfigError::UnknownKey(idx as u64)), ..st }
        }
    }
}

/// The state after the first `k` lines.
pub open spec fn state_after(lines: Seq<Seq<u8>>, k: int) -> ParseState
    decreases k,
{
    if k <= 0 {
        empty_state()
    } else {
        line_step(state_after(lines, k - 1), lines[k - 1], k - 1)
    }
}

/// What a full parse of the given lines yields: the first line error if
/// any, else a missing-key error if a required key never appeared, else
/// the configuration, rejected as invalid when outside the engine's
/// accepted ranges.
pub open spec fn parse_config_spec(lines: Seq<Seq<u8>>) -> Result<Config, ConfigError> {
    let st = state_after(lines, lines.len() as int);
    match st.error {
        Some(e) => Err(e),
        None => match (st.initial_temperature, st.minimum_temperature, st.temperature_decay, st.max_iterations, st.generation_method, st.cooling_method) {
            (Some(it), Some(mt), Some(td), Some(mi), Some(gm), Some(cm)) => {
                let c = Config {
                    initial_temperature: it,
                    minimum_temperature: mt,
                    temperature_decay: td,
                    max_iterations: mi,
                    generation_method: gm,
                    cooling_method: cm,
                };
                if c.wf() {
                    Ok(c)
                } else {
                    Err(ConfigError::InvalidValue)
                }
            },
            _ => Err(ConfigError::MissingKey),
        },
    }
}

fn key_initial_temperature_bytes() -> (r: Vec<u8>)
    ensures
        r@ == key_initial_temperature(),
{
    let mut v: Vec<u8> = Vec::new();
    v.push(105u8);
    v.push(110u8);
    v.push(105u8);
    v.push(116u8);
    v.push(105u8);
    v.push(97u8);
    v.push(108u8);
    v.push(95u8);
    v.push(116u8);
    v.push(101u8);
    v.push(109u8);
    v.push(112u8);
    v.push(101u8);
    v.push(114u8);
    v.push(97u8);
    v.push(116u8);
    v.push(117u8);
    v.push(114u8);
    v.push(101u8);
    proof {
        assert(v@ =~= key_initial_temperature());
    }
    v
}

fn key_minimum_temperature_bytes() -> (r: Vec<u8>)
    ensures
        r@ == key_minimum_temperature(),
{
    let mut v: Vec<u8> = Vec::new();
    v.push(109u8);
    v.push(105u8);
    v.push(110u8);
    v.push(105u8);
    v.push(109u8);
    v.push(117u8);
    v.push(109u8);
    v.push(95u8);
    v.push(116u8);
    v.push(101u8);
    v.push(109u8);
    v.push(112u8);
    v.push(101u8);
    v.push(114u8);
    v.push(97u8);
    v.push(116u8);
    v.push(117u8);
    v.push(114u8);
    v.push(101u8);
    proof {
        assert(v@ =~= key_minimum_temperature());
    }
    v
}

fn key_temperature_decay_bytes() -> (r: Vec<u8>)
    ensures
        r@ == key_temperature_decay(),
{
    let mut v: Vec<u8> = Vec::new();
    v.push(116u8);
    v.push(101u8);
    v.push(109u8);
    v.push(112u8);
    v.push(101u8);
    v.push(114u8);
    v.push(97u8);
    v.push(116u8);
    v.push(117u8);
    v.push(114u8);
    v.push(101u8);
    v.push(95u8);
    v.push(100u8);
    v.push(101u8);
    v.push(99u8);
    v.push(97u8);
    v.push(121u8);
    proof {
        assert(v@ =~= key_temperature_decay());
    }
    v
}

fn key_max_iterations_bytes() -> (r: Vec<u8>)
    ensures
        r@ == key_max_iterations(),
{
    let mut v: Vec<u8> = Vec::new();
    v.push(109u8);
    v.push(97u8);
    v.push(120u8);
    v.push(95u8);
    v.push(105u8);
    v.push(116u8);
    v.push(101u8);
    v.push(114u8);
    v.push(97u8);
    v.push(116u8);
    v.push(105u8);
    v.push(111u8);
    v.push(110u8);
    v.push(115u8);
    proof {
        assert(v@ =~= key_max_iterations());
    }
    v
}

fn key_generation_method_bytes() -> (r: Vec<u8>)
    ensures
        r@ == key_generation_method(),
{
    let mut v: Vec<u8> = Vec::new();
    v.push(103u8);
    v.push(101u8);
    v.push(110u8);
    v.push(101u8);
    v.push(114u8);
    v.push(97u8);
    v.push(116u8);
    v.push(105u8);
    v.push(111u8);
    v.push(110u8);
    v.push(95u8);
    v.push(109u8);
    v.push(101u8);
    v.push(116u8);
    v.push(104u8);
    v.push(111u8);
    v.push(100u8);
    proof {
        assert(v@ =~= key_generation_method());
    }
    v
}

fn key_cooling_method_bytes() -> (r: Vec<u8>)
    ensures
        r@ == key_cooling_method(),
{
    let mut v: Vec<u8> = Vec::new();
    v.push(99u8);
    v.push(111u8);
    v.push(111u8);
    v.push(108u8);
    v.push(105u8);
    v.push(110u8);
    v.push(103u8);
    v.push(95u8);
    v.push(109u8);
    v.push(101u8);
    v.push(116u8);
    v.push(104u8);
    v.push(111u8);
    v.push(100u8);
    proof {
        assert(v@ =~= key_cooling_method());
    }
    v
}

fn word_swap_bytes() -> (r: Vec<u8>)
    ensures
        r@ == word_swap(),
{
    let mut v: Vec<u8> = Vec::new();
    v.push(83u8);
    v.push(119u8);
    v.push(97u8);
    v.push(112u8);
    proof {
        assert(v@ =~= word_swap());
    }
    v
}

fn word_insert_bytes() -> (r: Vec<u8>)
    ensures
        r@ == word_insert(),
{
    let mut v: Vec<u8> = Vec::new();
    v.push(73u8);
    v.push(110u8);
    v.push(115u8);
    v.push(101u8);
    v.push(114u8);
    v.push(116u8);
    proof {
        assert(v@ =~= word_insert());
    }
    v
}

fn word_reverse_bytes() -> (r: Vec<u8>)
    ensures
        r@ == word_reverse(),
{
    let mut v: Vec<u8> = Vec::new();
    v.push(82u8);
    v.push(101u8);
    v.push(118u8);
    v.push(101u8);
    v.push(114u8);
    v.push(115u8);
    v.push(101u8);
    proof {
        assert(v@ =~= word_reverse());
    }
    v
}

fn word_opt_suffix_bytes() -> (r: Vec<u8>)
    ensures
        r@ == word_opt_suffix(),
{
    let mut v: Vec<u8> = Vec::new();
    v.push(45u8);
    v.push(111u8);
    v.push(112u8);
    v.push(116u8);
    proof {
        assert(v@ =~= word_opt_suffix());
    }
    v
}

fn word_exponential_bytes() -> (r: Vec<u8>)
    ensures
        r@ == word_exponential(),
{
    let mut v: Vec<u8> = Vec::new();
    v.push(69u8);
    v.push(120u8);
    v.push(112u8);
    v.push(111u8);
    v.push(110u8);
    v.push(101u8);
    v.push(110u8);
    v.push(116u8);
    v.push(105u8);
    v.push(97u8);
    v.push(108u8);
    v.push(77u8);
    v.push(117u8);
    v.push(108u8);
    v.push(116u8);
    v.push(105u8);
    v.push(112u8);
    v.push(108u8);
    v.push(105u8);
    v.push(99u8);
    v.push(97u8);
    v.push(116u8);
    v.push(105u8);
    v.push(118u8);
    v.push(101u8);
    v.push(67u8);
    v.push(111u8);
    v.push(111u8);
    v.push(108u8);
    v.push(105u8);
    v.push(110u8);
    v.push(103u8);
    proof {
        assert(v@ =~= word_exponential());
    }
    v
}

fn word_logarithmic_bytes() -> (r: Vec<u8>)
    ensures
        r@ == word_logarithmic(),
{
    let mut v: Vec<u8> = Vec::new();
    v.push(76u8);
    v.push(111u8);
    v.push(103u8);
    v.push(97u8);
    v.push(114u8);
    v.push(105u8);
    v.push(116u8);
    v.push(104u8);
    v.push(109u8);
    v.push(105u8);
    v.push(99u8);
    v.push(77u8);
    v.push(117u8);
    v.push(108u8);
    v.push(116u8);
    v.push(105u8);
    v.push(112u8);
    v.push(108u8);
    v.push(105u8);
    v.push(99u8);
    v.push(97u8);
    v.push(116u8);
    v.push(105u8);
    v.push(118u8);
    v.push(101u8);
    v.push(67u8);
    v.push(111u8);
    v.push(111u8);
    v.push(108u8);
    v.push(105u8);
    v.push(110u8);
    v.push(103u8);
    proof {
        assert(v@ =~= word_logarithmic());
    }
    v
}

fn word_linear_bytes() -> (r: Vec<u8>)
    ensures
        r@ == word_linear(),
{
    let mut v: Vec<u8> = Vec::new();
    v.push(76u8);
    v.push(105u8);
    v.push(110u8);
    v.push(101u8);
    v.push(97u8);
    v.push(114u8);
    v.push(77u8);
    v.push(117u8);
    v.push(108u8);
    v.push(116u8);
    v.push(105u8);
    v.push(112u8);
    v.push(108u8);
    v.push(105u8);
    v.push(99u8);
    v.push(97u8);
    v.push(116u8);
    v.push(105u8);
    v.push(118u8);
    v.push(101u8);
    v.push(67u8);
    v.push(111u8);
    v.push(111u8);
    v.push(108u8);
    v.push(105u8);
    v.push(110u8);
    v.push(103u8);
    proof {
        assert(v@ =~= word_linear());
    }
    v
}

fn word_quadratic_bytes() -> (r: Vec<u8>)
    ensures
        r@ == word_quadratic(),
{
    let mut v: Vec<u8> = Vec::new();
    v.push(81u8);
    v.push(117u8);
    v.push(97u8);
    v.push(100u8);
    v.push(114u8);
    v.push(97u8);
    v.push(116u8);
    v.push(105u8);
    v.push(99u8);
    v.push(77u8);
    v.push(117u8);
    v.push(108u8);
    v.push(116u8);
    v.push(105u8);
    v.push(112u8);
    v.push(108u8);
    v.push(105u8);
    v.push(99u8);
    v.push(97u8);
    v.push(116u8);
    v.push(105u8);
    v.push(118u8);
    v.push(101u8);
    v.push(67u8);
    v.push(111u8);
    v.push(111u8);
    v.push(108u8);
    v.push(105u8);
    v.push(110u8);
    v.push(103u8);
    proof {
        assert(v@ =~= word_quadratic());
    }
    v
}


proof fn lemma_count_step(s: Seq<u8>, b: u8, k: int)
    requires
        0 <= k < s.len(),
    ensures
        count_byte(s.subrange(0, k + 1), b) == count_byte(s.subrange(0, k), b) + if s[k] == b {
            1int
        } else {
            0int
        },
{
    assert(s.subrange(0, k + 1).drop_last() =~= s.subrange(0, k));
    assert(s.subrange(0, k + 1).last() == s[k]);
}

proof fn lemma_first_pos_of(s: Seq<u8>, b: u8, p: int)
    requires
        0 <= p < s.len(),
        s[p] == b,
        forall|j: int| 0 <= j < p ==> s[j] != b,
    ensures
        first_pos(s, b) == p,
    decreases p,
{
    if p > 0 {
        assert(s.first() != b);
        assert(s.drop_first()[p - 1] == b);
        lemma_first_pos_of(s.drop_first(), b, p - 1);
    }
}

/// A digit string of length n denotes a value below 10^n.
proof fn lemma_digits_val_bound(s: Seq<u8>)
    requires
        all_digits(s),
    ensures
        0 <= digits_val(s) < pow10(s.len()),
    decreases s.len(),
{
    if s.len() > 0 {
        assert(all_digits(s.drop_last()));
        lemma_digits_val_bound(s.drop_last());
        let d = digits_val(s.drop_last());
        let p = pow10((s.len() - 1) as nat);
        assert(d * 10 + (s.last() - 48) < 10 * p) by (nonlinear_arith)
            requires
                0 <= d < p,
                0 <= s.last() - 48 <= 9,
        ;
    }
}

proof fn lemma_pow10_values()
    ensures
        pow10(6) == 1_000_000,
        pow10(9) == 1_000_000_000,
        pow10(12) == 1_000_000_000_000,
        pow10(17) == 100_000_000_000_000_000,
        pow10(18) == 1_000_000_000_000_000_000,
{
    reveal_with_fuel(pow10, 20);
}

proof fn lemma_pow10_adds(a: nat, b: nat)
    ensures
        pow10(a) * pow10(b) == pow10(a + b),
    decreases a,
{
    if a == 0 {
        assert(1 * pow10(b) == pow10(b)) by (nonlinear_arith);
    } else {
        lemma_pow10_adds((a - 1) as nat, b);
        assert((10 * pow10((a - 1) as nat)) * pow10(b) == 10 * (pow10((a - 1) as nat) * pow10(
        b))) by (nonlinear_arith);
    }
}

fn is_space_byte(b: u8) -> (r: bool)
    ensures
        r == is_space(b),
{
    b == 32 || b == 9 || b == 13
}

/// Whether two byte strings are equal.
fn bytes_eq(a: &Vec<u8>, b: &Vec<u8>) -> (r: bool)
    ensures
        r == (a@ == b@),
{
    if a.len() != b.len() {
        return false;
    }
    let n = a.len();
    let mut i: usize = 0;
    while i < n
        invariant
            i <= n,
            n == a@.len(),
            n == b@.len(),
            forall|j: int| 0 <= j < i ==> a@[j] == b@[j],
        decreases n - i,
    {
        if a[i] != b[i] {
            return false;
        }
        i = i + 1;
    }
    proof {
        assert(a@ =~= b@);
    }
    true
}

/// The bytes of `line` from `lo` (inclusive) to `hi` (exclusive).
fn copy_range(line: &Vec<u8>, lo: usize, hi: usize) -> (r: Vec<u8>)
    requires
        lo <= hi <= line@.len(),
    ensures
        r@ == line@.subrange(lo as int, hi as int),
{
    let mut r: Vec<u8> = Vec::new();
    let mut i: usize = lo;
    while i < hi
        invariant
            lo <= i <= hi <= line@.len(),
            r@ =~= line@.subrange(lo as int, i as int),
        decreases hi - i,
    {
        r.push(line[i]);
        i = i + 1;
    }
    proof {
        assert(r@ =~= line@.subrange(lo as int, hi as int));
    }
    r
}

/// `line` with whitespace removed at both ends.
fn trim_slice(line: &Vec<u8>) -> (r: Vec<u8>)
    ensures
        r@ == trimmed(line@),
{
    let n = line.len();
    let mut lo: usize = 0;
    proof {
        assert(line@.subrange(0, n as int) =~= line@);
    }
    while lo < n && is_space_byte(line[lo])
        invariant
            lo <= n,
            n == line@.len(),
            trim_start(line@) == trim_start(line@.subrange(lo as int, n as int)),
        decreases n - lo,
    {
        proof {
            let sub = line@.subrange(lo as int, n as int);
            assert(sub.first() == line@[lo as int]);
            assert(sub.drop_first() =~= line@.subrange(lo as int + 1, n as int));
        }
        lo = lo + 1;
    }
    proof {
        let sub = line@.subrange(lo as int, n as int);
        if lo < n {
            assert(sub.first() == line@[lo as int]);
        }
        assert(trim_start(line@) == sub);
    }
    let mut hi: usize = n;
    while hi > lo && is_space_byte(line[hi - 1])
        invariant
            lo <= hi <= n,
            n == line@.len(),
            trim_start(line@) == line@.subrange(lo as int, n as int),
            trim_end(line@.subrange(lo as int, n as int)) == trim_end(
                line@.subrange(lo as int, hi as int),
            ),
        decreases hi,
    {
        proof {
            let sub = line@.subrange(lo as int, hi as int);
            assert(sub.last() == line@[hi - 1]);
            assert(sub.drop_last() =~= line@.subrange(lo as int, hi as int - 1));
        }
        hi = hi - 1;
    }
    proof {
        let sub = line@.subrange(lo as int, hi as int);
        if hi > lo {
            assert(sub.last() == line@[hi - 1]);
        }
        assert(trimmed(line@) == sub);
    }
    copy_range(line, lo, hi)
}

/// How often `b` occurs, and where it occurs first.
fn scan_byte(v: &Vec<u8>, b: u8) -> (r: (usize, usize))
    ensures
        r.0 == count_byte(v@, b),
        r.0 >= 1 ==> r.1 == first_pos(v@, b) && (r.1 as int) < v@.len(),
{
    let n = v.len();
    let mut count: usize = 0;
    let mut first: usize = 0;
    let mut i: usize = 0;
    while i < n
        invariant
            i <= n,
            n == v@.len(),
            count <= i,
            count == count_byte(v@.subrange(0, i as int), b),
            count == 0 ==> (forall|j: int| 0 <= j < i ==> v@[j] != b),
            count >= 1 ==> (first as int) < i && v@[first as int] == b && (forall|j: int|
                0 <= j < first ==> v@[j] != b),
        decreases n - i,
    {
        proof {
            lemma_count_step(v@, b, i as int);
        }
        if v[i] == b {
            if count == 0 {
                first = i;
            }
            count = count + 1;
        }
        i = i + 1;
    }
    proof {
        assert(v@.subrange(0, n as int) =~= v@);
        if count >= 1 {
            lemma_first_pos_of(v@, b, first as int);
        }
    }
    (count, first)
}

/// Whether every byte is an ASCII digit.
fn check_all_digits(v: &Vec<u8>) -> (r: bool)
    ensures
        r == all_digits(v@),
{
    let n = v.len();
    let mut i: usize = 0;
    while i < n
        invariant
            i <= n,
            n == v@.len(),
            forall|j: int| 0 <= j < i ==> 48 <= #[trigger] v@[j] <= 57,
        decreases n - i,
    {
        let c = v[i];
        if c < 48 || c > 57 {
            return false;
        }
        i = i + 1;
    }
    true
}

/// The value of a digit string of at most 18 digits.
fn digits_to_u64(v: &Vec<u8>) -> (r: u64)
    requires
        all_digits(v@),
        v@.len() <= 18,
    ensures
        r == digits_val(v@),
{
    let n = v.len();
    let mut val: u64 = 0;
    let mut i: usize = 0;
    proof {
        lemma_pow10_values();
    }
    while i < n
        invariant
            i <= n,
            n == v@.len(),
            n <= 18,
            all_digits(v@),
            val == digits_val(v@.subrange(0, i as int)),
            val < pow10(i as nat),
            pow10(17) == 100_000_000_000_000_000,
            pow10(18) == 1_000_000_000_000_000_000,
        decreases n - i,
    {
        proof {
            assert(v@.subrange(0, i as int + 1).drop_last() =~= v@.subrange(0, i as int));
            assert(v@.subrange(0, i as int + 1).last() == v@[i as int]);
            if (i as int) < 17 {
                vstd::arithmetic::power::lemma_pow_increases(10, i as nat, 17);
            }
            assert(pow10(i as nat) <= pow10(17)) by {
                lemma_pow10_monotone(i as nat, 18);
                lemma_pow10_monotone(i as nat, 17);
            }
            assert(val * 10 + 9 < pow10((i + 1) as nat)) by (nonlinear_arith)
                requires
                    0 <= val,
                    (val as int) < pow10(i as nat),
                    pow10((i + 1) as nat) == 10 * pow10(i as nat),
            ;
        }
        let c = v[i];
        val = val * 10 + ((c - 48) as u64);
        i = i + 1;
    }
    proof {
        assert(v@.subrange(0, n as int) =~= v@);
    }
    val
}

proof fn lemma_pow10_monotone(a: nat, b: nat)
    requires
        a <= b,
    ensures
        pow10(a) <= pow10(b),
        pow10(a) >= 1,
    decreases b,
{
    if a < b {
        lemma_pow10_monotone(a, (b - 1) as nat);
        assert(pow10(b) == 10 * pow10((b - 1) as nat));
    } else if b > 0 {
        lemma_pow10_monotone((a - 1) as nat, (b - 1) as nat);
    }
}

/// 10^k as a machine integer, for k at most 18.
fn pow10_u64(k: usize) -> (r: u64)
    requires
        k <= 18,
    ensures
        r == pow10(k as nat),
{
    proof {
        lemma_pow10_values();
    }
    let mut r: u64 = 1;
    let mut i: usize = 0;
    while i < k
        invariant
            i <= k,
            k <= 18,
            r == pow10(i as nat),
            pow10(18) == 1_000_000_000_000_000_000,
        decreases k - i,
    {
        proof {
            lemma_pow10_monotone((i + 1) as nat, 18);
        }
        r = r * 10;
        i = i + 1;
    }
    r
}

/// Parses a decimal literal into its fixed-point value, exactly as
/// [`fixed_value`] describes.
pub fn parse_fixed_value(v: &Vec<u8>) -> (r: Option<u64>)
    ensures
        match (r, fixed_value(v@)) {
            (Some(a), Some(b)) => a == b,
            (None, None) => true,
            _ => false,
        },
{
    proof {
        lemma_pow10_values();
    }
    let n = v.len();
    let (dots, dpos) = scan_byte(v, 46);
    if dots == 0 {
        if 1 <= n && n <= 12 && check_all_digits(v) {
            proof {
                lemma_digits_val_bound(v@);
                lemma_pow10_monotone(v@.len(), 12);
            }
            let whole = digits_to_u64(v);
            Some(whole * SCALE)
        } else {
            None
        }
    } else if dots == 1 {
        let ip = copy_range(v, 0, dpos);
        let fp = copy_range(v, dpos + 1, n);
        if ip.len() <= 12 && fp.len() <= 6 && ip.len() + fp.len() >= 1 && check_all_digits(&ip)
            && check_all_digits(&fp) {
            proof {
                lemma_digits_val_bound(ip@);
                lemma_digits_val_bound(fp@);
                lemma_pow10_monotone(ip@.len(), 12);
                lemma_pow10_adds(fp@.len(), (6 - fp@.len()) as nat);
            }
            let ipv = digits_to_u64(&ip);
            let fpv = digits_to_u64(&fp);
            let scale_rest = pow10_u64(6 - fp.len());
            proof {
                assert((fpv as int) * (scale_rest as int) < 1_000_000) by (nonlinear_arith)
                    requires
                        0 <= fpv as int,
                        0 <= scale_rest as int,
                        (fpv as int) < pow10(fp@.len()),
                        (fpv as int) * (scale_rest as int) == (fpv as int) * (scale_rest as int),
                        pow10(fp@.len()) * (scale_rest as int) == 1_000_000,
                ;
            }
            Some(ipv * SCALE + fpv * scale_rest)
        } else {
            None
        }
    } else {
        None
    }
}

/// Parses an integer literal, exactly as [`integer_value`] describes.
pub fn parse_integer_value(v: &Vec<u8>) -> (r: Option<u64>)
    ensures
        match (r, integer_value(v@)) {
            (Some(a), Some(b)) => a == b,
            (None, None) => true,
            _ => false,
        },
{
    let n = v.len();
    if 1 <= n && n <= 18 && check_all_digits(v) {
        Some(digits_to_u64(v))
    } else {
        None
    }
}

/// Parses a move-generation strategy, exactly as [`generation_value`]
/// describes.
pub fn parse_generation_value(v: &Vec<u8>) -> (r: Option<GenerationMethod>)
    ensures
        match (r, generation_value(v@)) {
            (Some(a), Some(b)) => a == b,
            (None, None) => true,
            _ => false,
        },
{
    if bytes_eq(v, &word_swap_bytes()) {
        return Some(GenerationMethod::Swap);
    }
    if bytes_eq(v, &word_insert_bytes()) {
        return Some(GenerationMethod::Insert);
    }
    if bytes_eq(v, &word_reverse_bytes()) {
        return Some(GenerationMethod::Reverse);
    }
    let n = v.len();
    if n >= 5 {
        let suffix = copy_range(v, n - 4, n);
        if bytes_eq(&suffix, &word_opt_suffix_bytes()) {
            let digits = copy_range(v, 0, n - 4);
            if digits.len() <= 9 && check_all_digits(&digits) {
                proof {
                    lemma_digits_val_bound(digits@);
                    lemma_pow10_monotone(digits@.len(), 9);
                    lemma_pow10_values();
                }
                let k = digits_to_u64(&digits);
                return Some(GenerationMethod::Kopt(k as usize));
            }
        }
    }
    None
}

/// Parses a cooling schedule name, exactly as [`cooling_value`] describes.
pub fn parse_cooling_value(v: &Vec<u8>) -> (r: Option<CoolingMethod>)
    ensures
        match (r, cooling_value(v@)) {
            (Some(a), Some(b)) => a == b,
            (None, None) => true,
            _ => false,
        },
{
    if bytes_eq(v, &word_exponential_bytes()) {
        Some(CoolingMethod::ExponentialMultiplicativeCooling)
    } else if bytes_eq(v, &word_logarithmic_bytes()) {
        Some(CoolingMethod::LogarithmicMultiplicativeCooling)
    } else if bytes_eq(v, &word_linear_bytes()) {
        Some(CoolingMethod::LinearMultiplicativeCooling)
    } else if bytes_eq(v, &word_quadratic_bytes()) {
        Some(CoolingMethod::QuadraticMultiplicativeCooling)
    } else {
        None
    }
}

/// Parses a configuration from its lines, given as byte strings, exactly
/// as [`parse_config_spec`] describes: the first offending line's error if
/// one exists, a missing-key error if a required key never appears, an
/// invalid-value error for values outside the engine's accepted ranges,
/// and the configuration otherwise.
pub fn parse_config(lines: &Vec<Vec<u8>>) -> (r: Result<Config, ConfigError>)
    ensures
        r == parse_config_spec(lines.deep_view()),
{
    let ghost ld = lines.deep_view();
    let n = lines.len();
    proof {
        assert(ld.len() == n);
        assert forall|x: int| 0 <= x < n implies #[trigger] ld[x] == lines@[x]@ by {
            assert(lines@[x].deep_view() =~= lines@[x]@);
        }
    }
    let mut st = ParseState {
        initial_temperature: None,
        minimum_temperature: None,
        temperature_decay: None,
        max_iterations: None,
        generation_method: None,
        cooling_method: None,
        error: None,
    };
    let mut i: usize = 0;
    while i < n
        invariant
            i <= n,
            n == lines@.len(),
            ld == lines.deep_view(),
            forall|x: int| 0 <= x < n ==> #[trigger] ld[x] == lines@[x]@,
            st == state_after(ld, i as int),
        decreases n - i,
    {
        let line = &lines[i];
        if st.error.is_none() {
            let (eqs, epos) = scan_byte(line, 61);
            if eqs == 1 {
                let line_n = line.len();
                assert(epos < line_n);
                let keyv = copy_range(line, 0, epos);
                let key = trim_slice(&keyv);
                let valv = copy_range(line, epos + 1, line_n);
                let val = trim_slice(&valv);
                if bytes_eq(&key, &key_initial_temperature_bytes()) {
                    match parse_fixed_value(&val) {
                        Some(x) => {
                            st = ParseState { initial_temperature: Some(x), ..st };
                        },
                        None => {
                            st = ParseState {
                                error: Some(ConfigError::UnparsableValue(i as u64)),
                                ..st
                            };
                        },
                    }
                } else if bytes_eq(&key, &key_minimum_temperature_bytes()) {
                    match parse_fixed_value(&val) {
                        Some(x) => {
                            st = ParseState { minimum_temperature: Some(x), ..st };
                        },
                        None => {
                            st = ParseState {
                                error: Some(ConfigError::UnparsableValue(i as u64)),
                                ..st
                            };
                        },
                    }
                } else if bytes_eq(&key, &key_temperature_decay_bytes()) {
                    match parse_fixed_value(&val) {
                        Some(x) => {
                            st = ParseState { temperature_decay: Some(x), ..st };
                        },
                        None => {
                            st = ParseState {
                                error: Some(ConfigError::UnparsableValue(i as u64)),
                                ..st
                            };
                        },
                    }
                } else if bytes_eq(&key, &key_max_iterations_bytes()) {
                    match parse_integer_value(&val) {
                        Some(x) => {
                            st = ParseState { max_iterations: Some(x), ..st };
                        },
                        None => {
                            st = ParseState {
                                error: Some(ConfigError::UnparsableValue(i as u64)),
                                ..st
                            };
                        },
                    }
                } else if bytes_eq(&key, &key_generation_method_bytes()) {
                    match parse_generation_value(&val) {
                        Some(g) => {
                            st = ParseState { generation_method: Some(g), ..st };
                        },
                        None => {
                            st = ParseState {
                                error: Some(ConfigError::UnparsableValue(i as u64)),
                                ..st
                            };
                        },
                    }
                } else if bytes_eq(&key, &key_cooling_method_bytes()) {
                    match parse_cooling_value(&val) {
                        Some(c) => {
                            st = ParseState { cooling_method: Some(c), ..st };
                        },
                        None => {
                            st = ParseState {
                                error: Some(ConfigError::UnparsableValue(i as u64)),
                                ..st
                            };
                        },
                    }
                } else {
                    st = ParseState { error: Some(ConfigError::UnknownKey(i as u64)), ..st };
                }
            }
        }
        i = i + 1;
    }
    proof {
        assert(st == state_after(ld, ld.len() as int));
    }
    if let Some(e) = st.error {
        return Err(e);
    }
    match (st.initial_temperature, st.minimum_temperature, st.temperature_decay, st.max_iterations, st.generation_method, st.cooling_method) {
        (Some(it), Some(mt), Some(td), Some(mi), Some(gm), Some(cm)) => {
            let c = Config {
                initial_temperature: it,
                minimum_temperature: mt,
                temperature_decay: td,
                max_iterations: mi,
                generation_method: gm,
                cooling_method: cm,
            };
            if c.validate() {
                Ok(c)
            } else {
                Err(ConfigError::InvalidValue)
            }
        },
        _ => Err(ConfigError::MissingKey),
    }
}

} // verus!
