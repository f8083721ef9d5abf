//! Simulation modes and options.

use num_complex::Complex64;
use vstd::prelude::*;

use crate::complex::{
    add_complex, complex_add, complex_finite, complex_of, complex_zero, finite_complex,
    integer_complex, less_real, mul_real, real_less, real_mul, tiny, tiny_real, zero,
};
use crate::text::{
    push_text, quote_text, quoted, same_text, to_word, underscore_text, underscored, word_form,
};

verus! {

/// How a circuit on one node is simulated.
#[derive(Clone, Copy, Debug, PartialEq, Eq, Structural)]
pub enum MonolithicSimulationMode {
    StateVector,
    Mps,
    Stabilizer,
}

/// How a circuit on several nodes is simulated.
#[derive(Clone, Copy, Debug, PartialEq, Eq, Structural)]
pub enum DistributedSimulationMode {
    PBlock,
}

/// The form in which modes are compared: words with underscores for hyphens.
pub open spec fn mode_form(mode: Seq<char>) -> Seq<char> {
    underscored(word_form(mode))
}

/// The mode that a word stands for.
pub open spec fn monolithic_mode_of(word: Seq<char>) -> Option<MonolithicSimulationMode> {
    if word == "state_vector"@ || word == "statevector"@ || word == "sv"@ {
        Some(MonolithicSimulationMode::StateVector)
    } else if word == "mps"@ || word == "matrix_product_state"@ {
        Some(MonolithicSimulationMode::Mps)
    } else if word == "stabilizer"@ || word == "stab"@ {
        Some(MonolithicSimulationMode::Stabilizer)
    } else {
        None
    }
}

/// The mode that a word stands for.
pub fn monolithic_mode_word(word: &str) -> (r: Option<MonolithicSimulationMode>)
    ensures
        r == monolithic_mode_of(word@),
{
    if same_text(word, "state_vector") || same_text(word, "statevector") || same_text(word, "sv") {
        Some(MonolithicSimulationMode::StateVector)
    } else if same_text(word, "mps") || same_text(word, "matrix_product_state") {
        Some(MonolithicSimulationMode::Mps)
    } else if same_text(word, "stabilizer") || same_text(word, "stab") {
        Some(MonolithicSimulationMode::Stabilizer)
    } else {
        None
    }
}

/// Reads the mode of a simulation on one node. An unknown mode is an error with a message.
pub fn parse_monolithic_mode(mode: &str) -> (r: Result<MonolithicSimulationMode, String>)
    ensures
        match monolithic_mode_of(mode_form(mode@)) {
            Some(known) => r is Ok && r->Ok_0 == known,
            None => r is Err && r->Err_0@ == "Unsupported monolithic simulation mode "@ + quoted(
                mode_form(mode@),
            ) + "; expected 'state_vector' or 'mps'"@,
        },
{
    let word: String = underscore_text(to_word(mode).as_str());
    match monolithic_mode_word(word.as_str()) {
        Some(known) => Ok(known),
        None => {
            let mut message: String = String::new();
            push_text(&mut message, "Unsupported monolithic simulation mode ");
            push_text(&mut message, quote_text(word.as_str()).as_str());
            push_text(&mut message, "; expected 'state_vector' or 'mps'");
            assert(message@ =~= "Unsupported monolithic simulation mode "@ + quoted(
                mode_form(mode@),
            ) + "; expected 'state_vector' or 'mps'"@);
            Err(message)
        },
    }
}

/// Reads the mode of a simulation on several nodes. An unknown mode is an error with a
/// message.
pub fn parse_distributed_mode(mode: &str) -> (r: Result<DistributedSimulationMode, String>)
    ensures
        if mode_form(mode@) == "p_block"@ {
            r is Ok && r->Ok_0 == DistributedSimulationMode::PBlock
        } else {
            r is Err && r->Err_0@ == "Unsupported distributed simulation mode "@ + quoted(
                mode_form(mode@),
            ) + "; expected 'p_block'"@
        },
{
    let word: String = underscore_text(to_word(mode).as_str());
    if same_text(word.as_str(), "p_block") {
        return Ok(DistributedSimulationMode::PBlock);
    }
    let mut message: String = String::new();
    push_text(&mut message, "Unsupported distributed simulation mode ");
    push_text(&mut message, quote_text(word.as_str()).as_str());
    push_text(&mut message, "; expected 'p_block'");
    assert(message@ =~= "Unsupported distributed simulation mode "@ + quoted(mode_form(mode@))
        + "; expected 'p_block'"@);
    Err(message)
}

/// What an option is about.
#[derive(Clone, Copy, Debug, PartialEq, Eq, Structural)]
pub enum MpsOptionKey {
    MaxBondDimension,
    TruncationThreshold,
}

/// The value of an option: a number, a count, or nothing.
pub enum OptionValue {
    Nothing,
    Count(usize),
    Number(Complex64),
}

/// The options of a simulation with matrix product states.
pub struct MpsOptions {
    pub max_bond_dimension: Option<usize>,
    pub truncation_threshold: Complex64,
}

/// What is wrong with an option.
pub enum OptionError {
    /// No option has this name.
    Unknown { name: String },
    /// The largest bond dimension is zero.
    ZeroBondDimension,
    /// The threshold is negative or not finite.
    BadThreshold,
    /// The value is not of the kind that the option takes.
    WrongKind { key: MpsOptionKey },
}

/// The option that a name stands for.
pub open spec fn option_key_of(name: Seq<char>) -> Option<MpsOptionKey> {
    if name == "max_bond_dimension"@ {
        Some(MpsOptionKey::MaxBondDimension)
    } else if name == "truncation_threshold"@ {
        Some(MpsOptionKey::TruncationThreshold)
    } else {
        None
    }
}

/// The option that a name stands for.
pub fn mps_option_key(name: &str) -> (r: Option<MpsOptionKey>)
    ensures
        r == option_key_of(name@),
{
    if same_text(name, "max_bond_dimension") {
        Some(MpsOptionKey::MaxBondDimension)
    } else if same_text(name, "truncation_threshold") {
        Some(MpsOptionKey::TruncationThreshold)
    } else {
        None
    }
}

/// Reads the largest bond dimension: a positive count, or nothing.
pub fn parse_max_bond_dimension(value: &OptionValue) -> (r: Result<Option<usize>, OptionError>)
    ensures
        match *value {
            OptionValue::Nothing => r is Ok && r->Ok_0 is None,
            OptionValue::Count(count) => if count == 0 {
                r is Err && r->Err_0 is ZeroBondDimension
            } else {
                r is Ok && r->Ok_0 == Some(count)
            },
            OptionValue::Number(_) => r is Err && r->Err_0 == (OptionError::WrongKind {
                key: MpsOptionKey::MaxBondDimension,
            }),
        },
{
    match value {
        OptionValue::Nothing => Ok(None),
        OptionValue::Count(count) => {
            if *count == 0 {
                Err(OptionError::ZeroBondDimension)
            } else {
                Ok(Some(*count))
            }
        },
        OptionValue::Number(_) => Err(
            OptionError::WrongKind { key: MpsOptionKey::MaxBondDimension },
        ),
    }
}

/// The number that stands for a count, put together from groups of thirty bits. Only the last
/// addition rounds.
pub open spec fn count_number(count: u64) -> Complex64 {
    let step = complex_of(0x4000_0000, 0);
    let high = complex_of(count as int / 0x1000_0000_0000_0000, 0);
    let middle = complex_of(count as int / 0x4000_0000 % 0x4000_0000, 0);
    complex_add(
        real_mul(complex_add(real_mul(high, step), middle), step),
        complex_of(count as int % 0x4000_0000, 0),
    )
}

/// The number that stands for a count.
pub fn number_of_count(count: u64) -> (r: Complex64)
    ensures
        r == count_number(count),
{
    let step: Complex64 = integer_complex(0x4000_0000, 0);
    let high: Complex64 = integer_complex((count / 0x1000_0000_0000_0000) as i32, 0);
    let middle: Complex64 = integer_complex((count / 0x4000_0000 % 0x4000_0000) as i32, 0);
    let low: Complex64 = integer_complex((count % 0x4000_0000) as i32, 0);
    add_complex(mul_real(add_complex(mul_real(high, step), middle), step), low)
}

/// The number that an option holds: a count is one, too.
pub open spec fn number_in(value: OptionValue) -> Option<Complex64> {
    match value {
        OptionValue::Number(number) => Some(number),
        OptionValue::Count(count) => Some(count_number(count as u64)),
        OptionValue::Nothing => None,
    }
}

/// Whether a number can be a truncation threshold.
pub open spec fn is_threshold(number: Complex64) -> bool {
    complex_finite(number) && !real_less(number, complex_zero())
}

/// Reads the truncation threshold: a finite number that is not negative.
pub fn parse_truncation_threshold(value: &OptionValue) -> (r: Result<Complex64, OptionError>)
    ensures
        match number_in(*value) {
            Some(threshold) => if is_threshold(threshold) {
                r is Ok && r->Ok_0 == threshold
            } else {
                r is Err && r->Err_0 is BadThreshold
            },
            None => r is Err && r->Err_0 == (OptionError::WrongKind {
                key: MpsOptionKey::TruncationThreshold,
            }),
        },
{
    let threshold: Complex64 = match value {
        OptionValue::Number(number) => *number,
        OptionValue::Count(count) => number_of_count(*count as u64),
        OptionValue::Nothing => {
            return Err(OptionError::WrongKind { key: MpsOptionKey::TruncationThreshold });
        },
    };
    if !finite_complex(threshold) || less_real(threshold, zero()) {
        Err(OptionError::BadThreshold)
    } else {
        Ok(threshold)
    }
}

/// Whether an option can be read.
pub open spec fn is_good_option(option: (String, OptionValue)) -> bool {
    match (option_key_of(option.0@), option.1) {
        (Some(MpsOptionKey::MaxBondDimension), OptionValue::Nothing) => true,
        (Some(MpsOptionKey::MaxBondDimension), OptionValue::Count(count)) => count > 0,
        (Some(MpsOptionKey::TruncationThreshold), value) => number_in(value) is Some
            && is_threshold(number_in(value)->0),
        _ => false,
    }
}

/// The largest bond dimension after the first `count` options: the last one given.
pub open spec fn bond_dimension_of(options: Seq<(String, OptionValue)>, count: int) -> Option<usize>
    decreases count,
{
    if count <= 0 {
        None
    } else if option_key_of(options[count - 1].0@) == Some(MpsOptionKey::MaxBondDimension) {
        match options[count - 1].1 {
            OptionValue::Count(limit) => Some(limit),
            _ => None,
        }
    } else {
        bond_dimension_of(options, count - 1)
    }
}

/// The truncation threshold after the first `count` options: the last one given, and `1e-12`
/// without one.
pub open spec fn threshold_of(options: Seq<(String, OptionValue)>, count: int) -> Complex64
    decreases count,
{
    if count <= 0 {
        tiny(12)
    } else if option_key_of(options[count - 1].0@) == Some(MpsOptionKey::TruncationThreshold) {
        match number_in(options[count - 1].1) {
            Some(threshold) => threshold,
            None => tiny(12),
        }
    } else {
        threshold_of(options, count - 1)
    }
}

/// Whether `e` says what is wrong with an option.
pub open spec fn is_option_error(option: (String, OptionValue), e: OptionError) -> bool {
    match (option_key_of(option.0@), option.1) {
        (None, _) => e is Unknown && e->name@ == option.0@,
        (Some(MpsOptionKey::MaxBondDimension), OptionValue::Count(_)) => e is ZeroBondDimension,
        (Some(MpsOptionKey::TruncationThreshold), OptionValue::Number(_))
        | (Some(MpsOptionKey::TruncationThreshold), OptionValue::Count(_)) => e is BadThreshold,
        (Some(key), _) => e == (OptionError::WrongKind { key }),
    }
}

/// Reads the options of a simulation with matrix product states. The first one that cannot be
/// read is an error.
pub fn parse_mps_options(options: &Vec<(String, OptionValue)>) -> (r: Result<
    MpsOptions,
    OptionError,
>)
    ensures
        match r {
            Ok(read) => {
                &&& forall|i: int| 0 <= i < options@.len() ==> is_good_option(#[trigger] options@[i])
                &&& read.max_bond_dimension == bond_dimension_of(
                    options@,
                    options@.len() as int,
                )
                &&& read.truncation_threshold == threshold_of(options@, options@.len() as int)
            },
            Err(e) => exists|i: int|
                {
                    &&& 0 <= i < options@.len()
                    &&& !is_good_option(#[trigger] options@[i])
                    &&& is_option_error(options@[i], e)
                    &&& forall|j: int| 0 <= j < i ==> is_good_option(#[trigger] options@[j])
                },
        },
{
    let mut max_bond_dimension: Option<usize> = None;
    let mut truncation_threshold: Complex64 = tiny_real(12);
    let mut i: usize = 0;
    while i < options.len()
        invariant
            i <= options@.len(),
            forall|j: int| 0 <= j < i ==> is_good_option(#[trigger] options@[j]),
            max_bond_dimension == bond_dimension_of(options@, i as int),
            truncation_threshold == threshold_of(options@, i as int),
        decreases options@.len() - i,
    {
        match mps_option_key(options[i].0.as_str()) {
            Some(MpsOptionKey::MaxBondDimension) => {
                match parse_max_bond_dimension(&options[i].1) {
                    Ok(limit) => {
                        max_bond_dimension = limit;
                    },
                    Err(e) => {
                        assert(!is_good_option(options@[i as int]));
                        return Err(e);
                    },
                }
            },
            Some(MpsOptionKey::TruncationThreshold) => {
                match parse_truncation_threshold(&options[i].1) {
                    Ok(threshold) => {
                        truncation_threshold = threshold;
                    },
                    Err(e) => {
                        assert(!is_good_option(options@[i as int]));
                        return Err(e);
                    },
                }
            },
            None => {
                assert(!is_good_option(options@[i as int]));
                return Err(OptionError::Unknown { name: options[i].0.clone() });
            },
        }
        i = i + 1;
    }
    Ok(MpsOptions { max_bond_dimension, truncation_threshold })
}

/// The names of the first `count` options, quoted and separated by commas.
pub open spec fn listed_names(names: Seq<String>, count: int) -> Seq<char>
    decreases count,
{
    if count <= 0 {
        Seq::empty()
    } else if count == 1 {
        quoted(names[0]@)
    } else {
        listed_names(names, count - 1) + ", "@ + quoted(names[count - 1]@)
    }
}

/// Rejects options for a mode that has none. Any option is an error with a message.
pub fn reject_monolithic_options(names: &Vec<String>, mode: &str) -> (r: Result<(), String>)
    ensures
        match r {
            Ok(_) => names@.len() == 0,
            Err(message) => names@.len() > 0 && message@ == "Options ["@ + listed_names(
                names@,
                names@.len() as int,
            ) + "] are not supported for monolithic mode "@ + quoted(mode@),
        },
{
    if names.len() == 0 {
        return Ok(());
    }
    let mut message: String = String::new();
    push_text(&mut message, "Options [");
    assert(message@ =~= "Options ["@ + listed_names(names@, 0));
    let mut i: usize = 0;
    while i < names.len()
        invariant
            i <= names@.len(),
            message@ == "Options ["@ + listed_names(names@, i as int),
        decreases names@.len() - i,
    {
        if i > 0 {
            push_text(&mut message, ", ");
        }
        push_text(&mut message, quote_text(names[i].as_str()).as_str());
        assert(message@ =~= "Options ["@ + listed_names(names@, i + 1));
        i = i + 1;
    }
    push_text(&mut message, "] are not supported for monolithic mode ");
    push_text(&mut message, quote_text(mode).as_str());
    Err(message)
}

impl OptionError {
    /// The text of the error.
    pub open spec fn text(self) -> Seq<char> {
        match self {
            OptionError::Unknown { name } => "Unsupported MPS option "@ + quoted(name@),
            OptionError::ZeroBondDimension
            | OptionError::WrongKind { key: MpsOptionKey::MaxBondDimension } =>
                "max_bond_dimension must be positive or None"@,
            OptionError::BadThreshold
            | OptionError::WrongKind { key: MpsOptionKey::TruncationThreshold } =>
                "truncation_threshold must be a finite non-negative float"@,
        }
    }

    /// The text of the error.
    pub fn message(&self) -> (r: String)
        ensures
            r@ == self.text(),
    {
        let mut out: String = String::new();
        match self {
            OptionError::Unknown { name } => {
                push_text(&mut out, "Unsupported MPS option ");
                push_text(&mut out, quote_text(name.as_str()).as_str());
            },
            OptionError::ZeroBondDimension
            | OptionError::WrongKind { key: MpsOptionKey::MaxBondDimension } => {
                push_text(&mut out, "max_bond_dimension must be positive or None");
            },
            OptionError::BadThreshold
            | OptionError::WrongKind { key: MpsOptionKey::TruncationThreshold } => {
                push_text(&mut out, "truncation_threshold must be a finite non-negative float");
            },
        }
        assert(out@ =~= self.text());
        out
    }
}

} // verus!
