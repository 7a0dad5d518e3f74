//! Vocabulary of the evolutionary search: errors, genetic operations and inheritance modes.
use vstd::prelude::*;

use crate::shapes::same_text;
use crate::text::{decimal, push_decimal};

verus! {

/// Why a candidate could not be evaluated.
#[derive(Clone, Debug, PartialEq)]
pub enum EvaluationError {
    InvalidIndividual(String),
    NumericalFailure(String),
}

/// Why a search step failed.
#[derive(Clone, Debug, PartialEq)]
pub enum SearchError {
    InvalidConfig(String),
    InvalidPopulation(String),
    MissingEvaluation { individual_id: u64 },
    Evaluation(EvaluationError),
}

impl From<EvaluationError> for SearchError {
    fn from(value: EvaluationError) -> (r: SearchError)
        ensures
            r == SearchError::Evaluation(value),
    {
        SearchError::Evaluation(value)
    }
}

impl vstd::std_specs::convert::FromSpecImpl<EvaluationError> for SearchError {
    open spec fn obeys_from_spec() -> bool {
        true
    }

    open spec fn from_spec(value: EvaluationError) -> SearchError {
        SearchError::Evaluation(value)
    }
}

/// The message of an evaluation error, as it is shown.
pub open spec fn evaluation_text(error: EvaluationError) -> Seq<char> {
    match error {
        EvaluationError::InvalidIndividual(message) => "invalid individual: "@ + message@,
        EvaluationError::NumericalFailure(message) => "numerical failure: "@ + message@,
    }
}

/// The message of a search error, as it is shown; a failed evaluation shows its own.
pub open spec fn search_text(error: SearchError) -> Seq<char> {
    match error {
        SearchError::InvalidConfig(message) => "invalid search configuration: "@ + message@,
        SearchError::InvalidPopulation(message) => "invalid population: "@ + message@,
        SearchError::MissingEvaluation { individual_id } => "individual "@ + decimal(
            individual_id as nat,
        ) + " has not been evaluated"@,
        SearchError::Evaluation(inner) => evaluation_text(inner),
    }
}

impl EvaluationError {
    /// The message shown for the error.
    pub fn describe(&self) -> (text: String)
        ensures
            text@ == evaluation_text(*self),
    {
        match self {
            EvaluationError::InvalidIndividual(message) => {
                let mut text = "invalid individual: ".to_owned();
                text.append(message.as_str());
                text
            },
            EvaluationError::NumericalFailure(message) => {
                let mut text = "numerical failure: ".to_owned();
                text.append(message.as_str());
                text
            },
        }
    }
}

impl SearchError {
    /// The message shown for the error.
    pub fn describe(&self) -> (text: String)
        ensures
            text@ == search_text(*self),
    {
        match self {
            SearchError::InvalidConfig(message) => {
                let mut text = "invalid search configuration: ".to_owned();
                text.append(message.as_str());
                text
            },
            SearchError::InvalidPopulation(message) => {
                let mut text = "invalid population: ".to_owned();
                text.append(message.as_str());
                text
            },
            SearchError::MissingEvaluation { individual_id } => {
                let mut text = "individual ".to_owned();
                push_decimal(&mut text, *individual_id);
                text.append(" has not been evaluated");
                text
            },
            SearchError::Evaluation(inner) => inner.describe(),
        }
    }
}

/// How an individual came to be.
#[derive(Clone, Copy, PartialEq, Eq, Structural, Debug)]
pub enum GeneticOperation {
    Initialized,
    EliteClone,
    CartesianMutation,
    RigidChainTransform,
    CrankshaftRotation,
    DoubleBridge,
}

/// Whether relaxation changes the genotype (Lamarckian), only the fitness (Baldwinian), or
/// does not happen (single point).
#[derive(Clone, Copy, PartialEq, Eq, Structural, Debug)]
pub enum EvolutionMode {
    SinglePoint,
    Lamarckian,
    Baldwinian,
}

/// Numeric code of an operation, in declaration order from 0.
pub open spec fn spec_operation_code(operation: GeneticOperation) -> u32 {
    match operation {
        GeneticOperation::Initialized => 0,
        GeneticOperation::EliteClone => 1,
        GeneticOperation::CartesianMutation => 2,
        GeneticOperation::RigidChainTransform => 3,
        GeneticOperation::CrankshaftRotation => 4,
        GeneticOperation::DoubleBridge => 5,
    }
}

pub fn operation_code(operation: GeneticOperation) -> (r: u32)
    ensures
        r == spec_operation_code(operation),
{
    match operation {
        GeneticOperation::Initialized => 0,
        GeneticOperation::EliteClone => 1,
        GeneticOperation::CartesianMutation => 2,
        GeneticOperation::RigidChainTransform => 3,
        GeneticOperation::CrankshaftRotation => 4,
        GeneticOperation::DoubleBridge => 5,
    }
}

/// Distinct operations have distinct codes, so a code names its operation.
pub proof fn lemma_operation_code_injective(a: GeneticOperation, b: GeneticOperation)
    requires
        spec_operation_code(a) == spec_operation_code(b),
    ensures
        a == b,
{
}

/// Inheritance mode of a mode code: 0 single point, 1 Lamarckian, 2 Baldwinian.
pub fn mode_from_code(code: u32) -> (r: Option<EvolutionMode>)
    ensures
        code == 0 ==> r == Some(EvolutionMode::SinglePoint),
        code == 1 ==> r == Some(EvolutionMode::Lamarckian),
        code == 2 ==> r == Some(EvolutionMode::Baldwinian),
        code > 2 ==> r is None,
{
    match code {
        0 => Some(EvolutionMode::SinglePoint),
        1 => Some(EvolutionMode::Lamarckian),
        2 => Some(EvolutionMode::Baldwinian),
        _ => None,
    }
}


/// The name a batch report gives an operation.
pub open spec fn operation_name(op: GeneticOperation) -> Seq<char> {
    match op {
        GeneticOperation::Initialized => "initialized"@,
        GeneticOperation::EliteClone => "elite-clone"@,
        GeneticOperation::CartesianMutation => "cartesian-mutation"@,
        GeneticOperation::RigidChainTransform => "rigid-chain-transform"@,
        GeneticOperation::CrankshaftRotation => "crankshaft-rotation"@,
        GeneticOperation::DoubleBridge => "double-bridge"@,
    }
}

impl GeneticOperation {
    /// The name of the operation in a batch report.
    pub fn name(self) -> (r: &'static str)
        ensures
            r@ == operation_name(self),
    {
        match self {
            GeneticOperation::Initialized => "initialized",
            GeneticOperation::EliteClone => "elite-clone",
            GeneticOperation::CartesianMutation => "cartesian-mutation",
            GeneticOperation::RigidChainTransform => "rigid-chain-transform",
            GeneticOperation::CrankshaftRotation => "crankshaft-rotation",
            GeneticOperation::DoubleBridge => "double-bridge",
        }
    }
}

/// The inheritance mode a batch run is asked for: Lamarckian when none is named, else the
/// mode of the name, or none for an unknown name.
pub open spec fn mode_named(arg: Option<Seq<char>>) -> Option<EvolutionMode> {
    match arg {
        None => Some(EvolutionMode::Lamarckian),
        Some(word) => if word == "lamarckian"@ {
            Some(EvolutionMode::Lamarckian)
        } else if word == "single-point"@ {
            Some(EvolutionMode::SinglePoint)
        } else if word == "baldwinian"@ {
            Some(EvolutionMode::Baldwinian)
        } else {
            None
        },
    }
}

/// Reads the mode argument of a batch run.
pub fn batch_mode(arg: Option<&str>) -> (r: Option<EvolutionMode>)
    ensures
        r == mode_named(
            match arg {
                Some(word) => Some(word@),
                None => None,
            },
        ),
{
    match arg {
        None => Some(EvolutionMode::Lamarckian),
        Some(word) => if same_text(word, "lamarckian") {
            Some(EvolutionMode::Lamarckian)
        } else if same_text(word, "single-point") {
            Some(EvolutionMode::SinglePoint)
        } else if same_text(word, "baldwinian") {
            Some(EvolutionMode::Baldwinian)
        } else {
            None
        },
    }
}

/// Increment of the generator state per draw.
pub const GOLDEN_GAMMA: u64 = 0x9e37_79b9_7f4a_7c15;

/// The output a generator state gives: two multiply-xorshift rounds and a final xorshift.
pub open spec fn mix(z: u64) -> u64 {
    let a = vstd::wrapping::u64_specs::wrapping_mul(z ^ (z >> 30u64), 0xbf58_476d_1ce4_e5b9u64);
    let b = vstd::wrapping::u64_specs::wrapping_mul(a ^ (a >> 27u64), 0x94d0_49bb_1331_11ebu64);
    b ^ (b >> 31u64)
}

/// The deterministic 64-bit generator of the search (SplitMix64): equal seeds give equal
/// sequences of draws.
#[derive(Clone, Copy, PartialEq, Eq, Structural, Debug)]
pub struct SplitMix64 {
    pub state: u64,
}

impl SplitMix64 {
    pub fn new(seed: u64) -> (r: SplitMix64)
        ensures
            r.state == seed,
    {
        SplitMix64 { state: seed }
    }

    /// Advances the state by the golden gamma, wrapping, and returns the mixed new state.
    pub fn next_u64(&mut self) -> (r: u64)
        ensures
            final(self).state == vstd::wrapping::u64_specs::wrapping_add(old(self).state, GOLDEN_GAMMA),
            r == mix(final(self).state),
    {
        self.state = self.state.wrapping_add(GOLDEN_GAMMA);
        let mut value = self.state;
        value = (value ^ (value >> 30)).wrapping_mul(0xbf58_476d_1ce4_e5b9);
        value = (value ^ (value >> 27)).wrapping_mul(0x94d0_49bb_1331_11eb);
        value ^ (value >> 31)
    }
}

} // verus!
