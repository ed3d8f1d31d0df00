//! Decisions of the Python bindings, on plain values.

use vstd::prelude::*;

use crate::config::{
    ApproxCholConfig, ApproxSchurConfig, LocalSolverConfig, LsmrOptions, PreconditionerConfig,
};
use crate::operator::schwarz::Preconditioner;
use crate::schwarz_precond::planning::ReductionStrategy;
use crate::solver::PreconditionerInput;
use crate::text::{decimal, signed_decimal};

verus! {

/// Why an argument is refused.
#[derive(Debug, Clone, PartialEq, Eq)]
pub enum ArgumentError {
    /// The argument has the wrong type.
    Type(String),
    /// The argument has a wrong value.
    Value(String),
}

impl ArgumentError {
    /// The error is of type `Type` with the given text.
    pub open spec fn is_type_error(self, text: Seq<char>) -> bool {
        self matches ArgumentError::Type(message) && message@ == text
    }

    /// The error is of type `Value` with the given text.
    pub open spec fn is_value_error(self, text: Seq<char>) -> bool {
        self matches ArgumentError::Value(message) && message@ == text
    }
}

// ---------------------------------------------------------------------------
// Enumerations by number
// ---------------------------------------------------------------------------

/// Preconditioner selection shortcut.
#[derive(Debug, Clone, Copy, PartialEq, Eq, Structural)]
pub enum PreconditionerShortcut {
    /// Additive Schwarz (default).
    Additive,
    /// No preconditioner.
    Off,
}

impl PreconditionerShortcut {
    /// The shortcut's number.
    pub open spec fn number(self) -> int {
        match self {
            PreconditionerShortcut::Additive => 0,
            PreconditionerShortcut::Off => 1,
        }
    }

    /// The shortcut's number.
    pub fn to_int(self) -> (val: i32)
        ensures
            val == self.number(),
    {
        match self {
            PreconditionerShortcut::Additive => 0,
            PreconditionerShortcut::Off => 1,
        }
    }

    /// The shortcut with a given number.
    pub fn from_int(val: i32) -> (result: Result<Self, ArgumentError>)
        ensures
            match result {
                Ok(shortcut) => shortcut.number() == val,
                Err(e) => !(0 <= val <= 1) && e.is_value_error(
                    "invalid PreconditionerConfig discriminant: "@ + crate::text::signed_text(
                        val as int,
                    ),
                ),
            },
    {
        if val == 0 {
            Ok(PreconditionerShortcut::Additive)
        } else if val == 1 {
            Ok(PreconditionerShortcut::Off)
        } else {
            let mut message: String = "invalid PreconditionerConfig discriminant: ".to_owned();
            message.append(signed_decimal(val).as_str());
            Err(ArgumentError::Value(message))
        }
    }
}

/// The number of a reduction strategy.
pub open spec fn reduction_number(strategy: ReductionStrategy) -> int {
    match strategy {
        ReductionStrategy::Auto => 0,
        ReductionStrategy::AtomicScatter => 1,
        ReductionStrategy::ParallelReduction => 2,
    }
}

/// The number of a reduction strategy.
pub fn reduction_to_int(strategy: ReductionStrategy) -> (val: i32)
    ensures
        val == reduction_number(strategy),
{
    match strategy {
        ReductionStrategy::Auto => 0,
        ReductionStrategy::AtomicScatter => 1,
        ReductionStrategy::ParallelReduction => 2,
    }
}

/// The reduction strategy with a given number.
pub fn reduction_from_int(val: i32) -> (result: Result<ReductionStrategy, ArgumentError>)
    ensures
        match result {
            Ok(strategy) => reduction_number(strategy) == val,
            Err(e) => !(0 <= val <= 2) && e.is_value_error(
                "invalid ReductionStrategy discriminant: "@ + crate::text::signed_text(val as int),
            ),
        },
{
    if val == 0 {
        Ok(ReductionStrategy::Auto)
    } else if val == 1 {
        Ok(ReductionStrategy::AtomicScatter)
    } else if val == 2 {
        Ok(ReductionStrategy::ParallelReduction)
    } else {
        let mut message: String = "invalid ReductionStrategy discriminant: ".to_owned();
        message.append(signed_decimal(val).as_str());
        Err(ArgumentError::Value(message))
    }
}

/// A shortcut is determined by its number, so a stored number gives it back.
pub proof fn law_shortcut_numbers_are_distinct(
    a: PreconditionerShortcut,
    b: PreconditionerShortcut,
)
    requires
        a.number() == b.number(),
    ensures
        a == b,
{
}

/// A reduction strategy is determined by its number.
pub proof fn law_reduction_numbers_are_distinct(a: ReductionStrategy, b: ReductionStrategy)
    requires
        reduction_number(a) == reduction_number(b),
    ensures
        a == b,
{
}

// ---------------------------------------------------------------------------
// Configuration objects
// ---------------------------------------------------------------------------

/// A sampled Schur complement needs at least one sample per star.
pub fn approx_schur_config(seed: u64, split: u32) -> (result: Result<
    ApproxSchurConfig,
    ArgumentError,
>)
    ensures
        match result {
            Ok(config) => split > 0 && config == (ApproxSchurConfig { seed, split }),
            Err(e) => split == 0 && e.is_value_error("split must be >= 1"@),
        },
{
    if split == 0 {
        Err(ArgumentError::Value("split must be >= 1".to_owned()))
    } else {
        Ok(ApproxSchurConfig { seed, split })
    }
}

/// The `local_solver` of an additive Schwarz object.
#[derive(Debug, Clone, Copy)]
pub enum LocalSolverArgument {
    /// None was given.
    Missing,
    /// A local solver configuration.
    Config {
        /// Factorization of the reduced system.
        approx_chol: Option<ApproxCholConfig>,
        /// Sampling of the Schur complement.
        approx_schur: Option<ApproxSchurConfig>,
        /// Threshold of the dense path.
        dense_threshold: usize,
    },
    /// An object of another type.
    Other,
}

/// The `preconditioner` argument.
#[derive(Debug)]
pub enum PreconditionerArgument<T, S> {
    /// None was given.
    Missing,
    /// A shortcut.
    Shortcut(PreconditionerShortcut),
    /// An additive Schwarz object.
    AdditiveSchwarz {
        /// Its local solver.
        local_solver: LocalSolverArgument,
        /// Its reduction strategy.
        reduction: ReductionStrategy,
    },
    /// A pre-built preconditioner.
    Prebuilt(Preconditioner<T, S>),
    /// An object of another type.
    Other,
}

/// The text that refuses a local solver of another type.
pub open spec fn local_solver_type_message() -> Seq<char> {
    "local_solver must be LocalSolverConfig or None"@
}

/// The text that refuses a preconditioner of another type.
pub open spec fn preconditioner_type_message() -> Seq<char> {
    "preconditioner must be PreconditionerConfig.Additive, PreconditionerConfig.Off, AdditiveSchwarz(...), Preconditioner(...), or None"@
}

/// The local solver configuration that an argument stands for; `None` if it has
/// another type.
///
/// A configuration without a factorization takes the default one; without
/// sampling it is exact.
pub open spec fn local_solver_of(argument: LocalSolverArgument) -> Option<LocalSolverConfig> {
    match argument {
        LocalSolverArgument::Missing => Some(crate::config::default_local_solver()),
        LocalSolverArgument::Config { approx_chol, approx_schur, dense_threshold } => Some(
            LocalSolverConfig {
                approx_chol: match approx_chol {
                    None => crate::config::default_local_solver().approx_chol,
                    Some(config) => config,
                },
                approx_schur,
                dense_threshold,
            },
        ),
        LocalSolverArgument::Other => None,
    }
}

/// Interpret a local solver argument.
pub fn resolve_local_solver(argument: LocalSolverArgument) -> (result: Result<
    LocalSolverConfig,
    ArgumentError,
>)
    ensures
        match result {
            Ok(config) => local_solver_of(argument) == Some(config),
            Err(e) => local_solver_of(argument) is None && e.is_type_error(
                local_solver_type_message(),
            ),
        },
{
    match argument {
        LocalSolverArgument::Missing => Ok(LocalSolverConfig::default()),
        LocalSolverArgument::Config { approx_chol, approx_schur, dense_threshold } => {
            let approx_chol: ApproxCholConfig = match approx_chol {
                None => LocalSolverConfig::default().approx_chol,
                Some(config) => config,
            };
            Ok(LocalSolverConfig { approx_chol, approx_schur, dense_threshold })
        },
        LocalSolverArgument::Other => Err(
            ArgumentError::Type("local_solver must be LocalSolverConfig or None".to_owned()),
        ),
    }
}

/// The threshold of a local solver configuration, or the default where none is given.
pub fn resolve_dense_threshold(given: Option<usize>) -> (threshold: usize)
    ensures
        threshold == match given {
            None => crate::config::default_local_solver().dense_threshold,
            Some(threshold) => threshold,
        },
{
    match given {
        None => LocalSolverConfig::default().dense_threshold,
        Some(threshold) => threshold,
    }
}

/// What a preconditioner argument stands for.
pub open spec fn config_outcome<T, S>(
    argument: PreconditionerArgument<T, S>,
    result: Result<Option<PreconditionerConfig>, ArgumentError>,
) -> bool {
    match argument {
        PreconditionerArgument::Missing => result == Ok::<
            Option<PreconditionerConfig>,
            ArgumentError,
        >(None),
        PreconditionerArgument::Shortcut(PreconditionerShortcut::Off) => result == Ok::<
            Option<PreconditionerConfig>,
            ArgumentError,
        >(Some(PreconditionerConfig::Off)),
        PreconditionerArgument::Shortcut(PreconditionerShortcut::Additive) => result == Ok::<
            Option<PreconditionerConfig>,
            ArgumentError,
        >(Some(crate::config::default_preconditioner_config())),
        PreconditionerArgument::AdditiveSchwarz { local_solver, reduction } => match local_solver_of(
            local_solver,
        ) {
            Some(local_solver) => result == Ok::<Option<PreconditionerConfig>, ArgumentError>(
                Some(PreconditionerConfig::Additive { local_solver, reduction }),
            ),
            None => result matches Err(e) && e.is_type_error(local_solver_type_message()),
        },
        _ => result matches Err(e) && e.is_type_error(preconditioner_type_message()),
    }
}

/// Interpret a preconditioner argument that is not a pre-built preconditioner.
pub fn extract_preconditioner_config<T, S>(argument: &PreconditionerArgument<T, S>) -> (result:
    Result<Option<PreconditionerConfig>, ArgumentError>)
    ensures
        config_outcome(*argument, result),
{
    match argument {
        PreconditionerArgument::Missing => Ok(None),
        PreconditionerArgument::Shortcut(shortcut) => Ok(
            Some(
                match shortcut {
                    PreconditionerShortcut::Off => PreconditionerConfig::Off,
                    PreconditionerShortcut::Additive => PreconditionerConfig::default(),
                },
            ),
        ),
        PreconditionerArgument::AdditiveSchwarz { local_solver, reduction } => {
            match resolve_local_solver(*local_solver) {
                Err(e) => Err(e),
                Ok(local_solver) => Ok(
                    Some(PreconditionerConfig::Additive { local_solver, reduction: *reduction }),
                ),
            }
        },
        _ => Err(
            ArgumentError::Type(
                "preconditioner must be PreconditionerConfig.Additive, PreconditionerConfig.Off, AdditiveSchwarz(...), Preconditioner(...), or None".to_owned(),
            ),
        ),
    }
}

/// What the solver is given for a preconditioner argument.
///
/// A pre-built preconditioner is reused; everything else is a configuration.
pub open spec fn input_outcome<T, S>(
    argument: PreconditionerArgument<T, S>,
    result: Result<PreconditionerInput<T, S>, ArgumentError>,
) -> bool {
    match argument {
        PreconditionerArgument::Prebuilt(p) => result == Ok::<
            PreconditionerInput<T, S>,
            ArgumentError,
        >(PreconditionerInput::Prebuilt(p)),
        _ => match result {
            Ok(PreconditionerInput::Default) => config_outcome(argument, Ok(None)),
            Ok(PreconditionerInput::Config(config)) => config_outcome(argument, Ok(Some(config))),
            Ok(PreconditionerInput::Prebuilt(_)) => false,
            Err(e) => config_outcome(argument, Err(e)),
        },
    }
}

/// Turn a preconditioner argument into what the solver takes.
pub fn resolve_preconditioner<T, S>(argument: PreconditionerArgument<T, S>) -> (result: Result<
    PreconditionerInput<T, S>,
    ArgumentError,
>)
    ensures
        input_outcome(argument, result),
{
    if let PreconditionerArgument::Prebuilt(p) = argument {
        return Ok(PreconditionerInput::Prebuilt(p));
    }
    match extract_preconditioner_config(&argument) {
        Err(e) => Err(e),
        Ok(None) => Ok(PreconditionerInput::Default),
        Ok(Some(config)) => Ok(PreconditionerInput::Config(config)),
    }
}

/// The `options` argument.
#[derive(Debug, Clone, Copy)]
pub enum OptionsArgument {
    /// None was given.
    Missing,
    /// Solver options.
    Lsmr(LsmrOptions),
    /// An object of another type.
    Other,
}

/// Interpret an options argument.
pub fn resolve_lsmr_config(argument: OptionsArgument) -> (result: Result<
    LsmrOptions,
    ArgumentError,
>)
    ensures
        match argument {
            OptionsArgument::Missing => result == Ok::<LsmrOptions, ArgumentError>(
                crate::config::default_solver_params(),
            ),
            OptionsArgument::Lsmr(options) => result == Ok::<LsmrOptions, ArgumentError>(options),
            OptionsArgument::Other => result matches Err(e) && e.is_type_error(
                "options must be LsmrOptions"@,
            ),
        },
{
    match argument {
        OptionsArgument::Missing => Ok(LsmrOptions::default()),
        OptionsArgument::Lsmr(options) => Ok(options),
        OptionsArgument::Other => Err(
            ArgumentError::Type("options must be LsmrOptions".to_owned()),
        ),
    }
}

// ---------------------------------------------------------------------------
// Array shapes
// ---------------------------------------------------------------------------

/// Whether the columns of a category array cannot be read as contiguous slices:
/// the row stride is not one, or the column stride is not positive.
///
/// A single row or empty input is contiguous whatever its strides.
pub fn columns_are_strided(n_rows: usize, row_stride: isize, column_stride: isize) -> (strided:
    bool)
    ensures
        strided <==> n_rows > 1 && (row_stride != 1 || column_stride < 1),
{
    n_rows > 1 && (row_stride != 1 || column_stride < 1)
}

/// The text that refuses a batch whose rows do not match.
pub open spec fn batch_rows_message(n_rows: nat, holder: Seq<char>, n_obs: nat) -> Seq<char> {
    "Y has "@ + crate::text::decimal_text(n_rows) + " rows but "@ + holder + " has "@
        + crate::text::decimal_text(n_obs) + " observations"@
}

/// Check the row count of a batch of responses against what holds the design.
///
/// Done up front: a batch without columns would skip the check per response.
pub fn check_batch_rows(n_rows: usize, holder: &str, n_obs: usize) -> (result: Result<
    (),
    ArgumentError,
>)
    ensures
        match result {
            Ok(()) => n_rows == n_obs,
            Err(e) => n_rows != n_obs && e.is_value_error(
                batch_rows_message(n_rows as nat, holder@, n_obs as nat),
            ),
        },
{
    if n_rows == n_obs {
        return Ok(());
    }
    let mut message: String = "Y has ".to_owned();
    message.append(decimal(n_rows as u64).as_str());
    message.append(" rows but ");
    message.append(holder);
    message.append(" has ");
    message.append(decimal(n_obs as u64).as_str());
    message.append(" observations");
    Err(ArgumentError::Value(message))
}

/// Check the length of a vector that a preconditioner is applied to.
pub fn check_apply_length(len: usize, expected: usize) -> (result: Result<(), ArgumentError>)
    ensures
        match result {
            Ok(()) => len == expected,
            Err(e) => len != expected && e.is_value_error(
                "x has length "@ + crate::text::decimal_text(len as nat)
                    + " but preconditioner expects "@ + crate::text::decimal_text(expected as nat),
            ),
        },
{
    if len == expected {
        return Ok(());
    }
    let mut message: String = "x has length ".to_owned();
    message.append(decimal(len as u64).as_str());
    message.append(" but preconditioner expects ");
    message.append(decimal(expected as u64).as_str());
    Err(ArgumentError::Value(message))
}

/// How a preconditioner with `n` unknowns shows itself.
pub fn preconditioner_repr(variant: &str, n: usize) -> (text: String)
    ensures
        text@ == "Preconditioner("@ + variant@ + ", n="@ + crate::text::decimal_text(n as nat)
            + ")"@,
{
    let mut text: String = "Preconditioner(".to_owned();
    text.append(variant);
    text.append(", n=");
    text.append(decimal(n as u64).as_str());
    text.append(")");
    text
}

/// An additive Schwarz argument is taken as it is: the configuration has the given
/// reduction, sampling and threshold, and the given factorization where there is
/// one.
pub proof fn law_additive_argument_is_taken_as_given<T, S>(
    approx_chol: Option<ApproxCholConfig>,
    approx_schur: Option<ApproxSchurConfig>,
    dense_threshold: usize,
    reduction: ReductionStrategy,
    result: Result<Option<PreconditionerConfig>, ArgumentError>,
)
    requires
        config_outcome(
            PreconditionerArgument::<T, S>::AdditiveSchwarz {
                local_solver: LocalSolverArgument::Config {
                    approx_chol,
                    approx_schur,
                    dense_threshold,
                },
                reduction,
            },
            result,
        ),
    ensures
        result matches Ok(Some(PreconditionerConfig::Additive { local_solver, reduction: own }))
            && own == reduction && local_solver.approx_schur == approx_schur
            && local_solver.dense_threshold == dense_threshold && (approx_chol matches Some(given)
            ==> local_solver.approx_chol == given),
{
}

/// An additive Schwarz argument without a local solver takes the default one, with
/// the given reduction; one with a local solver of another type is refused.
pub proof fn law_local_solver_argument<T, S>(
    argument: LocalSolverArgument,
    reduction: ReductionStrategy,
    result: Result<Option<PreconditionerConfig>, ArgumentError>,
)
    requires
        config_outcome(
            PreconditionerArgument::<T, S>::AdditiveSchwarz { local_solver: argument, reduction },
            result,
        ),
    ensures
        result is Err <==> argument is Other,
        argument is Missing ==> (result matches Ok(Some(PreconditionerConfig::Additive {
            local_solver,
            reduction: own,
        })) && own == reduction && local_solver == crate::config::default_local_solver()),
{
}

/// Every argument but an object of another type leads somewhere: a pre-built
/// preconditioner to itself, a missing one to the default, the shortcuts to the
/// unpreconditioned solve and to an additive configuration.
pub proof fn law_argument_decides_the_input<T, S>(
    argument: PreconditionerArgument<T, S>,
    result: Result<PreconditionerInput<T, S>, ArgumentError>,
)
    requires
        input_outcome(argument, result),
    ensures
        argument matches PreconditionerArgument::Prebuilt(p) ==> (result matches Ok(
            PreconditionerInput::Prebuilt(own),
        ) && own == p),
        argument is Missing ==> (result matches Ok(input) && input is Default),
        argument matches PreconditionerArgument::Shortcut(s) ==> s is Off ==> (result matches Ok(
            PreconditionerInput::Config(config),
        ) && config is Off),
        argument matches PreconditionerArgument::Shortcut(s) ==> s is Additive ==> (
        result matches Ok(PreconditionerInput::Config(config)) && config is Additive),
        argument is Other ==> result is Err,
{
}

} // verus!
