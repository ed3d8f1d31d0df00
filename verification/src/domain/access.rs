//! Ways to ask for a design, and what a design answers.

use std::borrow::Cow;

use vstd::prelude::*;

use crate::binary64::{Binary64, NAN_BITS};
use crate::domain::columns::{Loading, NonEmpty};
use crate::domain::design::{Design, DesignOptions};
use crate::domain::effect::Effect;
use crate::domain::ordering::{map_to_internal_order, restore_caller_order};
use crate::error::BuildError;
use crate::observation::{as_slice, owned_column, FactorMajorStore, ObservationFrame};

verus! {

/// One coefficient column of one term.
#[derive(Debug, Clone, Copy, PartialEq, Eq, Structural)]
pub struct Channel {
    /// Term index.
    pub term: usize,
    /// Column index within the term.
    pub column: usize,
}

// ---------------------------------------------------------------------------
// Lowering effects to columns
// ---------------------------------------------------------------------------

/// The covariates among the first `c` columns, in order.
pub open spec fn slopes_of(columns: Seq<Loading<&[Binary64]>>, c: int) -> Seq<Seq<Binary64>>
    decreases c,
{
    if c <= 0 {
        Seq::empty()
    } else {
        match columns[c - 1] {
            Loading::Constant => slopes_of(columns, c - 1),
            Loading::Covariate(z) => slopes_of(columns, c - 1).push(z@),
        }
    }
}

/// The covariates of the first `t` effects, in order.
pub open spec fn effect_slopes(effects: Seq<Effect<'_>>, t: int) -> Seq<Seq<Binary64>>
    decreases t,
{
    if t <= 0 {
        Seq::empty()
    } else {
        let columns = effects[t - 1].spec_columns();
        effect_slopes(effects, t - 1) + slopes_of(columns, columns.len() as int)
    }
}

/// The level codes of each effect.
pub open spec fn effect_levels(effects: Seq<Effect<'_>>) -> Seq<Seq<u32>> {
    Seq::new(effects.len(), |t: int| effects[t].spec_levels())
}

/// Columns that name their covariates by position, the first one being `base`.
pub open spec fn numbered(columns: Seq<Loading<&[Binary64]>>, base: nat) -> Seq<Loading<u32>> {
    Seq::new(
        columns.len(),
        |c: int|
            match columns[c] {
                Loading::Constant => Loading::Constant,
                Loading::Covariate(_) => Loading::Covariate(
                    (base + slopes_of(columns, c).len()) as u32,
                ),
            },
    )
}

/// The columns of each effect, covariates numbered through all effects.
pub open spec fn effect_structure(effects: Seq<Effect<'_>>) -> Seq<Seq<Loading<u32>>> {
    Seq::new(
        effects.len(),
        |t: int| numbered(effects[t].spec_columns(), effect_slopes(effects, t).len()),
    )
}

/// One intercept column per term.
pub open spec fn plain_structure(n_terms: nat) -> Seq<Seq<Loading<u32>>> {
    Seq::new(n_terms, |t: int| seq![Loading::<u32>::Constant])
}

/// What constructing a design from columns of possibly different lengths answers.
pub open spec fn columns_outcome(
    levels: Seq<Seq<u32>>,
    loadings: Seq<Seq<Binary64>>,
    structure: Seq<Seq<Loading<u32>>>,
    options: DesignOptions<'_>,
    result: Result<Design<'_>, BuildError>,
) -> bool {
    let n_obs = crate::observation::implied_n_obs(levels, loadings);
    if crate::observation::all_have_length(levels, loadings, n_obs) {
        crate::domain::design::build_outcome(levels, loadings, n_obs, structure, options, result)
    } else {
        result matches Err(BuildError::ObservationCountMismatch { factor, expected, got })
            && expected == n_obs && crate::observation::is_first_mismatch(
            levels,
            loadings,
            n_obs,
            factor as int,
        ) && got == crate::observation::column_len(levels, loadings, factor as int)
    }
}

proof fn lemma_effect_slopes_monotone(effects: Seq<Effect<'_>>, a: int, b: int)
    requires
        0 <= a <= b,
    ensures
        effect_slopes(effects, a).len() <= effect_slopes(effects, b).len(),
    decreases b - a,
{
    if a < b {
        lemma_effect_slopes_monotone(effects, a, b - 1);
    }
}

proof fn lemma_slopes_monotone(columns: Seq<Loading<&[Binary64]>>, a: int, b: int)
    requires
        0 <= a <= b,
    ensures
        slopes_of(columns, a).len() <= slopes_of(columns, b).len(),
    decreases b - a,
{
    if a < b {
        lemma_slopes_monotone(columns, a, b - 1);
    }
}

/// Append one effect's covariates and number its columns.
fn lower_columns<'a>(
    columns: &NonEmpty<Loading<&'a [Binary64]>>,
    continuous: &mut Vec<Cow<'a, [Binary64]>>,
) -> (lowered: NonEmpty<Loading<u32>>)
    requires
        old(continuous)@.len() + slopes_of(columns@, columns@.len() as int).len() <= u32::MAX,
    ensures
        crate::observation::all_elements(final(continuous)@)
            == crate::observation::all_elements(old(continuous)@) + slopes_of(
            columns@,
            columns@.len() as int,
        ),
        lowered@ == numbered(columns@, old(continuous)@.len()),
{
    let ghost before = continuous@;
    let ghost base = before.len();
    let mut lowered: Vec<Loading<u32>> = Vec::with_capacity(columns.len());
    let slice = columns.as_slice();
    for c in 0..slice.len()
        invariant
            slice@ == columns@,
            base == before.len(),
            base + slopes_of(columns@, columns@.len() as int).len() <= u32::MAX,
            continuous@.len() == base + slopes_of(columns@, c as int).len(),
            crate::observation::all_elements(continuous@) == crate::observation::all_elements(
                before,
            ) + slopes_of(columns@, c as int),
            lowered@ == numbered(columns@, base).take(c as int),
    {
        let ghost continuous_before = continuous@;
        proof {
            lemma_slopes_monotone(columns@, c + 1, columns@.len() as int);
        }
        match slice[c] {
            Loading::Constant => {
                lowered.push(Loading::Constant);
            },
            Loading::Covariate(z) => {
                let index: u32 = continuous.len() as u32;
                continuous.push(Cow::Borrowed(z));
                lowered.push(Loading::Covariate(index));
                proof {
                    assert(crate::observation::all_elements(continuous@)
                        =~= crate::observation::all_elements(continuous_before).push(z@));
                    assert(crate::observation::all_elements(continuous@)
                        =~= crate::observation::all_elements(before) + slopes_of(
                        columns@,
                        c + 1,
                    ));
                }
            },
        }
        assert(lowered@ =~= numbered(columns@, base).take(c + 1));
    }
    proof {
        assert(numbered(columns@, base).take(columns@.len() as int) =~= numbered(columns@, base));
    }
    match NonEmpty::new(lowered) {
        Some(lowered) => lowered,
        None => NonEmpty::of(Loading::Constant),
    }
}

impl<'a> DesignOptions<'a> {
    /// Remove observations belonging to a singleton level in any fixed-effect
    /// term.
    ///
    /// Removal is iterative: dropping one observation can make another level a
    /// singleton, so processing continues until every retained level occurs at
    /// least twice. The default is `false`.
    #[must_use]
    pub fn drop_singletons(self, enabled: bool) -> (options: Self)
        ensures
            options == (DesignOptions { drop_singletons: enabled, ..self }),
    {
        DesignOptions { drop_singletons: enabled, ..self }
    }

    /// Record observation weights in caller row order.
    ///
    /// Borrowed slices remain borrowed by the resulting [`Design`]; owned
    /// vectors are retained without another copy.
    #[must_use]
    pub fn weights(self, weights: Cow<'a, [Binary64]>) -> (options: Self)
        ensures
            options == (DesignOptions { weights: Some(weights), ..self }),
    {
        DesignOptions { weights: Some(weights), ..self }
    }

    /// Choose whether rows are sorted by the dominant term's levels.
    #[must_use]
    pub fn with_locality_sort(self, enabled: bool) -> (options: Self)
        ensures
            options == (DesignOptions { locality_sort: enabled, ..self }),
    {
        DesignOptions { locality_sort: enabled, ..self }
    }

    /// The weights, if any, in caller row order.
    pub fn weight_values(&self) -> (weights: Option<&[Binary64]>)
        ensures
            match self.weights {
                None => weights is None,
                Some(w) => weights matches Some(slice) && slice@ == crate::observation::elements(w),
            },
    {
        match &self.weights {
            None => None,
            Some(w) => Some(as_slice(w)),
        }
    }

    /// Lower effect terms into a configured design.
    pub fn from_effects(self, effects: Vec<Effect<'a>>) -> (result: Result<Design<'a>, BuildError>)
        requires
            effect_slopes(effects@, effects@.len() as int).len() <= u32::MAX,
            effects@.len() + effect_slopes(effects@, effects@.len() as int).len() <= usize::MAX,
        ensures
            columns_outcome(
                effect_levels(effects@),
                effect_slopes(effects@, effects@.len() as int),
                effect_structure(effects@),
                self,
                result,
            ),
    {
        let mut categorical: Vec<Cow<'a, [u32]>> = Vec::new();
        let mut continuous: Vec<Cow<'a, [Binary64]>> = Vec::new();
        let mut structure: Vec<NonEmpty<Loading<u32>>> = Vec::new();
        for t in 0..effects.len()
            invariant
                effect_slopes(effects@, effects@.len() as int).len() <= u32::MAX,
                categorical@.len() == t,
                structure@.len() == t,
                continuous@.len() == effect_slopes(effects@, t as int).len(),
                forall|s: int|
                    0 <= s < t ==> crate::observation::elements(#[trigger] categorical@[s])
                        == effects@[s].spec_levels(),
                crate::observation::all_elements(continuous@) == effect_slopes(effects@, t as int),
                forall|s: int|
                    0 <= s < t ==> (#[trigger] structure@[s])@ == effect_structure(effects@)[s],
        {
            proof {
                lemma_effect_slopes_monotone(effects@, t + 1, effects@.len() as int);
            }
            let lowered = lower_columns(effects[t].columns(), &mut continuous);
            structure.push(lowered);
            categorical.push(Cow::Borrowed(effects[t].levels()));
        }
        proof {
            assert(crate::observation::all_elements(categorical@) =~= effect_levels(effects@));
            assert(crate::domain::design::structure_of(structure@) =~= effect_structure(effects@));
        }
        match ObservationFrame::new(categorical, continuous) {
            Ok(frame) => Design::build(frame, structure, self),
            Err(e) => {
                proof {
                    lemma_mismatch(
                        effect_levels(effects@),
                        effect_slopes(effects@, effects@.len() as int),
                        e->ObservationCountMismatch_factor as int,
                    );
                }
                Err(e)
            },
        }
    }

    /// Construct a configured design from a frame of plain factors.
    pub fn from_frame(self, frame: ObservationFrame<'a>) -> (result: Result<Design<'a>, BuildError>)
        requires
            frame.wf(),
        ensures
            crate::domain::design::build_outcome(
                frame.levels(),
                frame.loadings(),
                frame.spec_n_obs(),
                plain_structure(frame.levels().len()),
                self,
                result,
            ),
    {
        let n_terms: usize = frame.n_factors();
        let mut structure: Vec<NonEmpty<Loading<u32>>> = Vec::with_capacity(n_terms);
        for t in 0..n_terms
            invariant
                structure@.len() == t,
                forall|s: int|
                    0 <= s < t ==> (#[trigger] structure@[s])@ == seq![Loading::<u32>::Constant],
        {
            structure.push(NonEmpty::of(Loading::Constant));
        }
        proof {
            assert(crate::domain::design::structure_of(structure@) =~= plain_structure(
                n_terms as nat,
            ));
        }
        Design::build(frame, structure, self)
    }
}

/// A column of another length shows that not all columns have the implied length.
proof fn lemma_mismatch(levels: Seq<Seq<u32>>, loadings: Seq<Seq<Binary64>>, k: int)
    requires
        crate::observation::is_first_mismatch(
            levels,
            loadings,
            crate::observation::implied_n_obs(levels, loadings),
            k,
        ),
    ensures
        !crate::observation::all_have_length(
            levels,
            loadings,
            crate::observation::implied_n_obs(levels, loadings),
        ),
{
    if k < levels.len() {
        assert(levels[k].len() != crate::observation::implied_n_obs(levels, loadings));
    } else {
        assert(loadings[k - levels.len()].len() != crate::observation::implied_n_obs(
            levels,
            loadings,
        ));
    }
}

/// The default options: keep singletons, sort for locality, no weights.
pub open spec fn default_options<'a>() -> DesignOptions<'a> {
    DesignOptions { drop_singletons: false, locality_sort: true, weights: None }
}

impl<'a> Default for DesignOptions<'a> {
    fn default() -> (options: Self)
        ensures
            options == default_options(),
    {
        DesignOptions { drop_singletons: false, locality_sort: true, weights: None }
    }
}

impl<'a> Design<'a> {
    /// Lower effect terms into a design, laid out term-major.
    pub fn new(effects: Vec<Effect<'a>>) -> (result: Result<Design<'a>, BuildError>)
        requires
            effect_slopes(effects@, effects@.len() as int).len() <= u32::MAX,
            effects@.len() + effect_slopes(effects@, effects@.len() as int).len() <= usize::MAX,
        ensures
            columns_outcome(
                effect_levels(effects@),
                effect_slopes(effects@, effects@.len() as int),
                effect_structure(effects@),
                default_options(),
                result,
            ),
    {
        DesignOptions::default().from_effects(effects)
    }

    /// Intercept-only factors, level count `max + 1`; locality-sorts an unsorted dominant factor.
    pub fn from_frame(frame: ObservationFrame<'a>) -> (result: Result<Design<'a>, BuildError>)
        requires
            frame.wf(),
        ensures
            crate::domain::design::build_outcome(
                frame.levels(),
                frame.loadings(),
                frame.spec_n_obs(),
                plain_structure(frame.levels().len()),
                default_options(),
                result,
            ),
    {
        DesignOptions::default().from_frame(frame)
    }

    /// [`from_frame`](Self::from_frame) without the locality sort - profiling escape hatch.
    pub fn from_frame_unsorted(frame: ObservationFrame<'a>) -> (result: Result<
        Design<'a>,
        BuildError,
    >)
        requires
            frame.wf(),
        ensures
            crate::domain::design::build_outcome(
                frame.levels(),
                frame.loadings(),
                frame.spec_n_obs(),
                plain_structure(frame.levels().len()),
                (DesignOptions { locality_sort: false, ..default_options() }),
                result,
            ),
    {
        DesignOptions::default().with_locality_sort(false).from_frame(frame)
    }

    /// Convert the frame's columns and the weights to owned, dropping ties to caller buffers.
    pub fn into_owned(self) -> (owned: Design<'static>)
        requires
            self.wf(),
        ensures
            owned.wf(),
            owned.frame.levels() == self.frame.levels(),
            owned.frame.loadings() == self.frame.loadings(),
            owned.terms == self.terms,
            owned.n_obs_input == self.n_obs_input,
            owned.n_obs == self.n_obs,
            owned.n_dofs == self.n_dofs,
            owned.rows == self.rows,
            owned.options.drop_singletons == self.options.drop_singletons,
            owned.options.locality_sort == self.options.locality_sort,
            crate::domain::design::optional_elements(owned.options.weights)
                == crate::domain::design::optional_elements(self.options.weights),
            owned.options.weights matches Some(w) ==> w is Owned,
    {
        let weights: Option<Cow<'static, [Binary64]>> = match self.options.weights {
            None => None,
            Some(w) => Some(owned_column(w)),
        };
        Design {
            frame: self.frame.into_owned(),
            terms: self.terms,
            n_obs_input: self.n_obs_input,
            n_obs: self.n_obs,
            n_dofs: self.n_dofs,
            rows: self.rows,
            options: DesignOptions {
                drop_singletons: self.options.drop_singletons,
                locality_sort: self.options.locality_sort,
                weights,
            },
        }
    }

    /// Caller order to retained internal order: `out[k] = v[rows[k]]`.
    ///
    /// Borrows when every caller row is retained in its original order.
    pub fn to_internal_order<'v, T: Clone>(&self, v: &'v [T]) -> (out: Cow<'v, [T]>)
        requires
            self.wf(),
            v@.len() == self.n_obs_input,
        ensures
            match self.rows {
                None => out matches Cow::Borrowed(slice) && slice == v,
                Some(rows) => out matches Cow::Owned(items) && items@.len() == rows@.len() && (
                forall|k: int|
                    0 <= k < rows@.len() ==> cloned(v@[rows@[k] as int], #[trigger] items@[k])),
            },
            is_internal_order(*self, v@, crate::observation::elements(out)),
    {
        let rows: Option<&[u32]> = match &self.rows {
            None => None,
            Some(rows) => Some(rows.as_slice()),
        };
        map_to_internal_order(rows, self.n_obs_input, v)
    }

    /// Retained internal order to original caller shape.
    ///
    /// Dropped caller rows are represented by not-a-number.
    pub fn from_internal_order(&self, v: Vec<Binary64>) -> (out: Vec<Binary64>)
        requires
            self.wf(),
            v@.len() == self.n_obs,
        ensures
            is_caller_order(*self, v@, out@),
    {
        match &self.rows {
            None => v,
            Some(rows) => restore_caller_order(
                rows.as_slice(),
                self.n_obs_input,
                v.as_slice(),
                Binary64 { bits: NAN_BITS },
            ),
        }
    }

    /// Number of categorical factors in the design.
    pub fn n_factors(&self) -> (n: usize)
        ensures
            n == self.terms@.len(),
    {
        self.terms.len()
    }

    /// The term's coefficient columns in layout order.
    pub fn channels(&self, term: usize) -> (channels: Vec<Channel>)
        requires
            term < self.terms@.len(),
        ensures
            channels@.len() == self.terms@[term as int].columns@.len(),
            forall|column: int|
                0 <= column < channels@.len() ==> #[trigger] channels@[column] == (Channel {
                    term,
                    column: column as usize,
                }),
    {
        let n_columns: usize = self.terms[term].n_columns();
        let mut channels: Vec<Channel> = Vec::with_capacity(n_columns);
        for column in 0..n_columns
            invariant
                channels@.len() == column,
                forall|c: int|
                    0 <= c < column ==> #[trigger] channels@[c] == (Channel {
                        term,
                        column: c as usize,
                    }),
        {
            channels.push(Channel { term, column });
        }
        channels
    }

    /// How `channel` loads onto each observation.
    pub fn loading(&self, channel: Channel) -> (loading: Loading<u32>)
        requires
            channel.term < self.terms@.len(),
            channel.column < self.terms@[channel.term as int].columns@.len(),
        ensures
            loading == self.terms@[channel.term as int].columns@[channel.column as int],
    {
        self.terms[channel.term].columns.as_slice()[channel.column]
    }

    /// Number of observations (rows of the design matrix).
    pub fn n_obs(&self) -> (n: usize)
        ensures
            n == self.n_obs,
    {
        self.n_obs
    }

    /// Number of rows expected in caller-provided observation vectors.
    pub fn input_n_obs(&self) -> (n: usize)
        ensures
            n == self.n_obs_input,
    {
        self.n_obs_input
    }

    /// Construction options retained by this design.
    pub fn options(&self) -> (options: &DesignOptions<'a>)
        ensures
            *options == self.options,
    {
        &self.options
    }

    /// Observation weights in caller row order.
    pub fn weights(&self) -> (weights: Option<&[Binary64]>)
        ensures
            match self.options.weights {
                None => weights is None,
                Some(w) => weights matches Some(slice) && slice@ == crate::observation::elements(w),
            },
    {
        self.options.weight_values()
    }

    /// Original caller row of internal position `internal`.
    pub open spec fn spec_caller_row(self, internal: int) -> int {
        match self.rows {
            None => internal,
            Some(rows) => rows@[internal] as int,
        }
    }

    /// Original caller row represented by an internal observation position.
    pub fn caller_row(&self, internal: usize) -> (row: usize)
        requires
            self.wf(),
            internal < self.n_obs,
        ensures
            row == self.spec_caller_row(internal as int),
            row < self.n_obs_input,
    {
        match &self.rows {
            None => internal,
            Some(rows) => rows[internal] as usize,
        }
    }

    /// Total degrees of freedom (columns of the design matrix).
    pub fn n_dofs(&self) -> (n: usize)
        ensures
            n == self.n_dofs,
    {
        self.n_dofs
    }
}

impl Design<'static> {
    /// Intercept-only factors from owned factor columns.
    pub fn from_store(store: FactorMajorStore) -> (result: Result<Design<'static>, BuildError>)
        requires
            store.wf(),
        ensures
            crate::domain::design::build_outcome(
                store.levels(),
                Seq::empty(),
                store.spec_n_obs(),
                plain_structure(store.levels().len()),
                default_options(),
                result,
            ),
    {
        Design::from_frame(store.into_frame())
    }
}

/// `internal[k]` is a clone of the value at the caller row of internal row `k`.
pub open spec fn is_internal_order<T: Clone>(
    design: Design<'_>,
    caller: Seq<T>,
    internal: Seq<T>,
) -> bool {
    match design.rows {
        None => internal == caller,
        Some(rows) => internal.len() == rows@.len() && forall|k: int|
            0 <= k < rows@.len() ==> cloned(caller[rows@[k] as int], #[trigger] internal[k]),
    }
}

/// `caller` holds `internal[k]` at the caller row of internal row `k`, and
/// not-a-number at removed rows.
pub open spec fn is_caller_order(
    design: Design<'_>,
    internal: Seq<Binary64>,
    caller: Seq<Binary64>,
) -> bool {
    match design.rows {
        None => caller == internal,
        Some(rows) => crate::domain::ordering::is_restored(
            rows@,
            design.n_obs_input as nat,
            internal,
            Binary64 { bits: NAN_BITS },
            caller,
        ),
    }
}

/// The design keeps the caller's row.
pub open spec fn keeps_row(design: Design<'_>, row: int) -> bool {
    match design.rows {
        None => true,
        Some(rows) => rows@.contains(row as u32),
    }
}

/// Bringing values into internal order and back gives every row that the design
/// keeps its own value, and every other row not-a-number.
pub proof fn law_internal_order_and_back(
    design: Design<'_>,
    caller: Seq<Binary64>,
    internal: Seq<Binary64>,
    back: Seq<Binary64>,
)
    requires
        design.wf(),
        caller.len() == design.n_obs_input,
        is_internal_order(design, caller, internal),
        is_caller_order(design, internal, back),
    ensures
        internal.len() == design.n_obs,
        back.len() == design.n_obs_input,
        forall|row: int|
            0 <= row < design.n_obs_input ==> #[trigger] back[row] == if keeps_row(design, row) {
                caller[row]
            } else {
                Binary64 { bits: NAN_BITS }
            },
{
    match design.rows {
        None => {},
        Some(rows) => {
            assert(internal =~= crate::observation::selected(caller, rows@));
            crate::domain::ordering::law_select_then_restore(
                rows@,
                caller,
                Binary64 { bits: NAN_BITS },
                back,
            );
        },
    }
}

/// Bringing values back from internal order and into it again changes nothing.
pub proof fn law_caller_order_and_back(
    design: Design<'_>,
    internal: Seq<Binary64>,
    caller: Seq<Binary64>,
    again: Seq<Binary64>,
)
    requires
        design.wf(),
        internal.len() == design.n_obs,
        is_caller_order(design, internal, caller),
        is_internal_order(design, caller, again),
    ensures
        caller.len() == design.n_obs_input,
        again == internal,
{
    match design.rows {
        None => {},
        Some(rows) => {
            crate::domain::ordering::law_restore_then_select(
                rows@,
                design.n_obs_input as nat,
                internal,
                Binary64 { bits: NAN_BITS },
                caller,
            );
            assert(again =~= crate::observation::selected(caller, rows@));
        },
    }
}

/// Every covariate column of every effect names its own covariate: the number that
/// stands for it is the covariate's place in the list of all covariates. Constant
/// columns stay constant, and no column is added or lost.
pub proof fn law_covariates_are_found_again(effects: Seq<Effect<'_>>, t: int, c: int)
    requires
        0 <= t < effects.len(),
        0 <= c < effects[t].spec_columns().len(),
        effect_slopes(effects, effects.len() as int).len() <= u32::MAX,
    ensures
        effect_structure(effects).len() == effects.len(),
        effect_structure(effects)[t].len() == effects[t].spec_columns().len(),
        match effects[t].spec_columns()[c] {
            Loading::Constant => effect_structure(effects)[t][c] == Loading::<u32>::Constant,
            Loading::Covariate(z) => effect_structure(effects)[t][c] matches Loading::Covariate(i)
                && i < effect_slopes(effects, effects.len() as int).len() && effect_slopes(
                effects,
                effects.len() as int,
            )[i as int] == z@,
        },
{
    let columns = effects[t].spec_columns();
    match columns[c] {
        Loading::Constant => {},
        Loading::Covariate(z) => {
            let base = effect_slopes(effects, t).len() as int;
            let own = slopes_of(columns, c).len() as int;
            lemma_slopes_prefix(columns, c + 1, columns.len() as int);
            assert(slopes_of(columns, c + 1) == slopes_of(columns, c).push(z@));
            let all = slopes_of(columns, columns.len() as int);
            assert(all[own] == z@) by {
                assert(all.take(own + 1) == slopes_of(columns, c + 1));
                assert(all.take(own + 1)[own] == all[own]);
            }
            let n = effects.len() as int;
            lemma_effect_slopes_prefix(effects, t + 1, n);
            let upto = effect_slopes(effects, t + 1);
            assert(upto == effect_slopes(effects, t) + all);
            assert(upto[base + own] == z@);
            let whole = effect_slopes(effects, n);
            assert(whole.take(upto.len() as int)[base + own] == whole[base + own]);
            assert(base + own < whole.len());
        },
    }
}

proof fn lemma_slopes_prefix(columns: Seq<Loading<&[Binary64]>>, a: int, b: int)
    requires
        0 <= a <= b,
    ensures
        slopes_of(columns, a).len() <= slopes_of(columns, b).len(),
        slopes_of(columns, b).take(slopes_of(columns, a).len() as int) == slopes_of(columns, a),
    decreases b - a,
{
    let short = slopes_of(columns, a);
    if a < b {
        lemma_slopes_prefix(columns, a, b - 1);
        let middle = slopes_of(columns, b - 1);
        assert(slopes_of(columns, b).take(short.len() as int) =~= middle.take(short.len() as int));
    } else {
        assert(short.take(short.len() as int) =~= short);
    }
}

proof fn lemma_effect_slopes_prefix(effects: Seq<Effect<'_>>, a: int, b: int)
    requires
        0 <= a <= b,
    ensures
        effect_slopes(effects, a).len() <= effect_slopes(effects, b).len(),
        effect_slopes(effects, b).take(effect_slopes(effects, a).len() as int) == effect_slopes(
            effects,
            a,
        ),
    decreases b - a,
{
    let short = effect_slopes(effects, a);
    if a < b {
        lemma_effect_slopes_prefix(effects, a, b - 1);
        let middle = effect_slopes(effects, b - 1);
        assert(effect_slopes(effects, b).take(short.len() as int) =~= middle.take(
            short.len() as int,
        ));
    } else {
        assert(short.take(short.len() as int) =~= short);
    }
}

} // verus!
