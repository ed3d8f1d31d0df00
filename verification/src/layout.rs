//! Where each coefficient lies in the solution vector.

use vstd::prelude::*;

use crate::domain::access::Channel;
use crate::domain::design::Design;

verus! {

/// A coefficient by term, column and level.
#[derive(Debug, Clone, Copy, PartialEq, Eq, Structural)]
pub struct CoefficientAddress {
    /// Term and column.
    pub channel: Channel,
    /// Level.
    pub level: usize,
}

/// The block of coefficients of one term.
#[derive(Debug, Clone, Copy, PartialEq, Eq, Structural)]
pub struct TermBlock {
    /// First coefficient.
    pub offset: usize,
    /// Number of levels.
    pub n_levels: usize,
    /// Number of columns.
    pub n_columns: usize,
}

impl TermBlock {
    /// Number of coefficients.
    pub open spec fn size(self) -> nat {
        self.n_columns as nat * self.n_levels as nat
    }
}

/// Coefficient layout of a design: term after term, within a term column after
/// column, within a column level after level.
#[derive(Debug)]
pub struct CoefficientLayout {
    terms: Vec<TermBlock>,
    n_dofs: usize,
}

/// First coefficient after the blocks before `t`.
pub open spec fn start_of(terms: Seq<TermBlock>, t: int) -> nat
    decreases t,
{
    if t <= 0 {
        0
    } else {
        start_of(terms, t - 1) + terms[t - 1].size()
    }
}

proof fn lemma_start_monotone(terms: Seq<TermBlock>, a: int, b: int)
    requires
        0 <= a <= b,
    ensures
        start_of(terms, a) <= start_of(terms, b),
    decreases b - a,
{
    if a < b {
        lemma_start_monotone(terms, a, b - 1);
    }
}

/// A place within a block of `n_columns` columns of `n_levels` levels.
proof fn lemma_place_in_block(n_columns: int, n_levels: int, column: int, level: int)
    requires
        0 <= column < n_columns,
        0 <= level < n_levels,
    ensures
        0 <= column * n_levels + level < n_columns * n_levels,
        (column * n_levels + level) / n_levels == column,
        (column * n_levels + level) % n_levels == level,
{
    assert(0 <= column * n_levels) by (nonlinear_arith)
        requires
            0 <= column,
            0 < n_levels,
    ;
    assert((column + 1) * n_levels <= n_columns * n_levels) by (nonlinear_arith)
        requires
            column + 1 <= n_columns,
            0 < n_levels,
    ;
    assert((column + 1) * n_levels == column * n_levels + n_levels) by (nonlinear_arith);
    vstd::arithmetic::div_mod::lemma_fundamental_div_mod_converse(
        column * n_levels + level,
        n_levels,
        column,
        level,
    );
}

/// The layout has the design's terms, one block each.
pub open spec fn is_layout_of(design: Design<'_>, layout: CoefficientLayout) -> bool {
    &&& layout.blocks().len() == design.terms@.len()
    &&& forall|t: int|
        0 <= t < design.terms@.len() ==> {
            &&& (#[trigger] layout.blocks()[t]).offset == design.terms@[t].offset
            &&& layout.blocks()[t].n_levels == design.terms@[t].n_levels
            &&& layout.blocks()[t].n_columns == design.terms@[t].columns@.len()
        }
    &&& layout.spec_n_dofs() == design.n_dofs
}

impl CoefficientLayout {
    /// The terms' blocks.
    pub closed spec fn blocks(self) -> Seq<TermBlock> {
        self.terms@
    }

    /// Number of coefficients.
    pub closed spec fn spec_n_dofs(self) -> nat {
        self.n_dofs as nat
    }

    /// The blocks lie one after another and fill the coefficient space.
    #[verifier::type_invariant]
    pub open spec fn wf(self) -> bool {
        &&& forall|t: int|
            0 <= t < self.blocks().len() ==> (#[trigger] self.blocks()[t]).offset == start_of(
                self.blocks(),
                t,
            )
        &&& self.spec_n_dofs() == start_of(self.blocks(), self.blocks().len() as int)
    }

    /// The address names a coefficient.
    pub open spec fn has(self, a: CoefficientAddress) -> bool {
        &&& a.channel.term < self.blocks().len()
        &&& a.channel.column < self.blocks()[a.channel.term as int].n_columns
        &&& a.level < self.blocks()[a.channel.term as int].n_levels
    }

    /// Position of the coefficient.
    pub open spec fn position(self, a: CoefficientAddress) -> int {
        let block = self.blocks()[a.channel.term as int];
        block.offset + a.channel.column * block.n_levels + a.level
    }

    /// The layout of a design.
    pub fn from_design(design: &Design<'_>) -> (layout: Self)
        requires
            design.wf(),
        ensures
            is_layout_of(*design, layout),
    {
        let n: usize = design.terms.len();
        let mut terms: Vec<TermBlock> = Vec::with_capacity(n);
        let mut t: usize = 0;
        while t < n
            invariant
                t <= n == design.terms@.len(),
                design.wf(),
                terms@.len() == t,
                forall|s: int|
                    0 <= s < t ==> {
                        &&& (#[trigger] terms@[s]).offset == design.terms@[s].offset
                        &&& terms@[s].n_levels == design.terms@[s].n_levels
                        &&& terms@[s].n_columns == design.terms@[s].columns@.len()
                    },
            decreases n - t,
        {
            let term = &design.terms[t];
            terms.push(
                TermBlock {
                    offset: term.offset,
                    n_levels: term.n_levels,
                    n_columns: term.n_columns(),
                },
            );
            t = t + 1;
        }
        proof {
            assert forall|t: int| 0 <= t <= n implies #[trigger] start_of(terms@, t)
                == crate::domain::design::offset_before(design.terms@, t) by {
                lemma_same_start(*design, terms@, t);
            }
        }
        CoefficientLayout { terms, n_dofs: design.n_dofs }
    }

    /// Number of terms.
    pub fn n_terms(&self) -> (n: usize)
        ensures
            n == self.blocks().len(),
    {
        self.terms.len()
    }

    /// Number of levels of a term; `None` past the last term.
    pub fn n_levels(&self, term: usize) -> (n: Option<usize>)
        ensures
            n == if term < self.blocks().len() {
                Some(self.blocks()[term as int].n_levels)
            } else {
                None
            },
    {
        if term < self.terms.len() {
            Some(self.terms[term].n_levels)
        } else {
            None
        }
    }

    /// Number of columns of a term; `None` past the last term.
    pub fn n_columns(&self, term: usize) -> (n: Option<usize>)
        ensures
            n == if term < self.blocks().len() {
                Some(self.blocks()[term as int].n_columns)
            } else {
                None
            },
    {
        if term < self.terms.len() {
            Some(self.terms[term].n_columns)
        } else {
            None
        }
    }

    /// Number of coefficients.
    pub fn n_dofs(&self) -> (n: usize)
        ensures
            n == self.spec_n_dofs(),
    {
        self.n_dofs
    }

    /// Position of a coefficient: `offset + column * n_levels + level`.
    ///
    /// `None` if a coordinate is out of range.
    pub fn index(&self, address: CoefficientAddress) -> (index: Option<usize>)
        ensures
            match index {
                Some(i) => self.has(address) && i == self.position(address) && i
                    < self.spec_n_dofs(),
                None => !self.has(address),
            },
    {
        proof {
            use_type_invariant(self);
        }
        let Channel { term, column } = address.channel;
        if term >= self.terms.len() {
            return None;
        }
        let block: TermBlock = self.terms[term];
        if column >= block.n_columns || address.level >= block.n_levels {
            return None;
        }
        proof {
            lemma_place_in_block(
                block.n_columns as int,
                block.n_levels as int,
                column as int,
                address.level as int,
            );
            lemma_start_monotone(self.terms@, term + 1, self.terms@.len() as int);
            assert(start_of(self.terms@, term + 1) == block.offset + block.size());
            assert(0 <= column * block.n_levels) by (nonlinear_arith);
        }
        Some(block.offset + column * block.n_levels + address.level)
    }

    /// The coefficient at a position; `None` past the last one.
    pub fn address(&self, index: usize) -> (address: Option<CoefficientAddress>)
        ensures
            match address {
                Some(a) => self.has(a) && self.position(a) == index,
                None => index >= self.spec_n_dofs(),
            },
            address is Some <==> index < self.spec_n_dofs(),
    {
        proof {
            use_type_invariant(self);
        }
        if index >= self.n_dofs {
            return None;
        }
        let n: usize = self.terms.len();
        let mut term: usize = 0;
        while term < n
            invariant
                term <= n == self.terms@.len(),
                self.wf(),
                self.blocks() == self.terms@,
                index < self.spec_n_dofs(),
                start_of(self.terms@, term as int) <= index,
            decreases n - term,
        {
            let block: TermBlock = self.terms[term];
            assert(block.offset == start_of(self.terms@, term as int));
            let within: usize = index - block.offset;
            proof {
                assert(start_of(self.terms@, term + 1) == block.offset + block.size());
                lemma_start_monotone(self.terms@, term + 1, n as int);
            }
            if block.n_levels > 0 && within / block.n_levels < block.n_columns {
                let column: usize = within / block.n_levels;
                let level: usize = within % block.n_levels;
                proof {
                    vstd::arithmetic::div_mod::lemma_fundamental_div_mod(
                        within as int,
                        block.n_levels as int,
                    );
                    assert(block.n_levels * (within / block.n_levels) == column * block.n_levels)
                        by (nonlinear_arith)
                        requires
                            column == within / block.n_levels,
                    ;
                }
                let channel = Channel { term, column };
                return Some(CoefficientAddress { channel, level });
            }
            proof {
                let levels = block.n_levels as int;
                let columns = block.n_columns as int;
                if levels > 0 {
                    vstd::arithmetic::div_mod::lemma_fundamental_div_mod(within as int, levels);
                    assert(levels * (within as int / levels) >= columns * levels)
                        by (nonlinear_arith)
                        requires
                            within as int / levels >= columns,
                            levels > 0,
                    ;
                } else {
                    assert(columns * levels == 0) by (nonlinear_arith)
                        requires
                            levels == 0,
                    ;
                }
                assert(within >= block.size());
            }
            term = term + 1;
        }
        None
    }
}

proof fn lemma_same_start(design: Design<'_>, terms: Seq<TermBlock>, t: int)
    requires
        terms.len() == design.terms@.len(),
        forall|s: int|
            0 <= s < terms.len() ==> {
                &&& (#[trigger] terms[s]).n_levels == design.terms@[s].n_levels
                &&& terms[s].n_columns == design.terms@[s].columns@.len()
            },
        0 <= t <= terms.len(),
    ensures
        start_of(terms, t) == crate::domain::design::offset_before(design.terms@, t),
    decreases t,
{
    if t > 0 {
        lemma_same_start(design, terms, t - 1);
        assert(terms[t - 1].size() == design.terms@[t - 1].spec_n_dofs());
    }
}

/// Two addresses of one position are the same address.
///
/// So looking up the address of an index and indexing an address undo each
/// other, both ways.
pub proof fn law_positions_are_distinct(
    layout: CoefficientLayout,
    a: CoefficientAddress,
    b: CoefficientAddress,
)
    requires
        layout.wf(),
        layout.has(a),
        layout.has(b),
        layout.position(a) == layout.position(b),
    ensures
        a == b,
{
    let blocks = layout.blocks();
    let s = a.channel.term as int;
    let t = b.channel.term as int;
    lemma_place_in_block(
        blocks[s].n_columns as int,
        blocks[s].n_levels as int,
        a.channel.column as int,
        a.level as int,
    );
    lemma_place_in_block(
        blocks[t].n_columns as int,
        blocks[t].n_levels as int,
        b.channel.column as int,
        b.level as int,
    );
    assert(start_of(blocks, s + 1) == blocks[s].offset + blocks[s].size());
    assert(start_of(blocks, t + 1) == blocks[t].offset + blocks[t].size());
    if s < t {
        lemma_start_monotone(blocks, s + 1, t);
    }
    if t < s {
        lemma_start_monotone(blocks, t + 1, s);
    }
}

/// Every position below the number of coefficients has an address.
pub proof fn law_every_position_has_an_address(layout: CoefficientLayout, index: int)
    requires
        layout.wf(),
        0 <= index < layout.spec_n_dofs(),
        layout.blocks().len() <= usize::MAX,
    ensures
        exists|a: CoefficientAddress| #[trigger] layout.has(a) && layout.position(a) == index,
{
    let n = layout.blocks().len() as int;
    lemma_address_exists(layout, index, n);
}

proof fn lemma_address_exists(layout: CoefficientLayout, index: int, t: int)
    requires
        layout.wf(),
        0 <= t <= layout.blocks().len() <= usize::MAX,
        0 <= index < start_of(layout.blocks(), t),
    ensures
        exists|a: CoefficientAddress| #[trigger] layout.has(a) && layout.position(a) == index,
    decreases t,
{
    let blocks = layout.blocks();
    if t > 0 && index < start_of(blocks, t - 1) {
        lemma_address_exists(layout, index, t - 1);
    } else if t > 0 {
        let block = blocks[t - 1];
        assert(block.offset == start_of(blocks, t - 1));
        let within = index - block.offset;
        let levels = block.n_levels as int;
        let columns = block.n_columns as int;
        assert(0 <= within < columns * levels);
        if levels <= 0 {
            assert(columns * levels <= 0) by (nonlinear_arith)
                requires
                    levels <= 0,
                    columns >= 0,
            ;
        }
        vstd::arithmetic::div_mod::lemma_fundamental_div_mod(within, levels);
        let column = within / levels;
        let level = within % levels;
        assert(0 <= column < columns) by (nonlinear_arith)
            requires
                0 <= within < columns * levels,
                column == within / levels,
                levels > 0,
        ;
        assert(levels * column == column * levels) by (nonlinear_arith);
        let a = CoefficientAddress {
            channel: Channel { term: (t - 1) as usize, column: column as usize },
            level: level as usize,
        };
        assert(layout.has(a));
        assert(layout.position(a) == index);
    }
}

/// Coefficients lie in the order of term, column and level: the first one is at
/// zero; the next level of a column is the next position; the first level of the
/// next column follows the last level of a column, and the first coefficient of
/// the next term the last one of a term.
pub proof fn law_coefficients_lie_in_order(
    layout: CoefficientLayout,
    a: CoefficientAddress,
    b: CoefficientAddress,
)
    requires
        layout.wf(),
        layout.has(a),
        layout.has(b),
    ensures
        a.channel.term == 0 && a.channel.column == 0 && a.level == 0 ==> layout.position(a) == 0,
        b.channel == a.channel && b.level == a.level + 1 ==> layout.position(b) == layout.position(
            a,
        ) + 1,
        b.channel.term == a.channel.term && b.channel.column == a.channel.column + 1 && b.level == 0
            && a.level == layout.blocks()[a.channel.term as int].n_levels - 1 ==> layout.position(b)
            == layout.position(a) + 1,
        b.channel.term == a.channel.term + 1 && b.channel.column == 0 && b.level == 0
            && a.channel.column == layout.blocks()[a.channel.term as int].n_columns - 1 && a.level
            == layout.blocks()[a.channel.term as int].n_levels - 1 ==> layout.position(b)
            == layout.position(a) + 1,
{
    let t = a.channel.term as int;
    let block = layout.blocks()[t];
    assert(block.offset == start_of(layout.blocks(), t));
    let n = block.n_levels as int;
    let c = a.channel.column as int;
    assert((c + 1) * n == c * n + n) by (nonlinear_arith);
    assert(0 * n == 0) by (nonlinear_arith);
    if b.channel.term == t + 1 {
        assert(layout.blocks()[t + 1].offset == start_of(layout.blocks(), t + 1));
        let m = layout.blocks()[t + 1].n_levels as int;
        assert(0 * m == 0) by (nonlinear_arith);
        if a.channel.column == block.n_columns - 1 {
            assert(block.size() == c * n + n) by (nonlinear_arith)
                requires
                    block.size() == block.n_columns as nat * block.n_levels as nat,
                    block.n_columns == c + 1,
                    n == block.n_levels,
            ;
        }
    }
}

/// A layout of a design places every coefficient of the design: the coefficient of
/// a level in a column of a term lies at the term's offset plus the column times
/// the number of levels plus the level; no other address names one.
pub proof fn law_layout_places_the_designs_coefficients(
    design: Design<'_>,
    layout: CoefficientLayout,
    a: CoefficientAddress,
)
    requires
        design.wf(),
        is_layout_of(design, layout),
    ensures
        layout.has(a) <==> a.channel.term < design.terms@.len() && a.channel.column
            < design.terms@[a.channel.term as int].columns@.len() && a.level
            < design.terms@[a.channel.term as int].n_levels,
        layout.has(a) ==> layout.position(a) == design.terms@[a.channel.term as int].offset
            + a.channel.column * design.terms@[a.channel.term as int].n_levels + a.level,
        layout.spec_n_dofs() == design.n_dofs,
{
}

} // verus!
