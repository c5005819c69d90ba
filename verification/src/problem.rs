//! Integer linear problems handed to a solver, and what it reports back.
//!
//! All coefficients are integers within the range a double-precision solver represents
//! exactly.
use vstd::prelude::*;

verus! {

/// Largest magnitude an integer may have to be represented exactly by the solver.
pub const EXACT_LIMIT: u64 = 9007199254740992u64;

/// `x` is represented exactly by the solver.
pub open spec fn exact(x: int) -> bool {
    -(EXACT_LIMIT as int) <= x && x <= EXACT_LIMIT as int
}

/// Whether the objective is minimized or maximized.
#[derive(Debug, Clone, Copy, PartialEq, Eq, Structural)]
pub enum Sense {
    /// Find the smallest objective.
    Minimize,
    /// Find the largest objective.
    Maximize,
}

/// How the left side of a constraint compares to its right side.
#[derive(Debug, Clone, Copy, PartialEq, Eq, Structural)]
pub enum Relation {
    /// Equal to the right side.
    Equal,
    /// At most the right side.
    AtMost,
    /// At least the right side.
    AtLeast,
}

/// The values a variable may take.
#[derive(Debug, Clone, Copy, PartialEq, Eq, Structural)]
pub enum VarKind {
    /// Zero or one.
    Binary,
    /// An integer between the two bounds, inclusive.
    Integer(i64, i64),
}

/// A variable with its objective coefficient.
#[derive(Debug, Clone, Copy, PartialEq, Eq, Structural)]
pub struct Variable {
    /// Coefficient of the variable in the objective.
    pub cost: i64,
    /// The values the variable may take.
    pub kind: VarKind,
}

/// A linear constraint `sum(coeff * var) relation rhs`.
#[derive(Debug, Clone, PartialEq)]
pub struct Constraint {
    /// Variable positions with their coefficients.
    pub terms: Vec<(usize, i64)>,
    /// How the sum compares to the right side.
    pub relation: Relation,
    /// Right side.
    pub rhs: i64,
}

/// The content of a constraint.
pub struct ConstraintView {
    /// Variable positions with their coefficients.
    pub terms: Seq<(usize, i64)>,
    /// How the sum compares to the right side.
    pub relation: Relation,
    /// Right side.
    pub rhs: i64,
}

impl Constraint {
    /// The content of this constraint.
    pub open spec fn view(&self) -> ConstraintView {
        ConstraintView { terms: self.terms@, relation: self.relation, rhs: self.rhs }
    }
}

/// An integer linear problem.
#[derive(Debug, Clone, PartialEq)]
pub struct LinearProblem {
    /// Direction of the objective.
    pub sense: Sense,
    /// Time budget for the solver in milliseconds, if any.
    pub time_limit_ms: Option<u64>,
    /// The variables, by position.
    pub variables: Vec<Variable>,
    /// The constraints, in order.
    pub constraints: Vec<Constraint>,
}

/// The content of a linear problem.
pub struct ProblemView {
    /// Direction of the objective.
    pub sense: Sense,
    /// Time budget for the solver in milliseconds, if any.
    pub time_limit_ms: Option<u64>,
    /// The variables, by position.
    pub variables: Seq<Variable>,
    /// The constraints, in order.
    pub constraints: Seq<ConstraintView>,
}

/// The contents of the constraints.
pub open spec fn constraint_views(c: Seq<Constraint>) -> Seq<ConstraintView> {
    c.map_values(|x: Constraint| x@)
}

impl LinearProblem {
    /// The content of this problem.
    pub open spec fn view(&self) -> ProblemView {
        ProblemView {
            sense: self.sense,
            time_limit_ms: self.time_limit_ms,
            variables: self.variables@,
            constraints: constraint_views(self.constraints@),
        }
    }
}

/// How a solver failed.
#[derive(Debug, Clone, Copy, PartialEq, Eq, Structural)]
pub enum LpFailure {
    /// No assignment meets the constraints.
    Infeasible,
    /// The objective improves without limit.
    Unbounded,
    /// Any other failure of the solver.
    Other,
}

/// The value the solver found for one variable.
#[derive(Debug, Clone, Copy, PartialEq, Eq, Structural)]
pub struct SolvedValue {
    /// The value is greater than zero.
    pub positive: bool,
    /// The value as a whole number of pages, when it converts to one.
    pub whole: Option<u64>,
}

/// What a solver reports on a problem.
#[derive(Debug, Clone, PartialEq)]
pub enum SolveReport {
    /// A solution: one value per variable, by position.
    Solved(Vec<SolvedValue>),
    /// The time budget ran out before a solution was found.
    Interrupted,
    /// The solver failed.
    Failed(LpFailure),
}

/// Value of the terms `terms` under the assignment `x`.
pub open spec fn terms_value(terms: Seq<(usize, i64)>, x: Seq<int>) -> int
    decreases terms.len(),
{
    if terms.len() == 0 {
        0
    } else {
        terms_value(terms.drop_last(), x) + terms.last().1 * x[terms.last().0 as int]
    }
}

/// The assignment `x` meets the constraint `c`.
pub open spec fn holds(c: ConstraintView, x: Seq<int>) -> bool {
    match c.relation {
        Relation::Equal => terms_value(c.terms, x) == c.rhs,
        Relation::AtMost => terms_value(c.terms, x) <= c.rhs,
        Relation::AtLeast => terms_value(c.terms, x) >= c.rhs,
    }
}

/// The assignment `x` meets every constraint of `p`.
pub open spec fn satisfies(p: ProblemView, x: Seq<int>) -> bool {
    forall|i: int| 0 <= i < p.constraints.len() ==> holds(#[trigger] p.constraints[i], x)
}

/// The zero-or-one assignment a solution stands for: one where the value is positive.
pub open spec fn selection(values: Seq<SolvedValue>) -> Seq<int> {
    values.map_values(|v: SolvedValue| if v.positive {
        1int
    } else {
        0int
    })
}

} // verus!
