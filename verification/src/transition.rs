//! Transition matrices: which error, if any, a candidate matrix is refused
//! with, and the sequence of multiplications that raises a matrix to a power
//! by repeated squaring.

use vstd::prelude::*;

verus! {

/// Why a candidate transition matrix was refused.
#[derive(Debug, Clone, Copy, PartialEq, Eq, Structural)]
pub enum MatrixError {
    /// A row does not have one entry per state.
    NotSquare,
    /// An entry lies outside `[0, 1]`.
    OutOfRange,
    /// A row does not sum to one.
    RowSum,
}

impl MatrixError {
    /// The message that reports this error.
    pub fn message(&self) -> (s: &'static str)
        ensures
            *self == MatrixError::NotSquare ==> s@ == "Matrix must be square"@,
            *self == MatrixError::OutOfRange ==> s@ == "Probabilities must be in [0,1]"@,
            *self == MatrixError::RowSum ==> s@ == "Each row must sum to 1.0"@,
    {
        match self {
            MatrixError::NotSquare => "Matrix must be square",
            MatrixError::OutOfRange => "Probabilities must be in [0,1]",
            MatrixError::RowSum => "Each row must sum to 1.0",
        }
    }
}

/// What validation reads of one row of a candidate matrix: its length,
/// whether every entry lies in `[0, 1]`, and whether the entries sum to one.
#[derive(Debug, Clone, Copy, PartialEq, Eq, Structural)]
pub struct RowCheck {
    /// Number of entries in the row.
    pub len: usize,
    /// Every entry lies in `[0, 1]`.
    pub in_range: bool,
    /// The entries sum to one.
    pub sums_to_one: bool,
}

/// The error a row of an `n`-state matrix is refused with, if any: its
/// length is checked first, then its entries, then its sum.
pub open spec fn row_error(n: nat, row: RowCheck) -> Option<MatrixError> {
    if row.len != n {
        Some(MatrixError::NotSquare)
    } else if !row.in_range {
        Some(MatrixError::OutOfRange)
    } else if !row.sums_to_one {
        Some(MatrixError::RowSum)
    } else {
        None
    }
}

/// Validates a candidate matrix row by row. The number of states is the
/// number of rows. The matrix is accepted, with that number of states, when
/// no row has an error; otherwise it is refused with the error of the first
/// row that has one.
pub fn check_rows(rows: &Vec<RowCheck>) -> (r: Result<usize, MatrixError>)
    ensures
        r is Ok <==> forall|i: int| 0 <= i < rows.len() ==> row_error(rows.len() as nat, #[trigger] rows@[i]) is None,
        r is Ok ==> r->Ok_0 == rows.len(),
        r is Err ==> exists|i: int|
            0 <= i < rows.len() && row_error(rows.len() as nat, #[trigger] rows@[i]) == Some(r->Err_0)
                && forall|j: int| 0 <= j < i ==> row_error(rows.len() as nat, #[trigger] rows@[j]) is None,
        r is Ok <==> forall|i: int|
            0 <= i < rows.len() ==> (#[trigger] rows@[i]).len == rows.len() && rows@[i].in_range
                && rows@[i].sums_to_one,
        r is Err ==> exists|i: int|
            0 <= i < rows.len() && (forall|j: int|
                0 <= j < i ==> (#[trigger] rows@[j]).len == rows.len() && rows@[j].in_range
                    && rows@[j].sums_to_one) && !((#[trigger] rows@[i]).len == rows.len()
                && rows@[i].in_range && rows@[i].sums_to_one) && r->Err_0 == (if rows@[i].len
                != rows.len() {
                MatrixError::NotSquare
            } else if !rows@[i].in_range {
                MatrixError::OutOfRange
            } else {
                MatrixError::RowSum
            }),
{
    let n = rows.len();
    let mut i: usize = 0;
    while i < n
        invariant
            n == rows.len(),
            i <= n,
            forall|j: int| 0 <= j < i ==> row_error(n as nat, #[trigger] rows@[j]) is None,
        decreases n - i,
    {
        let row = rows[i];
        if row.len != n {
            assert(row_error(n as nat, rows@[i as int]) == Some(MatrixError::NotSquare));
            return Err(MatrixError::NotSquare);
        }
        if !row.in_range {
            assert(row_error(n as nat, rows@[i as int]) == Some(MatrixError::OutOfRange));
            return Err(MatrixError::OutOfRange);
        }
        if !row.sums_to_one {
            assert(row_error(n as nat, rows@[i as int]) == Some(MatrixError::RowSum));
            return Err(MatrixError::RowSum);
        }
        i = i + 1;
    }
    proof {
        assert forall|i: int| 0 <= i < n implies (#[trigger] rows@[i]).len == n
            && rows@[i].in_range && rows@[i].sums_to_one by {
            lemma_row_error_cases(n as nat, rows@[i]);
        }
    }
    Ok(n)
}

/// A row has no error exactly when it has one entry per row of the matrix,
/// all its entries are in range and it sums to one; a row of any other
/// length is refused as not square, whatever its entries; a row of the right
/// length is refused for its range before its sum.
pub proof fn lemma_row_error_cases(n: nat, row: RowCheck)
    ensures
        row_error(n, row) is None <==> (row.len == n && row.in_range && row.sums_to_one),
        row.len != n ==> row_error(n, row) == Some(MatrixError::NotSquare),
        row.len == n && !row.in_range ==> row_error(n, row) == Some(MatrixError::OutOfRange),
        row.len == n && row.in_range && !row.sums_to_one ==> row_error(n, row) == Some(
            MatrixError::RowSum,
        ),
{
}

/// Validation accepts only square matrices: the rows of a matrix are all
/// free of errors exactly when every row has one entry per row, entries in
/// range and sum one.
pub proof fn lemma_accepted_rows_are_square(rows: Seq<RowCheck>)
    ensures
        (forall|i: int| 0 <= i < rows.len() ==> row_error(rows.len(), #[trigger] rows[i]) is None)
            <==> (forall|i: int|
            0 <= i < rows.len() ==> (#[trigger] rows[i]).len == rows.len() && rows[i].in_range
                && rows[i].sums_to_one),
{
    assert forall|i: int| 0 <= i < rows.len() implies (row_error(rows.len(), #[trigger] rows[i]) is None
        <==> (rows[i].len == rows.len() && rows[i].in_range && rows[i].sums_to_one)) by {
        lemma_row_error_cases(rows.len(), rows[i]);
    }
}

/// What the accumulator of a matrix power starts as.
#[derive(Debug, Clone, Copy, PartialEq, Eq, Structural)]
pub enum PowerStart {
    /// The identity matrix (the zeroth power).
    Identity,
    /// A copy of the matrix itself (the first power).
    Copy,
}

/// One multiplication in raising a matrix to a power.
#[derive(Debug, Clone, Copy, PartialEq, Eq, Structural)]
pub enum PowerStep {
    /// Multiply the accumulator by the current base: `result = result * base`.
    MultiplyResult,
    /// Square the current base: `base = base * base`.
    SquareBase,
}

/// The multiplications that raise a matrix to a power: the accumulator's
/// starting value, then the steps in order. The base starts as the matrix.
#[derive(Debug)]
pub struct PowerPlan {
    /// What the accumulator starts as.
    pub start: PowerStart,
    /// The multiplications, in the order they are made.
    pub steps: Vec<PowerStep>,
}

/// The power of the matrix that the accumulator holds at the start.
pub open spec fn start_exponent(start: PowerStart) -> nat {
    match start {
        PowerStart::Identity => 0,
        PowerStart::Copy => 1,
    }
}

/// The powers of the matrix held by the accumulator and by the base after
/// `steps`, when they hold the `result`-th and `base`-th powers before.
pub open spec fn run_steps(steps: Seq<PowerStep>, result: nat, base: nat) -> (nat, nat)
    decreases steps.len(),
{
    if steps.len() == 0 {
        (result, base)
    } else {
        match steps[0] {
            PowerStep::MultiplyResult => run_steps(steps.drop_first(), result + base, base),
            PowerStep::SquareBase => run_steps(steps.drop_first(), result, base + base),
        }
    }
}

/// The steps of repeated squaring for the remaining exponent `e`: while `e`
/// is positive, multiply the accumulator by the base if `e` is odd, square
/// the base, and halve `e`.
pub open spec fn squaring_steps(e: nat) -> Seq<PowerStep>
    decreases e,
{
    if e == 0 {
        Seq::empty()
    } else if e % 2 == 1 {
        seq![PowerStep::MultiplyResult, PowerStep::SquareBase] + squaring_steps(e / 2)
    } else {
        seq![PowerStep::SquareBase] + squaring_steps(e / 2)
    }
}

proof fn lemma_run_prefix(x: PowerStep, rest: Seq<PowerStep>, result: nat, base: nat)
    ensures
        run_steps(seq![x] + rest, result, base) == match x {
            PowerStep::MultiplyResult => run_steps(rest, result + base, base),
            PowerStep::SquareBase => run_steps(rest, result, base + base),
        },
{
    assert((seq![x] + rest).drop_first() =~= rest);
}

/// What the steps do to the powers held: multiplying the accumulator by the
/// base adds the base's power to the accumulator's, squaring the base doubles
/// its power, no step leaves both unchanged, and a plan runs its steps one
/// after another.
pub proof fn lemma_run_steps_semantics(
    s1: Seq<PowerStep>,
    s2: Seq<PowerStep>,
    result: nat,
    base: nat,
)
    ensures
        run_steps(Seq::<PowerStep>::empty(), result, base) == (result, base),
        run_steps(seq![PowerStep::MultiplyResult], result, base) == (result + base, base),
        run_steps(seq![PowerStep::SquareBase], result, base) == (result, 2 * base),
        run_steps(s1 + s2, result, base) == run_steps(
            s2,
            run_steps(s1, result, base).0,
            run_steps(s1, result, base).1,
        ),
    decreases s1.len(),
{
    assert(seq![PowerStep::MultiplyResult].drop_first() =~= Seq::<PowerStep>::empty());
    assert(seq![PowerStep::SquareBase].drop_first() =~= Seq::<PowerStep>::empty());
    assert(run_steps(Seq::<PowerStep>::empty(), result + base, base) == (result + base, base));
    assert(run_steps(Seq::<PowerStep>::empty(), result, base + base) == (result, base + base));
    if s1.len() > 0 {
        assert((s1 + s2).drop_first() =~= s1.drop_first() + s2);
        let (r1, b1) = match s1[0] {
            PowerStep::MultiplyResult => (result + base, base),
            PowerStep::SquareBase => (result, base + base),
        };
        lemma_run_steps_semantics(s1.drop_first(), s2, r1, b1);
    } else {
        assert(s1 + s2 =~= s2);
    }
}

/// Repeated squaring adds `base * e` to the accumulator's power.
pub proof fn lemma_squaring_steps_exponent(e: nat, result: nat, base: nat)
    ensures
        run_steps(squaring_steps(e), result, base).0 == result + base * e,
    decreases e,
{
    if e == 0 {
    } else {
        lemma_squaring_steps_exponent(e / 2, if e % 2 == 1 { result + base } else { result },
        base + base);
        let rest = squaring_steps(e / 2);
        if e % 2 == 1 {
            assert(seq![PowerStep::MultiplyResult, PowerStep::SquareBase] + rest =~= seq![
                PowerStep::MultiplyResult,
            ] + (seq![PowerStep::SquareBase] + rest));
            lemma_run_prefix(PowerStep::MultiplyResult, seq![PowerStep::SquareBase] + rest, result,
            base);
            lemma_run_prefix(PowerStep::SquareBase, rest, result + base, base);
            assert((result + base) + (base + base) * (e / 2) == result + base * e)
                by (nonlinear_arith)
                requires
                    e % 2 == 1,
            ;
        } else {
            lemma_run_prefix(PowerStep::SquareBase, rest, result, base);
            assert(result + (base + base) * (e / 2) == result + base * e) by (nonlinear_arith)
                requires
                    e % 2 == 0,
            ;
        }
    }
}

spec fn squaring_factor(e: nat) -> nat
    decreases e,
{
    if e == 0 {
        1
    } else {
        2 * squaring_factor(e / 2)
    }
}

proof fn lemma_squaring_factor_bounds(e: nat)
    requires
        e >= 1,
    ensures
        e < squaring_factor(e) <= 2 * e,
    decreases e,
{
    assert(squaring_factor(e) == 2 * squaring_factor(e / 2));
    if e / 2 >= 1 {
        lemma_squaring_factor_bounds(e / 2);
    } else {
        assert(squaring_factor(0) == 1);
    }
}

/// The steps of repeated squaring for a positive exponent: a multiplication
/// when the exponent is odd, a squaring, then the steps for half of it.
proof fn lemma_squaring_steps_unfold(e: nat)
    requires
        e > 0,
    ensures
        squaring_steps(e) == (if e % 2 == 1 {
            seq![PowerStep::MultiplyResult, PowerStep::SquareBase]
        } else {
            seq![PowerStep::SquareBase]
        }) + squaring_steps(e / 2),
{
}

/// Repeated squaring for the exponent `e` multiplies the base's power by the
/// smallest power of two above `e`.
proof fn lemma_squaring_steps_base(e: nat, result: nat, base: nat)
    ensures
        run_steps(squaring_steps(e), result, base).1 == base * squaring_factor(e),
        base == 1 && e >= 1 ==> e < run_steps(squaring_steps(e), result, base).1 <= 2 * e,
    decreases e,
{
    if e == 0 {
        assert(squaring_steps(0) == Seq::<PowerStep>::empty());
        assert(run_steps(Seq::<PowerStep>::empty(), result, base) == (result, base));
        assert(squaring_factor(0) == 1);
    } else {
        let rest = squaring_steps(e / 2);
        lemma_squaring_steps_unfold(e);
        let r2: nat = if e % 2 == 1 { result + base } else { result };
        lemma_squaring_steps_base(e / 2, r2, base + base);
        assert(run_steps(rest, r2, base + base).1 == (base + base) * squaring_factor(e / 2));
        if e % 2 == 1 {
            assert(seq![PowerStep::MultiplyResult, PowerStep::SquareBase] + rest =~= seq![
                PowerStep::MultiplyResult,
            ] + (seq![PowerStep::SquareBase] + rest));
            lemma_run_prefix(PowerStep::MultiplyResult, seq![PowerStep::SquareBase] + rest, result,
            base);
            lemma_run_prefix(PowerStep::SquareBase, rest, result + base, base);
        } else {
            lemma_run_prefix(PowerStep::SquareBase, rest, result, base);
        }
        assert(run_steps(squaring_steps(e), result, base) == run_steps(rest, r2, base + base));
        assert(squaring_factor(e) == 2 * squaring_factor(e / 2));
        assert((base + base) * squaring_factor(e / 2) == base * (2 * squaring_factor(e / 2)))
            by (nonlinear_arith);
    }
    if base == 1 && e >= 1 {
        lemma_squaring_factor_bounds(e);
    }
}

#[verifier::opaque]
spec fn squared_after_multiply(s: Seq<PowerStep>) -> bool {
    forall|i: int|
        0 <= i < s.len() && #[trigger] s[i] == PowerStep::MultiplyResult ==> i + 1 < s.len()
            && s[i + 1] == PowerStep::SquareBase
}

proof fn lemma_squared_after_multiply_concat(pre: Seq<PowerStep>, rest: Seq<PowerStep>)
    requires
        squared_after_multiply(pre),
        squared_after_multiply(rest),
        pre.len() > 0,
        pre[pre.len() - 1] == PowerStep::SquareBase,
    ensures
        squared_after_multiply(pre + rest),
{
    reveal(squared_after_multiply);
    let all = pre + rest;
    assert forall|i: int|
        0 <= i < all.len() && #[trigger] all[i] == PowerStep::MultiplyResult implies i + 1
            < all.len() && all[i + 1] == PowerStep::SquareBase by {
        if i >= pre.len() {
            assert(all[i] == rest[i - pre.len()]);
            assert(all[i + 1] == rest[i + 1 - pre.len()]);
        } else {
            assert(all[i] == pre[i]);
            assert(i + 1 < pre.len());
            assert(all[i + 1] == pre[i + 1]);
        }
    }
}

/// In repeated squaring every multiplication of the accumulator is
/// immediately followed by a squaring of the base.
proof fn lemma_squaring_steps_shape(e: nat)
    ensures
        squared_after_multiply(squaring_steps(e)),
    decreases e,
{
    if e > 0 {
        lemma_squaring_steps_shape(e / 2);
        lemma_squaring_steps_unfold(e);
        if e % 2 == 1 {
            lemma_prefix_shapes();
            lemma_squared_after_multiply_concat(
                seq![PowerStep::MultiplyResult, PowerStep::SquareBase],
                squaring_steps(e / 2),
            );
        } else {
            lemma_prefix_shapes();
            lemma_squared_after_multiply_concat(seq![PowerStep::SquareBase], squaring_steps(e / 2));
        }
    } else {
        reveal(squared_after_multiply);
    }
}

proof fn lemma_prefix_shapes()
    ensures
        squared_after_multiply(seq![PowerStep::MultiplyResult, PowerStep::SquareBase]),
        squared_after_multiply(seq![PowerStep::SquareBase]),
{
    reveal(squared_after_multiply);
    let a = seq![PowerStep::MultiplyResult, PowerStep::SquareBase];
    assert forall|i: int|
        0 <= i < a.len() && #[trigger] a[i] == PowerStep::MultiplyResult implies i + 1 < a.len()
            && a[i + 1] == PowerStep::SquareBase by {
        assert(i == 0);
    }
}

/// The plan for the `k`-th power of a matrix: the zeroth power is the
/// identity and the first a copy, with no multiplication; a higher power
/// starts from the identity and follows repeated squaring. Carried out with
/// an associative multiplication, the plan leaves the `k`-th power in the
/// accumulator. The base ends holding the smallest power of two above `k`,
/// and every multiplication of the accumulator is followed by a squaring.
pub fn power_plan(k: u32) -> (plan: PowerPlan)
    ensures
        k == 0 ==> plan.start == PowerStart::Identity && plan.steps@ == Seq::<PowerStep>::empty(),
        k == 1 ==> plan.start == PowerStart::Copy && plan.steps@ == Seq::<PowerStep>::empty(),
        k >= 2 ==> plan.start == PowerStart::Identity && plan.steps@ == squaring_steps(k as nat),
        run_steps(plan.steps@, start_exponent(plan.start), 1).0 == k,
        k >= 2 ==> k < run_steps(plan.steps@, 0, 1).1 <= 2 * k,
        forall|i: int|
            0 <= i < plan.steps.len() && #[trigger] plan.steps@[i] == PowerStep::MultiplyResult
                ==> i + 1
                < plan.steps.len() && plan.steps@[i + 1] == PowerStep::SquareBase,
{
    if k == 0 {
        return PowerPlan { start: PowerStart::Identity, steps: Vec::new() };
    }
    if k == 1 {
        return PowerPlan { start: PowerStart::Copy, steps: Vec::new() };
    }
    let mut steps: Vec<PowerStep> = Vec::new();
    let mut exp: u32 = k;
    while exp > 0
        invariant
            steps@ + squaring_steps(exp as nat) == squaring_steps(k as nat),
        decreases exp,
    {
        let ghost before = steps@;
        if exp % 2 == 1 {
            steps.push(PowerStep::MultiplyResult);
        }
        steps.push(PowerStep::SquareBase);
        proof {
            let rest = squaring_steps((exp / 2) as nat);
            if exp % 2 == 1 {
                assert(before + squaring_steps(exp as nat) =~= steps@ + rest);
            } else {
                assert(before + squaring_steps(exp as nat) =~= steps@ + rest);
            }
        }
        exp = exp / 2;
    }
    proof {
        assert(steps@ =~= squaring_steps(k as nat));
        lemma_squaring_steps_exponent(k as nat, 0, 1);
        lemma_squaring_steps_base(k as nat, 0, 1);
        lemma_squaring_steps_shape(k as nat);
        reveal(squared_after_multiply);
    }
    PowerPlan { start: PowerStart::Identity, steps }
}

} // verus!
