//! Tree-walking evaluator for dice-notation expressions.
//!
//! Evaluation is pure except for the random draws of `roll`. Arithmetic is
//! on the 32-bit signed width and wraps (two's complement) on `+ - *`;
//! division truncates toward zero and fails on a zero divisor. Keep and
//! drop counts clamp silently to the available length (a negative count
//! keeps or drops nothing). An explode threshold of one or less would
//! re-roll forever and is rejected, and an explode chain is capped at
//! `EXPLODE_LIMIT` draws.

use vstd::prelude::*;

use crate::parser::{DiceModifier, DiceModifierType, Expr};
use crate::parser::{expr_size, lemma_expr_size_pos, lemma_mods_size_elem, mod_size, mods_size};

verus! {

/// The outcome of an evaluation: either the ordered sequence of individual
/// die results after modifiers, or a pure scalar.
#[derive(Debug, PartialEq)]
pub enum EvalResult {
    Rolls(Vec<i32>),
    Number(i32),
}

/// Why an evaluation failed. These are recoverable: a caller can report
/// the error and go on with other expressions.
#[derive(Debug, PartialEq, Eq, Clone, Copy)]
pub enum EvalError {
    /// The right operand of `/` evaluated to zero.
    DivisionByZero,
    /// An operator outside `+ - * /` reached the evaluator.
    UnsupportedOp(char),
    /// A dice count evaluated below zero.
    NegativeCount,
    /// A side count evaluated below one.
    NonPositiveSides,
    /// A keep or drop modifier had no value.
    MissingModifierValue,
    /// Explode was applied where no die side count exists.
    MissingSides,
    /// An explode threshold of one or less would re-roll forever.
    LowExplodeThreshold,
    /// An explode chain exceeded the cap on extra draws.
    ExplodeOverflow,
}

impl EvalError {
    /// The wording of each evaluation failure.
    pub open spec fn spec_message(&self) -> Seq<char> {
        match self {
            EvalError::DivisionByZero => "division by zero"@,
            EvalError::UnsupportedOp(_) => "unsupported operation"@,
            EvalError::NegativeCount => "dice count must be at least zero"@,
            EvalError::NonPositiveSides => "dice sides must be at least one"@,
            EvalError::MissingModifierValue => "all dice modifiers except explode must carry a value"@,
            EvalError::MissingSides => "explode requires a number of sides"@,
            EvalError::LowExplodeThreshold => "an explode threshold below two would re-roll forever"@,
            EvalError::ExplodeOverflow => "explode chain exceeded the draw cap"@,
        }
    }

    /// A human-readable description of the failure.
    pub fn message(&self) -> (r: String)
        ensures
            r@ == self.spec_message(),
    {
        match self {
            EvalError::DivisionByZero => "division by zero".to_owned(),
            EvalError::UnsupportedOp(_) => "unsupported operation".to_owned(),
            EvalError::NegativeCount => "dice count must be at least zero".to_owned(),
            EvalError::NonPositiveSides => "dice sides must be at least one".to_owned(),
            EvalError::MissingModifierValue => "all dice modifiers except explode must carry a value".to_owned(),
            EvalError::MissingSides => "explode requires a number of sides".to_owned(),
            EvalError::LowExplodeThreshold => "an explode threshold below two would re-roll forever".to_owned(),
            EvalError::ExplodeOverflow => "explode chain exceeded the draw cap".to_owned(),
        }
    }
}

/// Cap on the random draws one explode modifier may make.
pub const EXPLODE_LIMIT: usize = 10000;

/// Relies on fastrand::i32: a uniform draw from the inclusive range
/// `1..=sides` of the global generator. fastrand panics only when the
/// range is empty, which `sides >= 1` rules out; nothing more than the
/// bounds can be promised of a random draw.
#[verifier::external_body]
pub fn roll(sides: i32) -> (r: i32)
    requires
        sides >= 1,
    ensures
        1 <= r <= sides,
{
    fastrand::i32(1..=sides)
}

/// The sum of a sequence, wrapping on the 32-bit width.
pub open spec fn sum_wrap(s: Seq<i32>) -> i32
    decreases s.len(),
{
    if s.len() == 0 {
        0
    } else {
        sum_wrap(s.drop_last()).wrapping_add(s.last())
    }
}

impl EvalResult {
    /// The scalar a result reduces to: a number is itself, rolls reduce to
    /// their (wrapping) sum.
    pub open spec fn spec_number(&self) -> i32 {
        match self {
            EvalResult::Number(n) => *n,
            EvalResult::Rolls(v) => sum_wrap(v@),
        }
    }

    /// Reduces the result to a scalar; total and idempotent.
    pub fn to_number(&self) -> (r: i32)
        ensures
            r == self.spec_number(),
    {
        match self {
            EvalResult::Number(n) => *n,
            EvalResult::Rolls(v) => {
                let mut total: i32 = 0;
                let mut i: usize = 0;
                while i < v.len()
                    invariant
                        i <= v.len(),
                        total == sum_wrap(v@.take(i as int)),
                    decreases v.len() - i,
                {
                    proof {
                        assert(v@.take(i + 1).drop_last() =~= v@.take(i as int));
                        assert(v@.take(i + 1).last() == v@[i as int]);
                    }
                    total = total.wrapping_add(v[i]);
                    i = i + 1;
                }
                proof {
                    assert(v@.take(v@.len() as int) =~= v@);
                }
                total
            },
        }
    }
}

/// The wrapping sum of values from a nonnegative range never actually
/// wraps, and is bounded by the length times the range's ends.
pub proof fn lemma_sum_wrap_bounds(s: Seq<i32>, lo: i32, hi: i32)
    requires
        0 <= lo <= hi,
        forall|i: int| 0 <= i < s.len() ==> lo <= #[trigger] s[i] <= hi,
        s.len() * hi <= i32::MAX,
    ensures
        s.len() * lo <= sum_wrap(s) <= s.len() * hi,
    decreases s.len(),
{
    if s.len() == 0 {
        assert(s.len() * lo == 0) by (nonlinear_arith)
            requires
                s.len() == 0,
        ;
    } else {
        let t = s.drop_last();
        let n = s.len() as int;
        assert(forall|i: int| 0 <= i < t.len() ==> lo <= #[trigger] t[i] <= hi);
        assert((n - 1) * hi <= n * hi) by (nonlinear_arith)
            requires
                hi >= 0,
                n >= 1,
        ;
        lemma_sum_wrap_bounds(t, lo, hi);
        assert((n - 1) * lo + lo == n * lo) by (nonlinear_arith);
        assert((n - 1) * hi + hi == n * hi) by (nonlinear_arith);
        assert(n * lo >= 0) by (nonlinear_arith)
            requires
                lo >= 0,
                n >= 0,
        ;
    }
}

/// Truncating division, the semantics of `/` on the machine integers.
pub open spec fn div_trunc(a: int, d: int) -> int
    recommends
        d != 0,
{
    if a == 0 {
        0
    } else if a > 0 && d > 0 {
        a / d
    } else if a < 0 && d < 0 {
        (a * -1) / (d * -1)
    } else if a < 0 {
        ((a * -1) / d) * -1
    } else {
        (a / (d * -1)) * -1
    }
}

/// What applying a binary operator to two scalars yields: `+ - *` wrap on
/// the 32-bit width; `/` truncates toward zero, fails on a zero divisor,
/// and wraps on the one overflowing case (`i32::MIN / -1`).
pub open spec fn spec_apply_op(a: i32, op: char, b: i32) -> Result<i32, EvalError> {
    if op == '+' {
        Ok(a.wrapping_add(b))
    } else if op == '-' {
        Ok(a.wrapping_sub(b))
    } else if op == '*' {
        Ok(a.wrapping_mul(b))
    } else if op == '/' {
        if b == 0 {
            Err(EvalError::DivisionByZero)
        } else if div_trunc(a as int, b as int) > i32::MAX {
            Ok(i32::MIN)
        } else {
            Ok(div_trunc(a as int, b as int) as i32)
        }
    } else {
        Err(EvalError::UnsupportedOp(op))
    }
}

/// Applies one binary operator to two already-evaluated scalars.
pub fn apply_op(a: i32, op: char, b: i32) -> (res: Result<i32, EvalError>)
    ensures
        res == spec_apply_op(a, op, b),
{
    if op == '+' {
        Ok(a.wrapping_add(b))
    } else if op == '-' {
        Ok(a.wrapping_sub(b))
    } else if op == '*' {
        Ok(a.wrapping_mul(b))
    } else if op == '/' {
        match a.checked_div(b) {
            Some(q) => Ok(q),
            None => {
                if b == 0 {
                    Err(EvalError::DivisionByZero)
                } else {
                    Ok(i32::MIN)
                }
            },
        }
    } else {
        Err(EvalError::UnsupportedOp(op))
    }
}

/// Expressions built of literals and arithmetic alone. They consume no
/// randomness, so their evaluation is a pure function of the tree.
pub open spec fn const_expr(e: Expr) -> bool
    decreases e,
{
    match e {
        Expr::Number(_) => true,
        Expr::BinaryOp(l, _, r) => const_expr(*l) && const_expr(*r),
        _ => false,
    }
}

/// The scalar a constant expression evaluates to, left side first, errors
/// propagating outward from the left.
pub open spec fn const_value(e: Expr) -> Result<i32, EvalError>
    recommends
        const_expr(e),
    decreases e,
{
    match e {
        Expr::Number(n) => Ok(n),
        Expr::BinaryOp(l, op, r) => match const_value(*l) {
            Ok(a) => match const_value(*r) {
                Ok(b) => spec_apply_op(a, op, b),
                Err(er) => Err(er),
            },
            Err(er) => Err(er),
        },
        _ => arbitrary(),
    }
}

/// The sequence is ordered high to low.
pub open spec fn sorted_desc(s: Seq<i32>) -> bool {
    forall|i: int, j: int| 0 <= i <= j < s.len() ==> s[i] >= s[j]
}

/// The sequence is ordered low to high.
pub open spec fn sorted_asc(s: Seq<i32>) -> bool {
    forall|i: int, j: int| 0 <= i <= j < s.len() ==> s[i] <= s[j]
}

/// `x` slotted in front of the first element below it.
pub open spec fn insert_desc(x: i32, s: Seq<i32>) -> Seq<i32>
    decreases s.len(),
{
    if s.len() == 0 {
        seq![x]
    } else if s[0] >= x {
        seq![s[0]] + insert_desc(x, s.drop_first())
    } else {
        seq![x] + s
    }
}

/// `x` slotted in front of the first element above it.
pub open spec fn insert_asc(x: i32, s: Seq<i32>) -> Seq<i32>
    decreases s.len(),
{
    if s.len() == 0 {
        seq![x]
    } else if s[0] <= x {
        seq![s[0]] + insert_asc(x, s.drop_first())
    } else {
        seq![x] + s
    }
}

/// The descending insertion sort of a sequence. For a sequence of plain
/// integers this is the unique descending reordering.
pub open spec fn sort_desc(s: Seq<i32>) -> Seq<i32>
    decreases s.len(),
{
    if s.len() == 0 {
        Seq::empty()
    } else {
        insert_desc(s.last(), sort_desc(s.drop_last()))
    }
}

/// The ascending insertion sort of a sequence.
pub open spec fn sort_asc(s: Seq<i32>) -> Seq<i32>
    decreases s.len(),
{
    if s.len() == 0 {
        Seq::empty()
    } else {
        insert_asc(s.last(), sort_asc(s.drop_last()))
    }
}

/// A keep or drop count clamped to the available length: negative counts
/// act as zero, counts beyond the length as the length.
pub open spec fn clamp_len(k: i32, len: nat) -> int {
    if k < 0 {
        0
    } else if k as int > len as int {
        len as int
    } else {
        k as int
    }
}

proof fn lemma_insert_desc_len(x: i32, s: Seq<i32>)
    ensures
        insert_desc(x, s).len() == s.len() + 1,
    decreases s.len(),
{
    if s.len() > 0 && s[0] >= x {
        lemma_insert_desc_len(x, s.drop_first());
    }
}

proof fn lemma_insert_asc_len(x: i32, s: Seq<i32>)
    ensures
        insert_asc(x, s).len() == s.len() + 1,
    decreases s.len(),
{
    if s.len() > 0 && s[0] <= x {
        lemma_insert_asc_len(x, s.drop_first());
    }
}

/// A sort neither adds nor loses elements.
pub proof fn lemma_sort_desc_len(s: Seq<i32>)
    ensures
        sort_desc(s).len() == s.len(),
    decreases s.len(),
{
    if s.len() > 0 {
        lemma_sort_desc_len(s.drop_last());
        lemma_insert_desc_len(s.last(), sort_desc(s.drop_last()));
    }
}

/// A sort neither adds nor loses elements.
pub proof fn lemma_sort_asc_len(s: Seq<i32>)
    ensures
        sort_asc(s).len() == s.len(),
    decreases s.len(),
{
    if s.len() > 0 {
        lemma_sort_asc_len(s.drop_last());
        lemma_insert_asc_len(s.last(), sort_asc(s.drop_last()));
    }
}

/// Where the first `j` elements are at least `x` and the one after (if
/// any) is below it, slotting `x` in is an insertion at `j`.
proof fn lemma_insert_desc_split(x: i32, s: Seq<i32>, j: int)
    requires
        0 <= j <= s.len(),
        forall|m: int| 0 <= m < j ==> s[m] >= x,
        j < s.len() ==> s[j] < x,
    ensures
        insert_desc(x, s) == s.insert(j, x),
    decreases j,
{
    if s.len() == 0 {
        assert(insert_desc(x, s) =~= s.insert(0, x));
    } else if j == 0 {
        assert(insert_desc(x, s) =~= s.insert(0, x));
    } else {
        lemma_insert_desc_split(x, s.drop_first(), j - 1);
        assert(seq![s[0]] + s.drop_first().insert(j - 1, x) =~= s.insert(j, x));
    }
}

/// Mirror of the descending split for the ascending order.
proof fn lemma_insert_asc_split(x: i32, s: Seq<i32>, j: int)
    requires
        0 <= j <= s.len(),
        forall|m: int| 0 <= m < j ==> s[m] <= x,
        j < s.len() ==> s[j] > x,
    ensures
        insert_asc(x, s) == s.insert(j, x),
    decreases j,
{
    if s.len() == 0 {
        assert(insert_asc(x, s) =~= s.insert(0, x));
    } else if j == 0 {
        assert(insert_asc(x, s) =~= s.insert(0, x));
    } else {
        lemma_insert_asc_split(x, s.drop_first(), j - 1);
        assert(seq![s[0]] + s.drop_first().insert(j - 1, x) =~= s.insert(j, x));
    }
}

/// Law: slotting an element into a descending sequence keeps it
/// descending and adds exactly that element to its contents.
pub proof fn lemma_insert_desc_sorted(x: i32, s: Seq<i32>)
    requires
        sorted_desc(s),
    ensures
        sorted_desc(insert_desc(x, s)),
        insert_desc(x, s).to_multiset() == s.to_multiset().insert(x),
    decreases s.len(),
{
    broadcast use vstd::seq_lib::group_to_multiset_ensures;
    broadcast use vstd::multiset::group_multiset_axioms;

    if s.len() == 0 {
        assert(seq![x] =~= Seq::<i32>::empty().insert(0, x));
    } else if s[0] >= x {
        let rest = s.drop_first();
        let t = insert_desc(x, rest);
        assert(sorted_desc(rest));
        lemma_insert_desc_sorted(x, rest);
        assert(seq![s[0]] + t =~= t.insert(0, s[0]));
        assert(s =~= rest.insert(0, s[0]));
        assert(rest.to_multiset().insert(x).insert(s[0]) =~= rest.to_multiset().insert(
            s[0],
        ).insert(x));
        assert forall|i: int| 1 <= i < (seq![s[0]] + t).len() implies s[0] >= (seq![s[0]] + t)[i] by {
            let v = t[i - 1];
            assert(t.contains(v));
            assert(t.to_multiset().count(v) > 0);
            if v != x {
                assert(rest.to_multiset().count(v) > 0);
                assert(rest.contains(v));
                let j = choose|j: int| 0 <= j < rest.len() && rest[j] == v;
                assert(s[j + 1] == v);
            }
        }
    } else {
        assert(seq![x] + s =~= s.insert(0, x));
        assert forall|i: int, j: int|
            0 <= i <= j < (seq![x] + s).len() implies (seq![x] + s)[i] >= (seq![x] + s)[j] by {
            if i == 0 && j > 0 {
                assert((seq![x] + s)[j] == s[j - 1]);
                assert(s[0] >= s[j - 1] || j == 1);
            }
        }
    }
}

/// Law: the ascending mirror of `lemma_insert_desc_sorted`.
pub proof fn lemma_insert_asc_sorted(x: i32, s: Seq<i32>)
    requires
        sorted_asc(s),
    ensures
        sorted_asc(insert_asc(x, s)),
        insert_asc(x, s).to_multiset() == s.to_multiset().insert(x),
    decreases s.len(),
{
    broadcast use vstd::seq_lib::group_to_multiset_ensures;
    broadcast use vstd::multiset::group_multiset_axioms;

    if s.len() == 0 {
        assert(seq![x] =~= Seq::<i32>::empty().insert(0, x));
    } else if s[0] <= x {
        let rest = s.drop_first();
        let t = insert_asc(x, rest);
        assert(sorted_asc(rest));
        lemma_insert_asc_sorted(x, rest);
        assert(seq![s[0]] + t =~= t.insert(0, s[0]));
        assert(s =~= rest.insert(0, s[0]));
        assert(rest.to_multiset().insert(x).insert(s[0]) =~= rest.to_multiset().insert(
            s[0],
        ).insert(x));
        assert forall|i: int| 1 <= i < (seq![s[0]] + t).len() implies s[0] <= (seq![s[0]] + t)[i] by {
            let v = t[i - 1];
            assert(t.contains(v));
            assert(t.to_multiset().count(v) > 0);
            if v != x {
                assert(rest.to_multiset().count(v) > 0);
                assert(rest.contains(v));
                let j = choose|j: int| 0 <= j < rest.len() && rest[j] == v;
                assert(s[j + 1] == v);
            }
        }
    } else {
        assert(seq![x] + s =~= s.insert(0, x));
        assert forall|i: int, j: int|
            0 <= i <= j < (seq![x] + s).len() implies (seq![x] + s)[i] <= (seq![x] + s)[j] by {
            if i == 0 && j > 0 {
                assert((seq![x] + s)[j] == s[j - 1]);
                assert(s[0] <= s[j - 1] || j == 1);
            }
        }
    }
}

/// Law: the descending sort is ordered high to low and is a permutation
/// of its input — it neither invents nor loses rolls.
pub proof fn lemma_sort_desc_ensures(s: Seq<i32>)
    ensures
        sorted_desc(sort_desc(s)),
        sort_desc(s).to_multiset() == s.to_multiset(),
    decreases s.len(),
{
    broadcast use vstd::seq_lib::group_to_multiset_ensures;

    if s.len() > 0 {
        lemma_sort_desc_ensures(s.drop_last());
        lemma_insert_desc_sorted(s.last(), sort_desc(s.drop_last()));
        assert(s =~= s.drop_last().push(s.last()));
    }
}

/// Law: the ascending sort is ordered low to high and is a permutation
/// of its input.
pub proof fn lemma_sort_asc_ensures(s: Seq<i32>)
    ensures
        sorted_asc(sort_asc(s)),
        sort_asc(s).to_multiset() == s.to_multiset(),
    decreases s.len(),
{
    broadcast use vstd::seq_lib::group_to_multiset_ensures;

    if s.len() > 0 {
        lemma_sort_asc_ensures(s.drop_last());
        lemma_insert_asc_sorted(s.last(), sort_asc(s.drop_last()));
        assert(s =~= s.drop_last().push(s.last()));
    }
}

fn insert_desc_vec(s: Vec<i32>, x: i32) -> (res: Vec<i32>)
    ensures
        res@ == insert_desc(x, s@),
{
    let mut j: usize = 0;
    while j < s.len() && s[j] >= x
        invariant
            j <= s.len(),
            forall|m: int| 0 <= m < j ==> s@[m] >= x,
        decreases s.len() - j,
    {
        j = j + 1;
    }
    proof {
        lemma_insert_desc_split(x, s@, j as int);
    }
    let mut out = s;
    out.insert(j, x);
    out
}

fn insert_asc_vec(s: Vec<i32>, x: i32) -> (res: Vec<i32>)
    ensures
        res@ == insert_asc(x, s@),
{
    let mut j: usize = 0;
    while j < s.len() && s[j] <= x
        invariant
            j <= s.len(),
            forall|m: int| 0 <= m < j ==> s@[m] <= x,
        decreases s.len() - j,
    {
        j = j + 1;
    }
    proof {
        lemma_insert_asc_split(x, s@, j as int);
    }
    let mut out = s;
    out.insert(j, x);
    out
}

fn sort_desc_vec(v: Vec<i32>) -> (res: Vec<i32>)
    ensures
        res@ == sort_desc(v@),
{
    let mut out: Vec<i32> = Vec::new();
    let mut i: usize = 0;
    while i < v.len()
        invariant
            i <= v.len(),
            out@ == sort_desc(v@.take(i as int)),
        decreases v.len() - i,
    {
        proof {
            assert(v@.take(i + 1).drop_last() =~= v@.take(i as int));
            assert(v@.take(i + 1).last() == v@[i as int]);
        }
        out = insert_desc_vec(out, v[i]);
        i = i + 1;
    }
    proof {
        assert(v@.take(v@.len() as int) =~= v@);
    }
    out
}

fn sort_asc_vec(v: Vec<i32>) -> (res: Vec<i32>)
    ensures
        res@ == sort_asc(v@),
{
    let mut out: Vec<i32> = Vec::new();
    let mut i: usize = 0;
    while i < v.len()
        invariant
            i <= v.len(),
            out@ == sort_asc(v@.take(i as int)),
        decreases v.len() - i,
    {
        proof {
            assert(v@.take(i + 1).drop_last() =~= v@.take(i as int));
            assert(v@.take(i + 1).last() == v@[i as int]);
        }
        out = insert_asc_vec(out, v[i]);
        i = i + 1;
    }
    proof {
        assert(v@.take(v@.len() as int) =~= v@);
    }
    out
}

/// Clamps a modifier count to a vector length.
fn clamp_index(count: i32, len: usize) -> (k: usize)
    ensures
        k as int == clamp_len(count, len as nat),
{
    if count < 0 {
        0
    } else if count as usize > len {
        len
    } else {
        count as usize
    }
}

/// Keeps the `count` highest rolls: the first `count` elements of the
/// descending sort. Original relative order is not preserved. A count
/// below zero keeps nothing; one beyond the length keeps everything.
pub fn keep_high(rolls: Vec<i32>, count: i32) -> (res: Vec<i32>)
    ensures
        res@ == sort_desc(rolls@).take(clamp_len(count, rolls@.len())),
{
    proof {
        lemma_sort_desc_len(rolls@);
    }
    let ghost orig = rolls@;
    let mut sorted = sort_desc_vec(rolls);
    let k = clamp_index(count, sorted.len());
    sorted.truncate(k);
    proof {
        assert(sorted@ =~= sort_desc(orig).take(clamp_len(count, orig.len())));
    }
    sorted
}

/// Keeps the `count` lowest rolls: the first `count` elements of the
/// ascending sort, with the same clamping as `keep_high`.
pub fn keep_low(rolls: Vec<i32>, count: i32) -> (res: Vec<i32>)
    ensures
        res@ == sort_asc(rolls@).take(clamp_len(count, rolls@.len())),
{
    proof {
        lemma_sort_asc_len(rolls@);
    }
    let ghost orig = rolls@;
    let mut sorted = sort_asc_vec(rolls);
    let k = clamp_index(count, sorted.len());
    sorted.truncate(k);
    proof {
        assert(sorted@ =~= sort_asc(orig).take(clamp_len(count, orig.len())));
    }
    sorted
}

/// Drops the `count` highest rolls: what remains of the descending sort
/// after its first `count` elements, with the same clamping.
pub fn drop_high(rolls: Vec<i32>, count: i32) -> (res: Vec<i32>)
    ensures
        res@ == sort_desc(rolls@).skip(clamp_len(count, rolls@.len())),
{
    proof {
        lemma_sort_desc_len(rolls@);
    }
    let ghost orig = rolls@;
    let sorted = sort_desc_vec(rolls);
    let k = clamp_index(count, sorted.len());
    let mut out: Vec<i32> = Vec::new();
    let mut j: usize = k;
    while j < sorted.len()
        invariant
            k <= j <= sorted.len(),
            out@ == sorted@.subrange(k as int, j as int),
        decreases sorted.len() - j,
    {
        proof {
            assert(sorted@.subrange(k as int, j as int).push(sorted@[j as int]) =~= sorted@
                .subrange(k as int, j + 1));
        }
        out.push(sorted[j]);
        j = j + 1;
    }
    proof {
        assert(out@ =~= sort_desc(orig).skip(clamp_len(count, orig.len())));
    }
    out
}

/// Drops the `count` lowest rolls: what remains of the ascending sort
/// after its first `count` elements, with the same clamping.
pub fn drop_low(rolls: Vec<i32>, count: i32) -> (res: Vec<i32>)
    ensures
        res@ == sort_asc(rolls@).skip(clamp_len(count, rolls@.len())),
{
    proof {
        lemma_sort_asc_len(rolls@);
    }
    let ghost orig = rolls@;
    let sorted = sort_asc_vec(rolls);
    let k = clamp_index(count, sorted.len());
    let mut out: Vec<i32> = Vec::new();
    let mut j: usize = k;
    while j < sorted.len()
        invariant
            k <= j <= sorted.len(),
            out@ == sorted@.subrange(k as int, j as int),
        decreases sorted.len() - j,
    {
        proof {
            assert(sorted@.subrange(k as int, j as int).push(sorted@[j as int]) =~= sorted@
                .subrange(k as int, j + 1));
        }
        out.push(sorted[j]);
        j = j + 1;
    }
    proof {
        assert(out@ =~= sort_asc(orig).skip(clamp_len(count, orig.len())));
    }
    out
}

/// How many elements of the sequence sit at or above the threshold.
pub open spec fn count_at_least(s: Seq<i32>, t: i32) -> nat
    decreases s.len(),
{
    if s.len() == 0 {
        0
    } else {
        count_at_least(s.drop_last(), t) + (if s.last() >= t {
            1nat
        } else {
            0nat
        })
    }
}

/// What a finished explode pass guarantees: the original rolls stay as a
/// prefix, everything appended is a die result, every element at or
/// above the threshold has triggered at least one appended draw (so at
/// least that many are appended), and none of them is ever last.
pub open spec fn exploded_ok(orig: Seq<i32>, v: Seq<i32>, sides: i32, threshold: i32) -> bool {
    &&& v.len() >= orig.len() + count_at_least(v, threshold)
    &&& v.take(orig.len() as int) == orig
    &&& forall|i: int| orig.len() <= i < v.len() ==> 1 <= #[trigger] v[i] <= sides
    &&& forall|i: int| 0 <= i < v.len() && #[trigger] v[i] >= threshold ==> i < v.len() - 1
}

/// Explodes the sequence: scanning left to right (new elements included),
/// each element at or above `threshold` draws chained extra rolls, each
/// appended at the end, until a draw falls below the threshold. The pass
/// fails only when it would exceed `EXPLODE_LIMIT` draws.
pub fn explode(rolls: Vec<i32>, sides: i32, threshold: i32) -> (res: Result<Vec<i32>, EvalError>)
    requires
        sides >= 1,
        threshold >= 2,
    ensures
        match res {
            Ok(v) => exploded_ok(rolls@, v@, sides, threshold),
            Err(e) => e == EvalError::ExplodeOverflow,
        },
        (forall|i: int| 0 <= i < rolls@.len() ==> #[trigger] rolls@[i] < threshold) ==> res is Ok
            && res->Ok_0@ == rolls@,
{
    let mut work = rolls;
    let mut draws: usize = 0;
    let mut i: usize = 0;
    while i < work.len()
        invariant
            sides >= 1,
            threshold >= 2,
            i <= work@.len(),
            draws <= EXPLODE_LIMIT,
            work@.len() >= rolls@.len(),
            work@.take(rolls@.len() as int) == rolls@,
            work@.len() - rolls@.len() >= count_at_least(work@.take(i as int), threshold),
            (forall|m: int| 0 <= m < rolls@.len() ==> #[trigger] rolls@[m] < threshold) ==> work@
                == rolls@,
            forall|m: int| rolls@.len() <= m < work@.len() ==> 1 <= #[trigger] work@[m] <= sides,
            forall|m: int| 0 <= m < i && #[trigger] work@[m] >= threshold ==> m < work@.len() - 1,
        decreases EXPLODE_LIMIT - draws, work@.len() - i,
    {
        let ghost pre = work@;
        if work[i] >= threshold {
            proof {
                if forall|m: int| 0 <= m < rolls@.len() ==> #[trigger] rolls@[m] < threshold {
                    assert(work@[i as int] == rolls@[i as int]);
                }
            }
            let ghost entry_draws = draws;
            let ghost entry_len = work@.len();
            let mut chained = true;
            while chained
                invariant
                    sides >= 1,
                    threshold >= 2,
                    i < work@.len(),
                    draws <= EXPLODE_LIMIT,
                    chained ==> draws >= entry_draws,
                    !chained ==> draws >= entry_draws + 1,
                    work@.len() - entry_len == draws - entry_draws,
                    entry_len >= rolls@.len(),
                    work@.take(i as int) == pre.take(i as int),
                    !(forall|m: int| 0 <= m < rolls@.len() ==> #[trigger] rolls@[m] < threshold),
                    work@.len() >= rolls@.len(),
                    work@.take(rolls@.len() as int) == rolls@,
                    forall|m: int| rolls@.len() <= m < work@.len() ==> 1 <= #[trigger] work@[m]
                        <= sides,
                    forall|m: int| 0 <= m < i && #[trigger] work@[m] >= threshold ==> m < work@
                        .len() - 1,
                    !chained ==> i < work@.len() - 1,
                decreases EXPLODE_LIMIT - draws,
            {
                if draws == EXPLODE_LIMIT {
                    return Err(EvalError::ExplodeOverflow);
                }
                let new_roll = roll(sides);
                draws = draws + 1;
                proof {
                    assert(work@.push(new_roll).take(rolls@.len() as int) =~= work@.take(
                        rolls@.len() as int,
                    ));
                    assert(work@.push(new_roll).take(i as int) =~= work@.take(i as int));
                }
                work.push(new_roll);
                chained = new_roll >= threshold;
            }
        }
        proof {
            assert(work@.take(i + 1).drop_last() =~= work@.take(i as int));
            assert(work@.take(i + 1).last() == work@[i as int]);
            assert(work@.take(i as int) =~= pre.take(i as int));
        }
        i = i + 1;
    }
    proof {
        assert(work@.take(work@.len() as int) =~= work@);
    }
    Ok(work)
}

/// Applies one modifier to a working sequence. The modifier's value
/// sub-expression is evaluated first (consuming randomness where it holds
/// dice); keep and drop then reorder deterministically, while explode
/// draws further rolls. `sides` is the die's side count where one exists.
pub fn apply_one_modifier(rolls: Vec<i32>, m: &DiceModifier, sides: Option<i32>) -> (res: Result<
    Vec<i32>,
    EvalError,
>)
    ensures
        m.kind != DiceModifierType::Explode && m.value is None ==> res == Err::<
            Vec<i32>,
            EvalError,
        >(EvalError::MissingModifierValue),
        m.value is Some && const_expr(*m.value->Some_0) && const_value(*m.value->Some_0) is Err ==> res
            == Err::<Vec<i32>, EvalError>(const_value(*m.value->Some_0)->Err_0),
        m.kind != DiceModifierType::Explode && m.value is Some && const_expr(*m.value->Some_0)
            && const_value(*m.value->Some_0) is Ok ==> res is Ok && res->Ok_0@ == spec_keep_drop(
            rolls@,
            m.kind,
            const_value(*m.value->Some_0)->Ok_0,
        ),
        m.kind == DiceModifierType::Explode && m.value is None ==> match sides {
            None => res == Err::<Vec<i32>, EvalError>(EvalError::MissingSides),
            Some(s) => {
                &&& s < 1 ==> res == Err::<Vec<i32>, EvalError>(EvalError::NonPositiveSides)
                &&& s == 1 ==> res == Err::<Vec<i32>, EvalError>(EvalError::LowExplodeThreshold)
                &&& s >= 2 ==> (res is Ok ==> exploded_ok(rolls@, res->Ok_0@, s, s)) && (res is Err
                    ==> res == Err::<Vec<i32>, EvalError>(EvalError::ExplodeOverflow)) && ((forall|
                    i: int,
                |
                    0 <= i < rolls@.len() ==> #[trigger] rolls@[i] < s) ==> res is Ok
                    && res->Ok_0@ == rolls@)
            },
        },
        m.kind == DiceModifierType::Explode && m.value is Some && const_expr(*m.value->Some_0)
            && const_value(*m.value->Some_0) is Ok ==> match sides {
            None => res == Err::<Vec<i32>, EvalError>(EvalError::MissingSides),
            Some(s) => {
                let t = const_value(*m.value->Some_0)->Ok_0;
                &&& s < 1 ==> res == Err::<Vec<i32>, EvalError>(EvalError::NonPositiveSides)
                &&& s >= 1 && t <= 1 ==> res == Err::<Vec<i32>, EvalError>(
                    EvalError::LowExplodeThreshold,
                )
                &&& s >= 1 && t >= 2 ==> (res is Ok ==> exploded_ok(rolls@, res->Ok_0@, s, t)) && (
                res is Err ==> res == Err::<Vec<i32>, EvalError>(EvalError::ExplodeOverflow)) && ((
                forall|i: int| 0 <= i < rolls@.len() ==> #[trigger] rolls@[i] < t) ==> res is Ok
                    && res->Ok_0@ == rolls@)
            },
        },
        m.kind == DiceModifierType::Explode && res is Ok ==> res->Ok_0@.len() >= rolls@.len()
            && res->Ok_0@.take(rolls@.len() as int) == rolls@,
    decreases mod_size(*m),
{
    let value: i32 = match &m.value {
        Some(ve) => {
            match eval_expr(ve) {
                Ok(r) => r.to_number(),
                Err(er) => {
                    return Err(er);
                },
            }
        },
        None => {
            if m.kind == DiceModifierType::Explode {
                match sides {
                    Some(s) => s,
                    None => {
                        return Err(EvalError::MissingSides);
                    },
                }
            } else {
                return Err(EvalError::MissingModifierValue);
            }
        },
    };
    match m.kind {
        DiceModifierType::KeepHigh => Ok(keep_high(rolls, value)),
        DiceModifierType::KeepLow => Ok(keep_low(rolls, value)),
        DiceModifierType::DropHigh => Ok(drop_high(rolls, value)),
        DiceModifierType::DropLow => Ok(drop_low(rolls, value)),
        DiceModifierType::Explode => {
            let s = match sides {
                Some(s) => s,
                None => {
                    return Err(EvalError::MissingSides);
                },
            };
            if s < 1 {
                return Err(EvalError::NonPositiveSides);
            }
            if value <= 1 {
                return Err(EvalError::LowExplodeThreshold);
            }
            explode(rolls, s, value)
        },
    }
}

/// Law: keeping the `k` highest is taking the top of the descending sort.
/// The kept part is descending, it and the dropped part together are a
/// reordering of the rolls and nothing else, and every kept element is at
/// least every dropped one — the kept rolls are exactly the `k` largest.
pub proof fn lemma_keep_high_law(rolls: Seq<i32>, k: i32)
    ensures
        ({
            let kept = spec_keep_drop(rolls, DiceModifierType::KeepHigh, k);
            let dropped = spec_keep_drop(rolls, DiceModifierType::DropHigh, k);
            &&& kept.len() == clamp_len(k, rolls.len())
            &&& sorted_desc(kept)
            &&& kept + dropped == sort_desc(rolls)
            &&& (kept + dropped).to_multiset() == rolls.to_multiset()
            &&& forall|i: int, j: int|
                0 <= i < kept.len() && 0 <= j < dropped.len() ==> #[trigger] kept[i]
                    >= #[trigger] dropped[j]
        }),
{
    lemma_sort_desc_len(rolls);
    lemma_sort_desc_ensures(rolls);
    let c = clamp_len(k, rolls.len());
    assert(sort_desc(rolls).take(c) + sort_desc(rolls).skip(c) =~= sort_desc(rolls));
}

/// Law: the mirror of `lemma_keep_high_law` — the kept rolls of a
/// keep-low are exactly the `k` smallest.
pub proof fn lemma_keep_low_law(rolls: Seq<i32>, k: i32)
    ensures
        ({
            let kept = spec_keep_drop(rolls, DiceModifierType::KeepLow, k);
            let dropped = spec_keep_drop(rolls, DiceModifierType::DropLow, k);
            &&& kept.len() == clamp_len(k, rolls.len())
            &&& sorted_asc(kept)
            &&& kept + dropped == sort_asc(rolls)
            &&& (kept + dropped).to_multiset() == rolls.to_multiset()
            &&& forall|i: int, j: int|
                0 <= i < kept.len() && 0 <= j < dropped.len() ==> #[trigger] kept[i]
                    <= #[trigger] dropped[j]
        }),
{
    lemma_sort_asc_len(rolls);
    lemma_sort_asc_ensures(rolls);
    let c = clamp_len(k, rolls.len());
    assert(sort_asc(rolls).take(c) + sort_asc(rolls).skip(c) =~= sort_asc(rolls));
}

/// What a keep or drop modifier makes of a roll sequence, given its
/// resolved count `k`.
pub open spec fn spec_keep_drop(rolls: Seq<i32>, kind: DiceModifierType, k: i32) -> Seq<i32>
    recommends
        kind != DiceModifierType::Explode,
{
    match kind {
        DiceModifierType::KeepHigh => sort_desc(rolls).take(clamp_len(k, rolls.len())),
        DiceModifierType::KeepLow => sort_asc(rolls).take(clamp_len(k, rolls.len())),
        DiceModifierType::DropHigh => sort_desc(rolls).skip(clamp_len(k, rolls.len())),
        DiceModifierType::DropLow => sort_asc(rolls).skip(clamp_len(k, rolls.len())),
        DiceModifierType::Explode => arbitrary(),
    }
}

/// A dice node with a constant valid count and sides and no modifiers,
/// whose scalar total cannot overflow the 32-bit width: its evaluation
/// always succeeds, with a sum between the count and count times sides.
pub open spec fn bounded_const_dice(e: Expr) -> bool {
    e matches Expr::Dice { count, sides, modifiers } && const_expr(*count) && const_value(*count)
        is Ok && const_value(*count)->Ok_0 >= 0 && const_expr(*sides) && const_value(*sides) is Ok
        && const_value(*sides)->Ok_0 >= 1 && modifiers@.len() == 0 && (const_value(
        *count,
    )->Ok_0 as int) * (const_value(*sides)->Ok_0 as int) <= i32::MAX
}

/// The least scalar such a dice node can total: its count.
pub open spec fn dice_min_of(e: Expr) -> int
    recommends
        bounded_const_dice(e),
{
    match e {
        Expr::Dice { count, .. } => const_value(*count)->Ok_0 as int,
        _ => arbitrary(),
    }
}

/// The greatest scalar such a dice node can total: count times sides.
pub open spec fn dice_max_of(e: Expr) -> int
    recommends
        bounded_const_dice(e),
{
    match e {
        Expr::Dice { count, sides, .. } => (const_value(*count)->Ok_0 as int) * (const_value(
            *sides,
        )->Ok_0 as int),
        _ => arbitrary(),
    }
}

/// A keep or drop modifier whose value is a constant expression: its
/// effect on a sequence is a pure function of the sequence.
pub open spec fn const_keep_drop(m: DiceModifier) -> bool {
    &&& m.kind != DiceModifierType::Explode
    &&& m.value is Some
    &&& const_expr(*m.value->Some_0)
    &&& const_value(*m.value->Some_0) is Ok
}

/// What a list of constant keep and drop modifiers makes of a roll
/// sequence: each modifier in turn, head first, transforms the whole
/// working sequence.
pub open spec fn spec_mods_fold(rolls: Seq<i32>, ms: Seq<DiceModifier>) -> Seq<i32>
    recommends
        forall|i: int| 0 <= i < ms.len() ==> const_keep_drop(#[trigger] ms[i]),
    decreases ms.len(),
{
    if ms.len() == 0 {
        rolls
    } else {
        spec_mods_fold(
            spec_keep_drop(rolls, ms[0].kind, const_value(*ms[0].value->Some_0)->Ok_0),
            ms.drop_first(),
        )
    }
}

/// The left-to-right chain of per-modifier guarantees: some sequence of
/// intermediate states links the input to the output, each consecutive
/// pair related as one `apply_one_modifier` step relates them.
pub open spec fn spec_steps_ok(
    orig: Seq<i32>,
    ms: Seq<DiceModifier>,
    sides: Option<i32>,
    out: Seq<i32>,
) -> bool
    decreases ms.len(),
{
    if ms.len() == 0 {
        out == orig
    } else {
        exists|w: Seq<i32>|
            #[trigger] spec_step_ok(orig, ms[0], sides, w) && spec_steps_ok(
                w,
                ms.drop_first(),
                sides,
                out,
            )
    }
}

/// Extending a step chain by one more related step keeps it a chain.
proof fn lemma_steps_ok_snoc(
    orig: Seq<i32>,
    ms: Seq<DiceModifier>,
    sides: Option<i32>,
    mid: Seq<i32>,
    m: DiceModifier,
    out: Seq<i32>,
)
    requires
        spec_steps_ok(orig, ms, sides, mid),
        spec_step_ok(mid, m, sides, out),
    ensures
        spec_steps_ok(orig, ms.push(m), sides, out),
    decreases ms.len(),
{
    if ms.len() == 0 {
        assert(ms.push(m)[0] == m);
        assert(ms.push(m).drop_first() =~= Seq::<DiceModifier>::empty());
        assert(spec_step_ok(orig, ms.push(m)[0], sides, out) && spec_steps_ok(
            out,
            ms.push(m).drop_first(),
            sides,
            out,
        ));
    } else {
        let w = choose|w: Seq<i32>|
            #[trigger] spec_step_ok(orig, ms[0], sides, w) && spec_steps_ok(
                w,
                ms.drop_first(),
                sides,
                mid,
            );
        lemma_steps_ok_snoc(w, ms.drop_first(), sides, mid, m, out);
        assert(ms.push(m)[0] == ms[0]);
        assert(ms.push(m).drop_first() =~= ms.drop_first().push(m));
        assert(spec_step_ok(orig, ms.push(m)[0], sides, w) && spec_steps_ok(
            w,
            ms.push(m).drop_first(),
            sides,
            out,
        ));
    }
}

/// Applies a modifier list left to right against a working sequence,
/// starting from `rolls`. The result is always `Rolls`, even for an empty
/// or shortened sequence; callers wanting a scalar reduce via the sum.
/// `sides` carries the die's side count where one exists (dice), and
/// `None` where none does (repetitions).
pub fn eval_modifiers(rolls: Vec<i32>, modifiers: &[DiceModifier], sides: Option<i32>) -> (res:
    Result<EvalResult, EvalError>)
    ensures
        res is Ok ==> res->Ok_0 is Rolls,
        res is Ok ==> spec_steps_ok(rolls@, modifiers@, sides, res->Ok_0->Rolls_0@),
        modifiers@.len() == 0 ==> res is Ok && res->Ok_0 is Rolls && res->Ok_0->Rolls_0@ == rolls@,
        (forall|i: int| 0 <= i < modifiers@.len() ==> const_keep_drop(#[trigger] modifiers@[i]))
            ==> res is Ok && res->Ok_0 is Rolls && res->Ok_0->Rolls_0@ == spec_mods_fold(
            rolls@,
            modifiers@,
        ),
        modifiers@.len() == 1 ==> ({
            let m = modifiers@[0];
            &&& (m.kind != DiceModifierType::Explode && m.value is None ==> res == Err::<
                EvalResult,
                EvalError,
            >(EvalError::MissingModifierValue))
            &&& (m.value is Some && const_expr(*m.value->Some_0) && const_value(*m.value->Some_0)
                is Err ==> res == Err::<EvalResult, EvalError>(
                const_value(*m.value->Some_0)->Err_0,
            ))
            &&& (m.kind != DiceModifierType::Explode && m.value is Some && const_expr(
                *m.value->Some_0,
            ) && const_value(*m.value->Some_0) is Ok ==> res is Ok && res->Ok_0 is Rolls
                && res->Ok_0->Rolls_0@ == spec_keep_drop(
                rolls@,
                m.kind,
                const_value(*m.value->Some_0)->Ok_0,
            ))
            &&& (m.kind == DiceModifierType::Explode && m.value is None ==> match sides {
                None => res == Err::<EvalResult, EvalError>(EvalError::MissingSides),
                Some(s) => {
                    &&& (s < 1 ==> res == Err::<EvalResult, EvalError>(
                        EvalError::NonPositiveSides,
                    ))
                    &&& (s == 1 ==> res == Err::<EvalResult, EvalError>(
                        EvalError::LowExplodeThreshold,
                    ))
                    &&& (s >= 2 ==> (res is Ok ==> exploded_ok(rolls@, res->Ok_0->Rolls_0@, s, s))
                        && (res is Err ==> res == Err::<EvalResult, EvalError>(
                        EvalError::ExplodeOverflow,
                    )) && ((forall|i: int| 0 <= i < rolls@.len() ==> #[trigger] rolls@[i] < s)
                        ==> res is Ok && res->Ok_0->Rolls_0@ == rolls@))
                },
            })
        }),
    decreases mods_size(modifiers@) + 1,
{
    let mut cur = rolls;
    let mut i: usize = 0;
    proof {
        assert(modifiers@.skip(0) =~= modifiers@);
        assert(modifiers@.take(0) =~= Seq::<DiceModifier>::empty());
    }
    while i < modifiers.len()
        invariant
            i <= modifiers@.len(),
            i == 0 ==> cur@ == rolls@,
            modifiers@.len() == 1 && i == 1 ==> spec_step_ok(rolls@, modifiers@[0], sides, cur@),
            spec_steps_ok(rolls@, modifiers@.take(i as int), sides, cur@),
            (forall|k: int|
                0 <= k < modifiers@.len() ==> const_keep_drop(#[trigger] modifiers@[k]))
                ==> spec_mods_fold(rolls@, modifiers@) == spec_mods_fold(
                cur@,
                modifiers@.skip(i as int),
            ),
        decreases modifiers@.len() - i,
    {
        proof {
            lemma_mods_size_elem(modifiers@, i as int);
        }
        let ghost prev = cur@;
        cur = match apply_one_modifier(cur, &modifiers[i], sides) {
            Ok(v) => v,
            Err(er) => {
                return Err(er);
            },
        };
        proof {
            assert(modifiers@.skip(i as int).drop_first() =~= modifiers@.skip(i + 1));
            assert(modifiers@.skip(i as int)[0] == modifiers@[i as int]);
            assert(spec_step_ok(prev, modifiers@[i as int], sides, cur@));
            lemma_steps_ok_snoc(
                rolls@,
                modifiers@.take(i as int),
                sides,
                prev,
                modifiers@[i as int],
                cur@,
            );
            assert(modifiers@.take(i as int).push(modifiers@[i as int]) =~= modifiers@.take(
                i + 1,
            ));
        }
        i = i + 1;
    }
    proof {
        assert(modifiers@.skip(modifiers@.len() as int) =~= Seq::<DiceModifier>::empty());
        assert(modifiers@.take(modifiers@.len() as int) =~= modifiers@);
    }
    Ok(EvalResult::Rolls(cur))
}

/// What one successful modifier application guarantees of the sequence it
/// produced, mirroring the clauses of `apply_one_modifier`: the inputs
/// that force an error cannot have been the ones applied, and where the
/// step is deterministic the output is pinned exactly.
pub open spec fn spec_step_ok(
    orig: Seq<i32>,
    m: DiceModifier,
    sides: Option<i32>,
    out: Seq<i32>,
) -> bool {
    &&& !(m.kind != DiceModifierType::Explode && m.value is None)
    &&& !(m.value is Some && const_expr(*m.value->Some_0) && const_value(*m.value->Some_0) is Err)
    &&& (m.kind != DiceModifierType::Explode && m.value is Some && const_expr(*m.value->Some_0)
        && const_value(*m.value->Some_0) is Ok ==> out == spec_keep_drop(
        orig,
        m.kind,
        const_value(*m.value->Some_0)->Ok_0,
    ))
    &&& (m.kind == DiceModifierType::Explode && m.value is None ==> sides is Some
        && sides->Some_0 >= 2 && exploded_ok(orig, out, sides->Some_0, sides->Some_0) && ((forall|
        i: int,
    |
        0 <= i < orig.len() ==> #[trigger] orig[i] < sides->Some_0) ==> out == orig))
}

/// Rolls the dice: evaluates `count` then `sides` to scalars, draws that
/// many uniform results in `[1, sides]` in order, then applies the
/// modifiers. A count below zero or a side count below one is an error.
pub fn eval_dice(count: &Expr, sides: &Expr, modifiers: &[DiceModifier]) -> (res: Result<
    EvalResult,
    EvalError,
>)
    ensures
        res is Ok ==> res->Ok_0 is Rolls,
        const_expr(*count) ==> ({
            let cv = const_value(*count);
            &&& (cv is Err ==> res == Err::<EvalResult, EvalError>(cv->Err_0))
            &&& (cv is Ok && cv->Ok_0 < 0 ==> res == Err::<EvalResult, EvalError>(
                EvalError::NegativeCount,
            ))
            &&& (cv is Ok && cv->Ok_0 >= 0 && const_expr(*sides) ==> ({
                let sv = const_value(*sides);
                &&& (sv is Err ==> res == Err::<EvalResult, EvalError>(sv->Err_0))
                &&& (sv is Ok && sv->Ok_0 < 1 ==> res == Err::<EvalResult, EvalError>(
                    EvalError::NonPositiveSides,
                ))
                &&& (sv is Ok && sv->Ok_0 >= 1 && modifiers@.len() == 0 ==> res is Ok
                    && res->Ok_0 is Rolls && res->Ok_0->Rolls_0@.len() == cv->Ok_0 && (forall|
                    i: int,
                |
                    0 <= i < res->Ok_0->Rolls_0@.len() ==> 1 <= #[trigger] res->Ok_0->Rolls_0@[i]
                        <= sv->Ok_0))
                &&& (sv is Ok && sv->Ok_0 >= 1 && (forall|k: int|
                    0 <= k < modifiers@.len() ==> const_keep_drop(#[trigger] modifiers@[k]))
                    ==> res is Ok && res->Ok_0 is Rolls)
                &&& (sv is Ok && sv->Ok_0 >= 1 && res is Ok ==> exists|v0: Seq<i32>|
                    v0.len() == cv->Ok_0 && (forall|i: int|
                        0 <= i < v0.len() ==> 1 <= #[trigger] v0[i] <= sv->Ok_0)
                        && #[trigger] spec_steps_ok(
                        v0,
                        modifiers@,
                        Some(sv->Ok_0),
                        res->Ok_0->Rolls_0@,
                    ))
            }))
        }),
    decreases expr_size(*count) + expr_size(*sides) + mods_size(modifiers@),
{
    proof {
        lemma_expr_size_pos(*sides);
    }
    let c = match eval_expr(count) {
        Ok(r) => r.to_number(),
        Err(er) => {
            return Err(er);
        },
    };
    if c < 0 {
        return Err(EvalError::NegativeCount);
    }
    proof {
        lemma_expr_size_pos(*count);
    }
    let s = match eval_expr(sides) {
        Ok(r) => r.to_number(),
        Err(er) => {
            return Err(er);
        },
    };
    if s < 1 {
        return Err(EvalError::NonPositiveSides);
    }
    let mut rolls: Vec<i32> = Vec::new();
    let mut i: i32 = 0;
    while i < c
        invariant
            0 <= i,
            i <= c || i == 0,
            s >= 1,
            rolls@.len() == i,
            forall|m: int| 0 <= m < i ==> 1 <= #[trigger] rolls@[m] <= s,
        decreases c - i,
    {
        rolls.push(roll(s));
        i = i + 1;
    }
    let ghost v0 = rolls@;
    let r = eval_modifiers(rolls, modifiers, Some(s));
    proof {
        if r is Ok {
            assert(spec_steps_ok(v0, modifiers@, Some(s), r->Ok_0->Rolls_0@));
        }
    }
    r
}

/// Evaluates `expr` independently `count` times, reducing each outcome to
/// a scalar and collecting them in evaluation order, then applies the
/// modifiers to the collected sequence. A count below zero collects
/// nothing, as a zero count does.
pub fn eval_rep(count: &Expr, expr: &Expr, modifiers: &[DiceModifier]) -> (res: Result<
    EvalResult,
    EvalError,
>)
    ensures
        res is Ok ==> res->Ok_0 is Rolls,
        const_expr(*count) ==> ({
            let cv = const_value(*count);
            &&& (cv is Err ==> res == Err::<EvalResult, EvalError>(cv->Err_0))
            &&& (cv is Ok && cv->Ok_0 >= 0 && modifiers@.len() == 0 && res is Ok ==> res->Ok_0
                is Rolls && res->Ok_0->Rolls_0@.len() == cv->Ok_0)
            &&& (cv is Ok && cv->Ok_0 <= 0 && modifiers@.len() == 0 ==> res is Ok && res->Ok_0
                is Rolls && res->Ok_0->Rolls_0@.len() == 0)
            &&& (cv is Ok && cv->Ok_0 >= 1 && const_expr(*expr) && const_value(*expr) is Err
                ==> res == Err::<EvalResult, EvalError>(const_value(*expr)->Err_0))
            &&& (cv is Ok && cv->Ok_0 >= 0 && const_expr(*expr) && const_value(*expr) is Ok
                && modifiers@.len() == 0 ==> res is Ok && res->Ok_0 is Rolls
                && res->Ok_0->Rolls_0@ == Seq::new(
                cv->Ok_0 as nat,
                |j: int| const_value(*expr)->Ok_0,
            ))
            &&& (cv is Ok && cv->Ok_0 >= 0 && modifiers@.len() == 0 && bounded_const_dice(*expr)
                ==> res is Ok && res->Ok_0 is Rolls && res->Ok_0->Rolls_0@.len() == cv->Ok_0 && (
            forall|m: int|
                0 <= m < res->Ok_0->Rolls_0@.len() ==> dice_min_of(*expr)
                    <= #[trigger] res->Ok_0->Rolls_0@[m] <= dice_max_of(*expr)))
            &&& (cv is Ok && cv->Ok_0 >= 0 && const_expr(*expr) && const_value(*expr) is Ok && (
            forall|k: int| 0 <= k < modifiers@.len() ==> const_keep_drop(#[trigger] modifiers@[k]))
                ==> res is Ok && res->Ok_0 is Rolls && res->Ok_0->Rolls_0@ == spec_mods_fold(
                Seq::new(cv->Ok_0 as nat, |j: int| const_value(*expr)->Ok_0),
                modifiers@,
            ))
        }),
    decreases expr_size(*count) + expr_size(*expr) + mods_size(modifiers@),
{
    proof {
        lemma_expr_size_pos(*expr);
    }
    let c = match eval_expr(count) {
        Ok(r) => r.to_number(),
        Err(er) => {
            return Err(er);
        },
    };
    let mut result: Vec<i32> = Vec::new();
    let mut i: i32 = 0;
    while i < c
        invariant
            0 <= i,
            i <= c || i == 0,
            result@.len() == i,
            const_expr(*count) ==> const_value(*count) is Ok && c == const_value(*count)->Ok_0,
            i >= 1 && const_expr(*expr) ==> const_value(*expr) is Ok,
            bounded_const_dice(*expr) ==> forall|m: int|
                0 <= m < result@.len() ==> dice_min_of(*expr) <= #[trigger] result@[m]
                    <= dice_max_of(*expr),
            const_expr(*expr) && const_value(*expr) is Ok ==> result@ == Seq::new(
                i as nat,
                |j: int| const_value(*expr)->Ok_0,
            ),
        decreases c - i,
    {
        proof {
            lemma_expr_size_pos(*count);
        }
        let rr = match eval_expr(expr) {
            Ok(rv) => rv,
            Err(er) => {
                return Err(er);
            },
        };
        proof {
            if bounded_const_dice(*expr) {
                match expr {
                    Expr::Dice { count: ic, sides: isd, .. } => {
                        lemma_sum_wrap_bounds(rr->Rolls_0@, 1, const_value(**isd)->Ok_0);
                    },
                    _ => {},
                }
            }
        }
        let r = rr.to_number();
        proof {
            if const_expr(*expr) && const_value(*expr) is Ok {
                assert(result@.push(r) =~= Seq::new((i + 1) as nat, |j: int| r));
            }
        }
        result.push(r);
        i = i + 1;
    }
    eval_modifiers(result, modifiers, None)
}

/// Evaluates both operands to scalars, left first, then applies the
/// operator under the wrapping 32-bit semantics of `spec_apply_op`.
pub fn eval_op(exp1: &Expr, op: &char, exp2: &Expr) -> (res: Result<EvalResult, EvalError>)
    ensures
        res is Ok ==> res->Ok_0 is Number,
        !(*op == '+' || *op == '-' || *op == '*' || *op == '/') ==> res is Err,
        bounded_const_dice(*exp1) && const_expr(*exp2) && const_value(*exp2) is Ok && *op == '+'
            && dice_min_of(*exp1) + const_value(*exp2)->Ok_0 >= i32::MIN && dice_max_of(*exp1)
            + const_value(*exp2)->Ok_0 <= i32::MAX ==> res is Ok && (res->Ok_0 matches
        EvalResult::Number(n) && dice_min_of(*exp1) + const_value(*exp2)->Ok_0 <= n && n
            <= dice_max_of(*exp1) + const_value(*exp2)->Ok_0),
        const_expr(*exp1) && const_expr(*exp2) ==> match const_value(*exp1) {
            Err(er) => res == Err::<EvalResult, EvalError>(er),
            Ok(a) => match const_value(*exp2) {
                Err(er) => res == Err::<EvalResult, EvalError>(er),
                Ok(b) => match spec_apply_op(a, *op, b) {
                    Ok(n) => res == Ok::<EvalResult, EvalError>(EvalResult::Number(n)),
                    Err(er) => res == Err::<EvalResult, EvalError>(er),
                },
            },
        },
    decreases expr_size(*exp1) + expr_size(*exp2),
{
    proof {
        lemma_expr_size_pos(*exp2);
        lemma_expr_size_pos(*exp1);
    }
    let r1 = match eval_expr(exp1) {
        Ok(rv) => rv,
        Err(er) => {
            return Err(er);
        },
    };
    proof {
        if bounded_const_dice(*exp1) {
            match exp1 {
                Expr::Dice { count: ic, sides: isd, .. } => {
                    lemma_sum_wrap_bounds(r1->Rolls_0@, 1, const_value(**isd)->Ok_0);
                },
                _ => {},
            }
        }
    }
    let a = r1.to_number();
    let b = match eval_expr(exp2) {
        Ok(r) => r.to_number(),
        Err(er) => {
            return Err(er);
        },
    };
    match apply_op(a, *op, b) {
        Ok(n) => Ok(EvalResult::Number(n)),
        Err(er) => Err(er),
    }
}

/// Evaluates an expression tree. Pure except for the random draws that
/// dice and explode modifiers consume; on an expression holding no dice
/// the result is the exact constant `const_value` gives.
pub fn eval_expr(expr: &Expr) -> (res: Result<EvalResult, EvalError>)
    ensures
        const_expr(*expr) ==> match const_value(*expr) {
            Ok(n) => res == Ok::<EvalResult, EvalError>(EvalResult::Number(n)),
            Err(er) => res == Err::<EvalResult, EvalError>(er),
        },
        *expr is Number || *expr is BinaryOp ==> (res is Ok ==> res->Ok_0 is Number),
        *expr is Dice || *expr is Repetition ==> (res is Ok ==> res->Ok_0 is Rolls),
        *expr matches Expr::Dice { count, sides, modifiers } ==> (const_expr(*count) ==> ({
            let cv = const_value(*count);
            &&& (cv is Err ==> res == Err::<EvalResult, EvalError>(cv->Err_0))
            &&& (cv is Ok && cv->Ok_0 < 0 ==> res == Err::<EvalResult, EvalError>(
                EvalError::NegativeCount,
            ))
            &&& (cv is Ok && cv->Ok_0 >= 0 && const_expr(*sides) ==> ({
                let sv = const_value(*sides);
                &&& (sv is Err ==> res == Err::<EvalResult, EvalError>(sv->Err_0))
                &&& (sv is Ok && sv->Ok_0 < 1 ==> res == Err::<EvalResult, EvalError>(
                    EvalError::NonPositiveSides,
                ))
                &&& (sv is Ok && sv->Ok_0 >= 1 && modifiers@.len() == 0 ==> res is Ok
                    && res->Ok_0 is Rolls && res->Ok_0->Rolls_0@.len() == cv->Ok_0 && (forall|
                    i: int,
                |
                    0 <= i < res->Ok_0->Rolls_0@.len() ==> 1 <= #[trigger] res->Ok_0->Rolls_0@[i]
                        <= sv->Ok_0))
                &&& (sv is Ok && sv->Ok_0 >= 1 && (forall|k: int|
                    0 <= k < modifiers@.len() ==> const_keep_drop(#[trigger] modifiers@[k]))
                    ==> res is Ok && res->Ok_0 is Rolls)
            }))
        })),
        *expr matches Expr::Repetition { count, expr: inner, modifiers } ==> (const_expr(*count)
            ==> ({
            let cv = const_value(*count);
            &&& (cv is Err ==> res == Err::<EvalResult, EvalError>(cv->Err_0))
            &&& (cv is Ok && cv->Ok_0 >= 0 && modifiers@.len() == 0 && res is Ok ==> res->Ok_0
                is Rolls && res->Ok_0->Rolls_0@.len() == cv->Ok_0)
            &&& (cv is Ok && cv->Ok_0 <= 0 && modifiers@.len() == 0 ==> res is Ok && res->Ok_0
                is Rolls && res->Ok_0->Rolls_0@.len() == 0)
            &&& (cv is Ok && cv->Ok_0 >= 0 && const_expr(*inner) && const_value(*inner) is Ok
                && modifiers@.len() == 0 ==> res is Ok && res->Ok_0 is Rolls
                && res->Ok_0->Rolls_0@ == Seq::new(
                cv->Ok_0 as nat,
                |j: int| const_value(*inner)->Ok_0,
            ))
            &&& (cv is Ok && cv->Ok_0 >= 0 && modifiers@.len() == 0 && bounded_const_dice(*inner)
                ==> res is Ok && res->Ok_0 is Rolls && res->Ok_0->Rolls_0@.len() == cv->Ok_0 && (
            forall|m: int|
                0 <= m < res->Ok_0->Rolls_0@.len() ==> dice_min_of(*inner)
                    <= #[trigger] res->Ok_0->Rolls_0@[m] <= dice_max_of(*inner)))
        })),
    decreases expr_size(*expr),
{
    match expr {
        Expr::Number(n) => Ok(EvalResult::Number(*n)),
        Expr::Dice { count, sides, modifiers } => eval_dice(&**count, &**sides, modifiers.as_slice()),
        Expr::BinaryOp(e1, op, e2) => eval_op(&**e1, op, &**e2),
        Expr::Repetition { count, expr: inner, modifiers } => eval_rep(
            &**count,
            &**inner,
            modifiers.as_slice(),
        ),
    }
}

} // verus!
