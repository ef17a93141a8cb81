//! The dice-notation grammar and its recursive-descent parser.
//!
//! Grammar, lowest precedence first:
//! ```text
//! dice_expr  := expression+                          (whitespace separated)
//! expression := add_sub
//! add_sub    := mul_div (('+'|'-') mul_div)*
//! mul_div    := term (('*'|'/') term)*
//! term       := dice | repetition | number | '(' expression ')'
//! number     := digit+                               (must fit in i32)
//! dice       := [count] 'd' sides modifier*
//! repetition := number '(' expression ')' modifier*
//! modifier   := ('kh'|'kl'|'dh'|'dl') value | '!'
//! value      := number | '(' expression ')'
//! ```
//! A dice production binds tightly: no whitespace is permitted inside it.
//! Modifier keywords are expected in lowercase (callers lowercase the input).

use vstd::prelude::*;
use vstd::string::StringSliceAdditionalSpecFns;

verus! {

/// An expression tree of the dice notation. Pure value type, owned top-down.
#[derive(Debug, PartialEq)]
pub enum Expr {
    /// A literal integer.
    Number(i32),
    /// Rolls `count` dice with `sides` faces, then applies the modifiers.
    /// Both `count` and `sides` are sub-expressions (nested dice work).
    Dice { count: Box<Expr>, sides: Box<Expr>, modifiers: Vec<DiceModifier> },
    /// Left-associative arithmetic on scalars; `op` is one of `+ - * /`.
    BinaryOp(Box<Expr>, char, Box<Expr>),
    /// Evaluates `expr` independently `count` times, collects the scalar
    /// results, then applies the modifiers to the collected sequence.
    Repetition { count: Box<Expr>, expr: Box<Expr>, modifiers: Vec<DiceModifier> },
}

/// Which post-processing rule a modifier applies to a roll sequence.
#[derive(Debug, PartialEq, Eq, Structural, Clone, Copy)]
pub enum DiceModifierType {
    KeepHigh,
    KeepLow,
    DropHigh,
    DropLow,
    Explode,
}

/// A modifier with its optional numeric argument. Only `Explode` may omit
/// the value (the die's side count is then used as the threshold).
#[derive(Debug, PartialEq)]
pub struct DiceModifier {
    pub kind: DiceModifierType,
    pub value: Option<Box<Expr>>,
}

/// Structural size of an expression tree; the termination measure for
/// everything that walks a tree.
pub open spec fn expr_size(e: Expr) -> nat
    decreases e,
{
    match e {
        Expr::Number(_) => 1,
        Expr::Dice { count, sides, modifiers } => 1 + expr_size(*count) + expr_size(*sides)
            + mods_size(modifiers@),
        Expr::BinaryOp(l, _, r) => 1 + expr_size(*l) + expr_size(*r),
        Expr::Repetition { count, expr, modifiers } => 1 + expr_size(*count) + expr_size(*expr)
            + mods_size(modifiers@),
    }
}

/// Structural size of a modifier list.
pub open spec fn mods_size(ms: Seq<DiceModifier>) -> nat
    decreases ms,
{
    if ms.len() == 0 {
        0
    } else {
        mod_size(ms[0]) + mods_size(ms.drop_first())
    }
}

/// Structural size of one modifier.
pub open spec fn mod_size(m: DiceModifier) -> nat
    decreases m,
{
    match m.value {
        Some(v) => 1 + expr_size(*v),
        None => 1,
    }
}

/// Every expression has positive size.
pub proof fn lemma_expr_size_pos(e: Expr)
    ensures
        expr_size(e) >= 1,
{
}

/// Each element of a modifier list weighs no more than the whole list.
pub proof fn lemma_mods_size_elem(ms: Seq<DiceModifier>, i: int)
    requires
        0 <= i < ms.len(),
    ensures
        mod_size(ms[i]) <= mods_size(ms),
    decreases ms.len(),
{
    if i > 0 {
        lemma_mods_size_elem(ms.drop_first(), i - 1);
        assert(ms.drop_first()[i - 1] == ms[i]);
    }
}

/// A well-formed expression: every keep or drop modifier carries its
/// value, and operators are the four the grammar knows. The parser only
/// builds well-formed trees.
pub open spec fn wf_expr(e: Expr) -> bool
    decreases e,
{
    match e {
        Expr::Number(_) => true,
        Expr::Dice { count, sides, modifiers } => wf_expr(*count) && wf_expr(*sides) && wf_mods(
            modifiers@,
        ),
        Expr::BinaryOp(l, op, r) => wf_expr(*l) && wf_expr(*r) && (op == '+' || op == '-' || op
            == '*' || op == '/'),
        Expr::Repetition { count, expr, modifiers } => wf_expr(*count) && wf_expr(*expr) && wf_mods(
            modifiers@,
        ),
    }
}

/// All modifiers of a list are well formed.
pub open spec fn wf_mods(ms: Seq<DiceModifier>) -> bool
    decreases ms,
{
    forall|i: int| 0 <= i < ms.len() ==> wf_modifier(#[trigger] ms[i])
}

/// A well-formed modifier: only `Explode` may lack a value, and the value
/// is itself well formed.
pub open spec fn wf_modifier(m: DiceModifier) -> bool
    decreases m,
{
    &&& (m.kind != DiceModifierType::Explode ==> m.value is Some)
    &&& (m.value is Some ==> wf_expr(*m.value->Some_0))
}

/// The bytes `'0'` through `'9'`.
pub open spec fn is_digit(c: u8) -> bool {
    48 <= c <= 57
}

/// Space, tab, newline, carriage return.
pub open spec fn is_ws(c: u8) -> bool {
    c == 32 || c == 9 || c == 10 || c == 13
}

/// Every byte of the sequence is a digit.
pub open spec fn all_digits(s: Seq<u8>) -> bool {
    forall|i: int| 0 <= i < s.len() ==> is_digit(#[trigger] s[i])
}

/// From `pos` to the end of the input there are only digits, and at least
/// one of them.
pub open spec fn digits_to_end(s: Seq<u8>, pos: int) -> bool {
    pos < s.len() && (forall|m: int| pos <= m < s.len() ==> is_digit(#[trigger] s[m]))
}

/// The numeric value of a digit string, most significant digit first.
pub open spec fn digits_val(s: Seq<u8>) -> int
    recommends
        all_digits(s),
    decreases s.len(),
{
    if s.len() == 0 {
        0
    } else {
        digits_val(s.drop_last()) * 10 + (s.last() - 48)
    }
}

/// Where the digit run starting at `pos` ends: the first later index that
/// is past the end or holds a non-digit.
pub open spec fn digit_run_end(s: Seq<u8>, pos: int) -> int
    recommends
        0 <= pos <= s.len(),
    decreases s.len() - pos when 0 <= pos <= s.len()
{
    if pos < s.len() && is_digit(s[pos]) {
        digit_run_end(s, pos + 1)
    } else {
        pos
    }
}

/// What the digit-run end delivers: it lies between `pos` and the end,
/// everything before it (from `pos`) is a digit, and it stops at the
/// first non-digit.
pub proof fn lemma_digit_run_end(s: Seq<u8>, pos: int)
    requires
        0 <= pos <= s.len(),
    ensures
        pos <= digit_run_end(s, pos) <= s.len(),
        forall|m: int| pos <= m < digit_run_end(s, pos) ==> is_digit(#[trigger] s[m]),
        digit_run_end(s, pos) < s.len() ==> !is_digit(s[digit_run_end(s, pos)]),
    decreases s.len() - pos,
{
    if pos < s.len() && is_digit(s[pos]) {
        lemma_digit_run_end(s, pos + 1);
    }
}

/// A digit string's value is at least zero.
pub proof fn lemma_digits_val_nonneg(s: Seq<u8>)
    requires
        all_digits(s),
    ensures
        digits_val(s) >= 0,
    decreases s.len(),
{
    if s.len() > 0 {
        assert(all_digits(s.drop_last()));
        lemma_digits_val_nonneg(s.drop_last());
    }
}

/// A digit string's value never shrinks as digits are appended.
pub proof fn lemma_digits_val_mono(s: Seq<u8>, a: int, b: int)
    requires
        all_digits(s),
        0 <= a <= b <= s.len(),
    ensures
        digits_val(s.take(a)) <= digits_val(s.take(b)),
    decreases b - a,
{
    if a < b {
        lemma_digits_val_mono(s, a, b - 1);
        assert(s.take(b).drop_last() =~= s.take(b - 1));
        assert(all_digits(s.take(b - 1)));
        lemma_digits_val_nonneg(s.take(b - 1));
    }
}

/// Where and why parsing failed; `pos` is a byte offset into the input.
#[derive(Debug, PartialEq, Eq, Clone, Copy)]
pub struct ParseError {
    pub pos: usize,
    pub kind: ParseErrorKind,
}

/// The ways an input can fail to parse.
#[derive(Debug, PartialEq, Eq, Structural, Clone, Copy)]
pub enum ParseErrorKind {
    /// The input held no expression at all.
    NoExpressions,
    /// A byte that no grammar rule accepts at this point.
    UnexpectedChar,
    /// The input ended where the grammar needs more.
    UnexpectedEnd,
    /// A number too large for the 32-bit width.
    NumberOverflow,
    /// A closing parenthesis is missing.
    UnclosedParen,
    /// A keep or drop modifier keyword without its numeric value.
    ModifierNeedsValue,
}

impl ParseError {
    /// The wording of each failure; the `pos` field beside it carries the
    /// byte offset for position context.
    pub open spec fn spec_message(&self) -> Seq<char> {
        match self.kind {
            ParseErrorKind::NoExpressions => "no expressions found"@,
            ParseErrorKind::UnexpectedChar => "unexpected character"@,
            ParseErrorKind::UnexpectedEnd => "unexpected end of input"@,
            ParseErrorKind::NumberOverflow => "number too large for the 32-bit width"@,
            ParseErrorKind::UnclosedParen => "missing closing parenthesis"@,
            ParseErrorKind::ModifierNeedsValue => "modifier needs a value"@,
        }
    }

    /// A human-readable description of the failure.
    pub fn message(&self) -> (r: String)
        ensures
            r@ == self.spec_message(),
    {
        match self.kind {
            ParseErrorKind::NoExpressions => "no expressions found".to_owned(),
            ParseErrorKind::UnexpectedChar => "unexpected character".to_owned(),
            ParseErrorKind::UnexpectedEnd => "unexpected end of input".to_owned(),
            ParseErrorKind::NumberOverflow => "number too large for the 32-bit width".to_owned(),
            ParseErrorKind::UnclosedParen => "missing closing parenthesis".to_owned(),
            ParseErrorKind::ModifierNeedsValue => "modifier needs a value".to_owned(),
        }
    }
}

/// True for the bytes `skip_ws` passes over.
fn ws_byte(c: u8) -> (b: bool)
    ensures
        b == is_ws(c),
{
    c == 32 || c == 9 || c == 10 || c == 13
}

/// True for the bytes `'0'` through `'9'`.
fn digit_byte(c: u8) -> (b: bool)
    ensures
        b == is_digit(c),
{
    48 <= c && c <= 57
}

/// Advances past whitespace to the next significant byte.
fn skip_ws(s: &[u8], pos: usize) -> (p: usize)
    requires
        pos <= s@.len(),
    ensures
        pos <= p <= s@.len(),
        forall|m: int| pos <= m < p ==> is_ws(#[trigger] s@[m]),
        p < s@.len() ==> !is_ws(s@[p as int]),
{
    let mut p = pos;
    while p < s.len() && ws_byte(s[p])
        invariant
            pos <= p <= s@.len(),
            forall|m: int| pos <= m < p ==> is_ws(#[trigger] s@[m]),
        decreases s@.len() - p,
    {
        p = p + 1;
    }
    p
}

/// Parses the digit run at `pos` into a `Number` literal; a value beyond
/// the 32-bit width is an overflow error, never a silent wrap.
pub fn parse_number(s: &[u8], pos: usize) -> (r: Result<(Expr, usize), ParseError>)
    requires
        pos <= s@.len(),
    ensures
        r is Ok ==> pos < r->Ok_0.1 <= s@.len(),
        r is Ok ==> wf_expr(r->Ok_0.0),
        pos < s@.len() && is_digit(s@[pos as int]) ==> ({
            let e = digit_run_end(s@, pos as int);
            let v = digits_val(s@.subrange(pos as int, e));
            if v <= i32::MAX {
                &&& r is Ok
                &&& r->Ok_0.1 == e
                &&& r->Ok_0.0 == Expr::Number(v as i32)
            } else {
                r == Err::<(Expr, usize), ParseError>(
                    ParseError { pos, kind: ParseErrorKind::NumberOverflow },
                )
            }
        }),
        !(pos < s@.len() && is_digit(s@[pos as int])) ==> r is Err,
{
    proof {
        lemma_digit_run_end(s@, pos as int);
    }
    if !(pos < s.len() && digit_byte(s[pos])) {
        return Err(
            ParseError {
                pos,
                kind: if pos < s.len() {
                    ParseErrorKind::UnexpectedChar
                } else {
                    ParseErrorKind::UnexpectedEnd
                },
            },
        );
    }
    let ghost run_end = digit_run_end(s@, pos as int);
    let mut val: i64 = 0;
    let mut p = pos;
    while p < s.len() && digit_byte(s[p])
        invariant
            pos <= p <= s@.len(),
            p <= run_end,
            forall|m: int| pos <= m < p ==> is_digit(#[trigger] s@[m]),
            0 <= val <= i32::MAX,
            val == digits_val(s@.subrange(pos as int, p as int)),
            run_end == digit_run_end(s@, pos as int),
            pos <= run_end <= s@.len(),
            forall|m: int| pos <= m < run_end ==> is_digit(#[trigger] s@[m]),
            run_end < s@.len() ==> !is_digit(s@[run_end as int]),
        decreases s@.len() - p,
    {
        let d = s[p] - 48;
        let next: i64 = val * 10 + (d as i64);
        proof {
            assert(s@.subrange(pos as int, p + 1).drop_last() =~= s@.subrange(
                pos as int,
                p as int,
            ));
            assert(s@.subrange(pos as int, p + 1).last() == s@[p as int]);
        }
        if next > i32::MAX as i64 {
            proof {
                let run = s@.subrange(pos as int, run_end);
                assert(all_digits(run));
                assert(run.take(p + 1 - pos) =~= s@.subrange(pos as int, p + 1));
                assert(run.take(run.len() as int) =~= run);
                lemma_digits_val_mono(run, p + 1 - pos, run.len() as int);
            }
            return Err(ParseError { pos, kind: ParseErrorKind::NumberOverflow });
        }
        val = next;
        p = p + 1;
        proof {
            if p < s@.len() && is_digit(s@[p as int]) {
                assert(p <= run_end) by {
                    if p > run_end {
                        assert(is_digit(s@[run_end as int]));
                    }
                };
            } else {
                assert(p == run_end) by {
                    if p < run_end {
                        assert(is_digit(s@[p as int]));
                    }
                };
            }
        }
    }
    proof {
        assert(p == run_end);
    }
    Ok((Expr::Number(val as i32), p))
}

/// What any expression-level parse function yields on an input that is
/// one bare number from `pos` to the end: exactly that literal, the whole
/// input consumed — or an overflow error where it passes the 32-bit width.
pub open spec fn digit_class_result(
    s: Seq<u8>,
    pos: int,
    r: Result<(Expr, usize), ParseError>,
) -> bool {
    digits_to_end(s, pos) ==> ({
        let v = digits_val(s.skip(pos));
        if v <= i32::MAX {
            &&& r is Ok
            &&& r->Ok_0.1 == s.len()
            &&& r->Ok_0.0 == Expr::Number(v as i32)
        } else {
            r is Err
        }
    })
}

/// The input from `pos` on is one bare dice production without modifiers:
/// an optional count digit run, the letter `d` at index `d_at`, and a
/// sides digit run to the end.
pub open spec fn dice_class_at(s: Seq<u8>, pos: int, d_at: int) -> bool {
    &&& pos <= d_at < s.len()
    &&& s[d_at] == 100
    &&& (forall|m: int| pos <= m < d_at ==> is_digit(#[trigger] s[m]))
    &&& digits_to_end(s, d_at + 1)
}

/// The count such a dice production carries: the leading digits, or the
/// default of one where none stand.
pub open spec fn dice_class_count(s: Seq<u8>, pos: int, d_at: int) -> int {
    if d_at == pos {
        1
    } else {
        digits_val(s.subrange(pos, d_at))
    }
}

/// `e` is the `Dice` node that a bare dice input at `pos` denotes: the
/// class's count and sides as literals, and no modifiers.
pub open spec fn dice_node_expr(s: Seq<u8>, pos: int, d_at: int, e: Expr) -> bool {
    e matches Expr::Dice { count: c2, sides: s2, modifiers: ms2 } && *c2 == Expr::Number(
        dice_class_count(s, pos, d_at) as i32,
    ) && *s2 == Expr::Number(digits_val(s.skip(d_at + 1)) as i32) && ms2@.len() == 0
}

/// What any expression-level parse function yields on a bare dice input:
/// exactly the `Dice` node with that count, those sides, and no
/// modifiers, the whole input consumed.
pub open spec fn dice_class_result(
    s: Seq<u8>,
    pos: int,
    r: Result<(Expr, usize), ParseError>,
) -> bool {
    forall|d_at: int|
        #[trigger] dice_class_at(s, pos, d_at) && dice_class_count(s, pos, d_at) <= i32::MAX
            && digits_val(s.skip(d_at + 1)) <= i32::MAX ==> r is Ok && r->Ok_0.1 == s.len()
            && dice_node_expr(s, pos, d_at, r->Ok_0.0)
}

/// The keep or drop keyword two bytes spell, if any.
pub open spec fn spec_mod_kind(c0: u8, c1: u8) -> Option<DiceModifierType> {
    if c0 == 107 && c1 == 104 {
        Some(DiceModifierType::KeepHigh)
    } else if c0 == 107 && c1 == 108 {
        Some(DiceModifierType::KeepLow)
    } else if c0 == 100 && c1 == 104 {
        Some(DiceModifierType::DropHigh)
    } else if c0 == 100 && c1 == 108 {
        Some(DiceModifierType::DropLow)
    } else {
        None
    }
}

/// One modifier written at `m_at` and filling the rest of the input: a
/// bare `!`, or a keep/drop keyword whose numeric value runs to the end.
pub open spec fn mod_tail_at(s: Seq<u8>, m_at: int) -> bool {
    (s[m_at] == 33 && m_at + 1 == s.len()) || (spec_mod_kind(s[m_at], s[m_at + 1]) is Some
        && digits_to_end(s, m_at + 2))
}

/// The modifier such a tail denotes.
pub open spec fn mod_tail_value(s: Seq<u8>, m_at: int) -> DiceModifier
    recommends
        mod_tail_at(s, m_at),
{
    if s[m_at] == 33 {
        DiceModifier { kind: DiceModifierType::Explode, value: None }
    } else {
        DiceModifier {
            kind: spec_mod_kind(s[m_at], s[m_at + 1])->Some_0,
            value: Some(Box::new(Expr::Number(digits_val(s.skip(m_at + 2)) as i32))),
        }
    }
}

/// The input from `pos` on is one dice production carrying exactly one
/// trailing modifier: an optional count run, `d` at `d_at`, a nonempty
/// sides run, and a modifier tail at `m_at` to the end.
pub open spec fn dice_mod_class_at(s: Seq<u8>, pos: int, d_at: int, m_at: int) -> bool {
    &&& pos <= d_at < s.len()
    &&& s[d_at] == 100
    &&& (forall|m: int| pos <= m < d_at ==> is_digit(#[trigger] s[m]))
    &&& d_at + 1 < m_at < s.len()
    &&& (forall|m: int| d_at + 1 <= m < m_at ==> is_digit(#[trigger] s[m]))
    &&& mod_tail_at(s, m_at)
}

/// All three numerals of such an input fit in the 32-bit width.
pub open spec fn dice_mod_class_fits(s: Seq<u8>, pos: int, d_at: int, m_at: int) -> bool {
    &&& dice_class_count(s, pos, d_at) <= i32::MAX
    &&& digits_val(s.subrange(d_at + 1, m_at)) <= i32::MAX
    &&& (s[m_at] != 33 ==> digits_val(s.skip(m_at + 2)) <= i32::MAX)
}

/// `e` is the `Dice` node such an input denotes: count and sides as
/// literals, and exactly the one trailing modifier.
pub open spec fn dice_mod_node_expr(s: Seq<u8>, pos: int, d_at: int, m_at: int, e: Expr) -> bool {
    e matches Expr::Dice { count: c2, sides: s2, modifiers: ms2 } && *c2 == Expr::Number(
        dice_class_count(s, pos, d_at) as i32,
    ) && *s2 == Expr::Number(digits_val(s.subrange(d_at + 1, m_at)) as i32) && ms2@.len() == 1
        && ms2@[0] == mod_tail_value(s, m_at)
}

/// What any expression-level parse function yields on a one-modifier dice
/// input: exactly its `Dice` node, the whole input consumed.
pub open spec fn dice_mod_class_result(
    s: Seq<u8>,
    pos: int,
    r: Result<(Expr, usize), ParseError>,
) -> bool {
    forall|d_at: int, m_at: int|
        #[trigger] dice_mod_class_at(s, pos, d_at, m_at) && dice_mod_class_fits(s, pos, d_at, m_at)
            ==> r is Ok && r->Ok_0.1 == s.len() && dice_mod_node_expr(s, pos, d_at, m_at, r->Ok_0.0)
}

/// A bare dice production occupying `[pos, end)`, stopped by a closing
/// parenthesis at `end`: the segment form of `dice_class_at`.
pub open spec fn dice_seg_at(s: Seq<u8>, pos: int, d_at: int, end: int) -> bool {
    &&& pos <= d_at
    &&& d_at + 1 < end < s.len()
    &&& s[d_at] == 100
    &&& (forall|m: int| pos <= m < d_at ==> is_digit(#[trigger] s[m]))
    &&& (forall|m: int| d_at + 1 <= m < end ==> is_digit(#[trigger] s[m]))
    &&& s[end] == 41
}

/// Both numerals of such a segment fit in the 32-bit width.
pub open spec fn dice_seg_fits(s: Seq<u8>, pos: int, d_at: int, end: int) -> bool {
    &&& dice_class_count(s, pos, d_at) <= i32::MAX
    &&& digits_val(s.subrange(d_at + 1, end)) <= i32::MAX
}

/// `e` is the `Dice` node such a segment denotes.
pub open spec fn dice_seg_node_expr(s: Seq<u8>, pos: int, d_at: int, end: int, e: Expr) -> bool {
    e matches Expr::Dice { count: c2, sides: s2, modifiers: ms2 } && *c2 == Expr::Number(
        dice_class_count(s, pos, d_at) as i32,
    ) && *s2 == Expr::Number(digits_val(s.subrange(d_at + 1, end)) as i32) && ms2@.len() == 0
}

/// What any expression-level parse function yields on such a segment:
/// exactly its `Dice` node, consumed up to the closing parenthesis.
pub open spec fn dice_seg_result(
    s: Seq<u8>,
    pos: int,
    r: Result<(Expr, usize), ParseError>,
) -> bool {
    forall|d_at: int, end: int|
        #[trigger] dice_seg_at(s, pos, d_at, end) && dice_seg_fits(s, pos, d_at, end) ==> r is Ok
            && r->Ok_0.1 == end && dice_seg_node_expr(s, pos, d_at, end, r->Ok_0.0)
}

/// Whether a modifier begins at `t_at`: the very test the parser makes.
pub open spec fn mod_start(s: Seq<u8>, t_at: int) -> bool {
    t_at < s.len() && (s[t_at] == 33 || ((s[t_at] == 107 || s[t_at] == 100) && t_at + 1 < s.len()
        && (s[t_at + 1] == 104 || s[t_at + 1] == 108)))
}

/// What may follow a repetition's closing parenthesis here: nothing, or
/// one modifier tail filling the rest of the input.
pub open spec fn rep_tail_at(s: Seq<u8>, t_at: int) -> bool {
    t_at == s.len() || (t_at < s.len() && mod_tail_at(s, t_at))
}

/// The whole input is a repetition of a parenthesized bare dice:
/// `count ( dice )`, with at most one trailing modifier.
pub open spec fn rep_class_at(s: Seq<u8>, pos: int, o_at: int, d_at: int, end: int) -> bool {
    &&& pos < o_at < s.len()
    &&& (forall|m: int| pos <= m < o_at ==> is_digit(#[trigger] s[m]))
    &&& s[o_at] == 40
    &&& dice_seg_at(s, o_at + 1, d_at, end)
    &&& rep_tail_at(s, end + 1)
}

/// All numerals of such an input fit in the 32-bit width.
pub open spec fn rep_class_fits(s: Seq<u8>, pos: int, o_at: int, d_at: int, end: int) -> bool {
    &&& digits_val(s.subrange(pos, o_at)) <= i32::MAX
    &&& dice_seg_fits(s, o_at + 1, d_at, end)
    &&& (end + 1 < s.len() && s[end + 1] != 33 ==> digits_val(s.skip(end + 3)) <= i32::MAX)
}

/// `e` is the `Repetition` node such an input denotes.
pub open spec fn rep_node_expr(s: Seq<u8>, pos: int, o_at: int, d_at: int, end: int, e: Expr) -> bool {
    e matches Expr::Repetition { count: c2, expr: inner, modifiers: ms2 } && *c2 == Expr::Number(
        digits_val(s.subrange(pos, o_at)) as i32,
    ) && dice_seg_node_expr(s, o_at + 1, d_at, end, *inner) && ms2@.len() == (if end + 1
        == s.len() {
        0int
    } else {
        1int
    }) && (end + 1 < s.len() ==> ms2@[0] == mod_tail_value(s, end + 1))
}

/// What any expression-level parse function yields on a repetition input:
/// exactly its `Repetition` node, the whole input consumed.
pub open spec fn rep_class_result(
    s: Seq<u8>,
    pos: int,
    r: Result<(Expr, usize), ParseError>,
) -> bool {
    forall|o_at: int, d_at: int, end: int|
        #[trigger] rep_class_at(s, pos, o_at, d_at, end) && rep_class_fits(s, pos, o_at, d_at, end)
            ==> r is Ok && r->Ok_0.1 == s.len() && rep_node_expr(s, pos, o_at, d_at, end, r->Ok_0.0)
}

/// The whole input is a dice whose count is a parenthesized bare dice:
/// `( dice ) d sides` — the disambiguation rule with a nested child. The
/// value after the `d` is still the sides; the one before is the count.
pub open spec fn nested_dice_class_at(s: Seq<u8>, pos: int, d_in: int, c_at: int) -> bool {
    &&& pos < s.len() && s[pos] == 40
    &&& dice_seg_at(s, pos + 1, d_in, c_at)
    &&& c_at + 1 < s.len() && s[c_at + 1] == 100
    &&& digits_to_end(s, c_at + 2)
}

/// All numerals of such an input fit in the 32-bit width.
pub open spec fn nested_dice_class_fits(s: Seq<u8>, pos: int, d_in: int, c_at: int) -> bool {
    &&& dice_seg_fits(s, pos + 1, d_in, c_at)
    &&& digits_val(s.skip(c_at + 2)) <= i32::MAX
}

/// `e` is the `Dice` node such an input denotes: the parenthesized dice
/// as its count, the trailing numeral as its sides, no modifiers.
pub open spec fn nested_dice_node_expr(s: Seq<u8>, pos: int, d_in: int, c_at: int, e: Expr) -> bool {
    e matches Expr::Dice { count: c2, sides: s2, modifiers: ms2 } && dice_seg_node_expr(
        s,
        pos + 1,
        d_in,
        c_at,
        *c2,
    ) && *s2 == Expr::Number(digits_val(s.skip(c_at + 2)) as i32) && ms2@.len() == 0
}

/// What any expression-level parse function yields on such an input.
pub open spec fn nested_dice_class_result(
    s: Seq<u8>,
    pos: int,
    r: Result<(Expr, usize), ParseError>,
) -> bool {
    forall|d_in: int, c_at: int|
        #[trigger] nested_dice_class_at(s, pos, d_in, c_at) && nested_dice_class_fits(
            s,
            pos,
            d_in,
            c_at,
        ) ==> r is Ok && r->Ok_0.1 == s.len() && nested_dice_node_expr(s, pos, d_in, c_at, r->Ok_0.0)
}

/// The whole input is a dice production, an additive operator, and a
/// number, with whitespace allowed around the operator.
pub open spec fn dice_sum_class_at(
    s: Seq<u8>,
    pos: int,
    d_at: int,
    t_stop: int,
    op_at: int,
    r_at: int,
) -> bool {
    &&& pos <= d_at < s.len()
    &&& s[d_at] == 100
    &&& (forall|m: int| pos <= m < d_at ==> is_digit(#[trigger] s[m]))
    &&& d_at + 1 < t_stop
    &&& (forall|m: int| d_at + 1 <= m < t_stop ==> is_digit(#[trigger] s[m]))
    &&& t_stop <= op_at < s.len()
    &&& (forall|m: int| t_stop <= m < op_at ==> is_ws(#[trigger] s[m]))
    &&& (s[op_at] == 43 || s[op_at] == 45)
    &&& op_at + 1 <= r_at
    &&& (forall|m: int| op_at + 1 <= m < r_at ==> is_ws(#[trigger] s[m]))
    &&& digits_to_end(s, r_at)
}

/// All three numerals of such an input fit in the 32-bit width.
pub open spec fn dice_sum_class_fits(
    s: Seq<u8>,
    pos: int,
    d_at: int,
    t_stop: int,
    op_at: int,
    r_at: int,
) -> bool {
    &&& dice_class_count(s, pos, d_at) <= i32::MAX
    &&& digits_val(s.subrange(d_at + 1, t_stop)) <= i32::MAX
    &&& digits_val(s.skip(r_at)) <= i32::MAX
}

/// `e` is the `BinaryOp` node such an input denotes: the dice on the
/// left, the written operator, the number on the right.
pub open spec fn dice_sum_node_expr(
    s: Seq<u8>,
    pos: int,
    d_at: int,
    t_stop: int,
    op_at: int,
    r_at: int,
    e: Expr,
) -> bool {
    e matches Expr::BinaryOp(l, op, rr) && dice_seg_node_expr(s, pos, d_at, t_stop, *l) && op == (
    if s[op_at] == 43 {
        '+'
    } else {
        '-'
    }) && *rr == Expr::Number(digits_val(s.skip(r_at)) as i32)
}

/// What the term and product levels yield on such an input: the dice
/// alone, stopped before the operator.
pub open spec fn dice_sum_opnd_result(
    s: Seq<u8>,
    pos: int,
    r: Result<(Expr, usize), ParseError>,
) -> bool {
    forall|d_at: int, t_stop: int, op_at: int, r_at: int|
        #[trigger] dice_sum_class_at(s, pos, d_at, t_stop, op_at, r_at) && dice_sum_class_fits(
            s,
            pos,
            d_at,
            t_stop,
            op_at,
            r_at,
        ) ==> r is Ok && r->Ok_0.1 == t_stop && dice_seg_node_expr(s, pos, d_at, t_stop, r->Ok_0.0)
}

/// What the additive level yields on such an input: the whole `BinaryOp`
/// node, the input consumed.
pub open spec fn dice_sum_class_result(
    s: Seq<u8>,
    pos: int,
    r: Result<(Expr, usize), ParseError>,
) -> bool {
    forall|d_at: int, t_stop: int, op_at: int, r_at: int|
        #[trigger] dice_sum_class_at(s, pos, d_at, t_stop, op_at, r_at) && dice_sum_class_fits(
            s,
            pos,
            d_at,
            t_stop,
            op_at,
            r_at,
        ) ==> r is Ok && r->Ok_0.1 == s.len() && dice_sum_node_expr(
            s,
            pos,
            d_at,
            t_stop,
            op_at,
            r_at,
            r->Ok_0.0,
        )
}

/// A number occupying `[pos, e1)`, stopped by a byte that cannot extend
/// a term: not a digit, not `d`, not `(`.
pub open spec fn num_seg_at(s: Seq<u8>, pos: int, e1: int) -> bool {
    &&& pos < e1 < s.len()
    &&& (forall|m: int| pos <= m < e1 ==> is_digit(#[trigger] s[m]))
    &&& !is_digit(s[e1])
    &&& s[e1] != 100
    &&& s[e1] != 40
}

/// What the term level yields on such a segment: the literal, stopped at
/// the break byte.
pub open spec fn num_seg_result(s: Seq<u8>, pos: int, r: Result<(Expr, usize), ParseError>) -> bool {
    forall|e1: int|
        #[trigger] num_seg_at(s, pos, e1) && digits_val(s.subrange(pos, e1)) <= i32::MAX ==> r
            is Ok && r->Ok_0.1 == e1 && r->Ok_0.0 == Expr::Number(
            digits_val(s.subrange(pos, e1)) as i32,
        )
}

/// The input from `pos` on is a number, a multiplicative operator, and a
/// number to the end, with whitespace allowed around the operator.
pub open spec fn num_prod_class_at(s: Seq<u8>, pos: int, e1: int, op_at: int, r_at: int) -> bool {
    &&& pos < e1
    &&& (forall|m: int| pos <= m < e1 ==> is_digit(#[trigger] s[m]))
    &&& e1 <= op_at < s.len()
    &&& (forall|m: int| e1 <= m < op_at ==> is_ws(#[trigger] s[m]))
    &&& (s[op_at] == 42 || s[op_at] == 47)
    &&& op_at + 1 <= r_at
    &&& (forall|m: int| op_at + 1 <= m < r_at ==> is_ws(#[trigger] s[m]))
    &&& digits_to_end(s, r_at)
}

/// Both numerals of such an input fit in the 32-bit width.
pub open spec fn num_prod_class_fits(s: Seq<u8>, pos: int, e1: int, op_at: int, r_at: int) -> bool {
    &&& digits_val(s.subrange(pos, e1)) <= i32::MAX
    &&& digits_val(s.skip(r_at)) <= i32::MAX
}

/// `e` is the `BinaryOp` node such an input denotes.
pub open spec fn num_prod_node_expr(
    s: Seq<u8>,
    pos: int,
    e1: int,
    op_at: int,
    r_at: int,
    e: Expr,
) -> bool {
    e matches Expr::BinaryOp(l, op, rr) && *l == Expr::Number(
        digits_val(s.subrange(pos, e1)) as i32,
    ) && op == (if s[op_at] == 42 {
        '*'
    } else {
        '/'
    }) && *rr == Expr::Number(digits_val(s.skip(r_at)) as i32)
}

/// What the product level and above yield on such an input: the whole
/// `BinaryOp` node, the input consumed.
pub open spec fn num_prod_class_result(
    s: Seq<u8>,
    pos: int,
    r: Result<(Expr, usize), ParseError>,
) -> bool {
    forall|e1: int, op_at: int, r_at: int|
        #[trigger] num_prod_class_at(s, pos, e1, op_at, r_at) && num_prod_class_fits(
            s,
            pos,
            e1,
            op_at,
            r_at,
        ) ==> r is Ok && r->Ok_0.1 == s.len() && num_prod_node_expr(s, pos, e1, op_at, r_at, r->Ok_0.0)
}

/// The whole input is a dice, an additive operator, and a product of two
/// numbers. The multiplicative operator binds tighter, so the product
/// groups as the right operand of the sum.
pub open spec fn dice_sum_prod_class_at(
    s: Seq<u8>,
    pos: int,
    d_at: int,
    t_stop: int,
    op_at: int,
    r_at: int,
    e1p: int,
    op2_at: int,
    r2_at: int,
) -> bool {
    &&& pos <= d_at < s.len()
    &&& s[d_at] == 100
    &&& (forall|m: int| pos <= m < d_at ==> is_digit(#[trigger] s[m]))
    &&& d_at + 1 < t_stop
    &&& (forall|m: int| d_at + 1 <= m < t_stop ==> is_digit(#[trigger] s[m]))
    &&& t_stop <= op_at < s.len()
    &&& (forall|m: int| t_stop <= m < op_at ==> is_ws(#[trigger] s[m]))
    &&& (s[op_at] == 43 || s[op_at] == 45)
    &&& op_at + 1 <= r_at
    &&& (forall|m: int| op_at + 1 <= m < r_at ==> is_ws(#[trigger] s[m]))
    &&& num_prod_class_at(s, r_at, e1p, op2_at, r2_at)
}

/// All four numerals of such an input fit in the 32-bit width.
pub open spec fn dice_sum_prod_class_fits(
    s: Seq<u8>,
    pos: int,
    d_at: int,
    t_stop: int,
    r_at: int,
    e1p: int,
    op2_at: int,
    r2_at: int,
) -> bool {
    &&& dice_class_count(s, pos, d_at) <= i32::MAX
    &&& digits_val(s.subrange(d_at + 1, t_stop)) <= i32::MAX
    &&& num_prod_class_fits(s, r_at, e1p, op2_at, r2_at)
}

/// `e` is the `BinaryOp` node such an input denotes: the dice on the
/// left, and the whole product on the right.
pub open spec fn dice_sum_prod_node_expr(
    s: Seq<u8>,
    pos: int,
    d_at: int,
    t_stop: int,
    op_at: int,
    r_at: int,
    e1p: int,
    op2_at: int,
    r2_at: int,
    e: Expr,
) -> bool {
    e matches Expr::BinaryOp(l, op, rr) && dice_seg_node_expr(s, pos, d_at, t_stop, *l) && op == (
    if s[op_at] == 43 {
        '+'
    } else {
        '-'
    }) && num_prod_node_expr(s, r_at, e1p, op2_at, r2_at, *rr)
}

/// What the term and product levels yield on such an input: the dice
/// alone, stopped before the additive operator.
pub open spec fn dice_sum_prod_opnd_result(
    s: Seq<u8>,
    pos: int,
    r: Result<(Expr, usize), ParseError>,
) -> bool {
    forall|d_at: int, t_stop: int, op_at: int, r_at: int, e1p: int, op2_at: int, r2_at: int|
        #[trigger] dice_sum_prod_class_at(s, pos, d_at, t_stop, op_at, r_at, e1p, op2_at, r2_at)
            && dice_sum_prod_class_fits(s, pos, d_at, t_stop, r_at, e1p, op2_at, r2_at) ==> r is Ok
            && r->Ok_0.1 == t_stop && dice_seg_node_expr(s, pos, d_at, t_stop, r->Ok_0.0)
}

/// What the additive level yields on such an input: the whole tree, the
/// input consumed.
pub open spec fn dice_sum_prod_class_result(
    s: Seq<u8>,
    pos: int,
    r: Result<(Expr, usize), ParseError>,
) -> bool {
    forall|d_at: int, t_stop: int, op_at: int, r_at: int, e1p: int, op2_at: int, r2_at: int|
        #[trigger] dice_sum_prod_class_at(s, pos, d_at, t_stop, op_at, r_at, e1p, op2_at, r2_at)
            && dice_sum_prod_class_fits(s, pos, d_at, t_stop, r_at, e1p, op2_at, r2_at) ==> r is Ok
            && r->Ok_0.1 == s.len() && dice_sum_prod_node_expr(
            s,
            pos,
            d_at,
            t_stop,
            op_at,
            r_at,
            e1p,
            op2_at,
            r2_at,
            r->Ok_0.0,
        )
}

/// A digit run bounded on both sides pins down where `digit_run_end`
/// stops.
proof fn lemma_run_end_is(s: Seq<u8>, pos: int, e: int)
    requires
        0 <= pos <= e <= s.len(),
        forall|m: int| pos <= m < e ==> is_digit(#[trigger] s[m]),
        e < s.len() ==> !is_digit(s[e]),
    ensures
        digit_run_end(s, pos) == e,
{
    lemma_digit_run_end(s, pos);
    let r = digit_run_end(s, pos);
    if r < e {
        assert(is_digit(s[r]));
    }
    if r > e {
        assert(is_digit(s[e]));
    }
}

/// The digit run from `pos` ends exactly at the `d` of a dice production.
proof fn lemma_dice_class_run(s: Seq<u8>, pos: int, d_at: int)
    requires
        0 <= pos,
        dice_class_at(s, pos, d_at),
    ensures
        digit_run_end(s, pos) == d_at,
{
    lemma_digit_run_end(s, pos);
    let e = digit_run_end(s, pos);
    if e < d_at {
        assert(is_digit(s[e]));
    }
    if e > d_at {
        assert(is_digit(s[d_at]));
    }
}

/// Parses one expression: the `add_sub` level of the grammar.
pub fn parse_expr(s: &[u8], pos: usize) -> (r: Result<(Expr, usize), ParseError>)
    requires
        pos <= s@.len(),
    ensures
        r is Ok ==> pos < r->Ok_0.1 <= s@.len() && wf_expr(r->Ok_0.0),
        digit_class_result(s@, pos as int, r),
        dice_class_result(s@, pos as int, r),
        dice_mod_class_result(s@, pos as int, r),
        dice_seg_result(s@, pos as int, r),
        rep_class_result(s@, pos as int, r),
        nested_dice_class_result(s@, pos as int, r),
        dice_sum_class_result(s@, pos as int, r),
        num_prod_class_result(s@, pos as int, r),
        dice_sum_prod_class_result(s@, pos as int, r),
    decreases s@.len() - pos, 3int,
{
    parse_add_sub(s, pos)
}

/// `add_sub := mul_div (('+'|'-') mul_div)*`, left associative.
fn parse_add_sub(s: &[u8], pos: usize) -> (r: Result<(Expr, usize), ParseError>)
    requires
        pos <= s@.len(),
    ensures
        r is Ok ==> pos < r->Ok_0.1 <= s@.len() && wf_expr(r->Ok_0.0),
        digit_class_result(s@, pos as int, r),
        dice_class_result(s@, pos as int, r),
        dice_mod_class_result(s@, pos as int, r),
        dice_seg_result(s@, pos as int, r),
        rep_class_result(s@, pos as int, r),
        nested_dice_class_result(s@, pos as int, r),
        dice_sum_class_result(s@, pos as int, r),
        num_prod_class_result(s@, pos as int, r),
        dice_sum_prod_class_result(s@, pos as int, r),
    decreases s@.len() - pos, 2int,
{
    let (mut left, mut p) = match parse_mul_div(s, pos) {
        Ok(x) => x,
        Err(er) => {
            return Err(er);
        },
    };
    let mut going = true;
    while going
        invariant
            pos < p <= s@.len(),
            wf_expr(left),
            digits_to_end(s@, pos as int) ==> digits_val(s@.skip(pos as int)) <= i32::MAX && p
                == s@.len() && left == Expr::Number(digits_val(s@.skip(pos as int)) as i32),
            forall|d_at: int|
                #[trigger] dice_class_at(s@, pos as int, d_at) && dice_class_count(
                    s@,
                    pos as int,
                    d_at,
                ) <= i32::MAX && digits_val(s@.skip(d_at + 1)) <= i32::MAX ==> p == s@.len()
                    && dice_node_expr(s@, pos as int, d_at, left),
            forall|d_at: int, m_at: int|
                #[trigger] dice_mod_class_at(s@, pos as int, d_at, m_at) && dice_mod_class_fits(
                    s@,
                    pos as int,
                    d_at,
                    m_at,
                ) ==> p == s@.len() && dice_mod_node_expr(s@, pos as int, d_at, m_at, left),
            forall|d_at: int, end: int|
                #[trigger] dice_seg_at(s@, pos as int, d_at, end) && dice_seg_fits(
                    s@,
                    pos as int,
                    d_at,
                    end,
                ) ==> p == end && dice_seg_node_expr(s@, pos as int, d_at, end, left),
            forall|o_at: int, d_at: int, end: int|
                #[trigger] rep_class_at(s@, pos as int, o_at, d_at, end) && rep_class_fits(
                    s@,
                    pos as int,
                    o_at,
                    d_at,
                    end,
                ) ==> p == s@.len() && rep_node_expr(s@, pos as int, o_at, d_at, end, left),
            forall|d_in: int, c_at: int|
                #[trigger] nested_dice_class_at(s@, pos as int, d_in, c_at)
                    && nested_dice_class_fits(s@, pos as int, d_in, c_at) ==> p == s@.len()
                    && nested_dice_node_expr(s@, pos as int, d_in, c_at, left),
            forall|d_at: int, t_stop: int, op_at: int, r_at: int|
                #[trigger] dice_sum_class_at(s@, pos as int, d_at, t_stop, op_at, r_at)
                    && dice_sum_class_fits(s@, pos as int, d_at, t_stop, op_at, r_at) ==> ((going
                    && p == t_stop && dice_seg_node_expr(s@, pos as int, d_at, t_stop, left)) || (p
                    == s@.len() && dice_sum_node_expr(
                    s@,
                    pos as int,
                    d_at,
                    t_stop,
                    op_at,
                    r_at,
                    left,
                ))),
            forall|e1: int, op_at: int, r_at: int|
                #[trigger] num_prod_class_at(s@, pos as int, e1, op_at, r_at)
                    && num_prod_class_fits(s@, pos as int, e1, op_at, r_at) ==> p == s@.len()
                    && num_prod_node_expr(s@, pos as int, e1, op_at, r_at, left),
            forall|d_at: int, t_stop: int, op_at: int, r_at: int, e1p: int, op2_at: int, r2_at: int|
                #[trigger] dice_sum_prod_class_at(
                    s@,
                    pos as int,
                    d_at,
                    t_stop,
                    op_at,
                    r_at,
                    e1p,
                    op2_at,
                    r2_at,
                ) && dice_sum_prod_class_fits(s@, pos as int, d_at, t_stop, r_at, e1p, op2_at, r2_at)
                    ==> ((going && p == t_stop && dice_seg_node_expr(
                    s@,
                    pos as int,
                    d_at,
                    t_stop,
                    left,
                )) || (p == s@.len() && dice_sum_prod_node_expr(
                    s@,
                    pos as int,
                    d_at,
                    t_stop,
                    op_at,
                    r_at,
                    e1p,
                    op2_at,
                    r2_at,
                    left,
                ))),
        decreases s@.len() - p, (if going {
            1int
        } else {
            0int
        }),
    {
        let q = skip_ws(s, p);
        if q < s.len() && (s[q] == 43 || s[q] == 45) {
            let op = s[q] as char;
            let q2 = skip_ws(s, q + 1);
            proof {
                assert forall|d_at: int, t_stop: int, op_at: int, r_at: int|
                    dice_sum_class_at(s@, pos as int, d_at, t_stop, op_at, r_at)
                        && dice_sum_class_fits(s@, pos as int, d_at, t_stop, op_at, r_at) implies q
                    == op_at && q2 == r_at && p == t_stop by {
                    assert(p == t_stop);
                    if q < op_at {
                        assert(is_ws(s@[q as int]));
                    }
                    if q > op_at {
                        assert(is_ws(s@[op_at]));
                    }
                    if q2 < r_at {
                        assert(is_ws(s@[q2 as int]));
                    }
                    if q2 > r_at {
                        assert(is_ws(s@[r_at]));
                        assert(is_digit(s@[r_at]));
                    }
                };
                assert forall|
                    d_at: int,
                    t_stop: int,
                    op_at: int,
                    r_at: int,
                    e1p: int,
                    op2_at: int,
                    r2_at: int,
                |
                    dice_sum_prod_class_at(
                        s@,
                        pos as int,
                        d_at,
                        t_stop,
                        op_at,
                        r_at,
                        e1p,
                        op2_at,
                        r2_at,
                    ) && dice_sum_prod_class_fits(
                        s@,
                        pos as int,
                        d_at,
                        t_stop,
                        r_at,
                        e1p,
                        op2_at,
                        r2_at,
                    ) implies q == op_at && q2 == r_at && p == t_stop by {
                    assert(p == t_stop);
                    if q < op_at {
                        assert(is_ws(s@[q as int]));
                    }
                    if q > op_at {
                        assert(is_ws(s@[op_at]));
                    }
                    if q2 < r_at {
                        assert(is_ws(s@[q2 as int]));
                    }
                    if q2 > r_at {
                        assert(is_ws(s@[r_at]));
                        assert(is_digit(s@[r_at]));
                    }
                };
            }
            let (right, p2) = match parse_mul_div(s, q2) {
                Ok(x) => x,
                Err(er) => {
                    return Err(er);
                },
            };
            left = Expr::BinaryOp(Box::new(left), op, Box::new(right));
            p = p2;
        } else {
            going = false;
        }
    }
    Ok((left, p))
}

/// `mul_div := term (('*'|'/') term)*`, left associative and binding
/// tighter than addition.
fn parse_mul_div(s: &[u8], pos: usize) -> (r: Result<(Expr, usize), ParseError>)
    requires
        pos <= s@.len(),
    ensures
        r is Ok ==> pos < r->Ok_0.1 <= s@.len() && wf_expr(r->Ok_0.0),
        digit_class_result(s@, pos as int, r),
        dice_class_result(s@, pos as int, r),
        dice_mod_class_result(s@, pos as int, r),
        dice_seg_result(s@, pos as int, r),
        rep_class_result(s@, pos as int, r),
        nested_dice_class_result(s@, pos as int, r),
        dice_sum_opnd_result(s@, pos as int, r),
        num_prod_class_result(s@, pos as int, r),
        dice_sum_prod_opnd_result(s@, pos as int, r),
    decreases s@.len() - pos, 1int,
{
    proof {
        assert forall|e1: int, op_at: int, r_at: int|
            num_prod_class_at(s@, pos as int, e1, op_at, r_at) implies num_seg_at(
            s@,
            pos as int,
            e1,
        ) by {
            if e1 < op_at {
                assert(is_ws(s@[e1]));
            } else {
                assert(s@[e1] == 42 || s@[e1] == 47);
            }
        };
    }
    let (mut left, mut p) = match parse_term(s, pos) {
        Ok(x) => x,
        Err(er) => {
            return Err(er);
        },
    };
    let mut going = true;
    while going
        invariant
            pos < p <= s@.len(),
            wf_expr(left),
            digits_to_end(s@, pos as int) ==> digits_val(s@.skip(pos as int)) <= i32::MAX && p
                == s@.len() && left == Expr::Number(digits_val(s@.skip(pos as int)) as i32),
            forall|d_at: int|
                #[trigger] dice_class_at(s@, pos as int, d_at) && dice_class_count(
                    s@,
                    pos as int,
                    d_at,
                ) <= i32::MAX && digits_val(s@.skip(d_at + 1)) <= i32::MAX ==> p == s@.len()
                    && dice_node_expr(s@, pos as int, d_at, left),
            forall|d_at: int, m_at: int|
                #[trigger] dice_mod_class_at(s@, pos as int, d_at, m_at) && dice_mod_class_fits(
                    s@,
                    pos as int,
                    d_at,
                    m_at,
                ) ==> p == s@.len() && dice_mod_node_expr(s@, pos as int, d_at, m_at, left),
            forall|d_at: int, end: int|
                #[trigger] dice_seg_at(s@, pos as int, d_at, end) && dice_seg_fits(
                    s@,
                    pos as int,
                    d_at,
                    end,
                ) ==> p == end && dice_seg_node_expr(s@, pos as int, d_at, end, left),
            forall|o_at: int, d_at: int, end: int|
                #[trigger] rep_class_at(s@, pos as int, o_at, d_at, end) && rep_class_fits(
                    s@,
                    pos as int,
                    o_at,
                    d_at,
                    end,
                ) ==> p == s@.len() && rep_node_expr(s@, pos as int, o_at, d_at, end, left),
            forall|d_in: int, c_at: int|
                #[trigger] nested_dice_class_at(s@, pos as int, d_in, c_at)
                    && nested_dice_class_fits(s@, pos as int, d_in, c_at) ==> p == s@.len()
                    && nested_dice_node_expr(s@, pos as int, d_in, c_at, left),
            forall|d_at: int, t_stop: int, op_at: int, r_at: int|
                #[trigger] dice_sum_class_at(s@, pos as int, d_at, t_stop, op_at, r_at)
                    && dice_sum_class_fits(s@, pos as int, d_at, t_stop, op_at, r_at) ==> p
                    == t_stop && dice_seg_node_expr(s@, pos as int, d_at, t_stop, left),
            forall|e1: int, op_at: int, r_at: int|
                #[trigger] num_prod_class_at(s@, pos as int, e1, op_at, r_at)
                    && num_prod_class_fits(s@, pos as int, e1, op_at, r_at) ==> ((going && p == e1
                    && left == Expr::Number(digits_val(s@.subrange(pos as int, e1)) as i32)) || (p
                    == s@.len() && num_prod_node_expr(s@, pos as int, e1, op_at, r_at, left))),
            forall|d_at: int, t_stop: int, op_at: int, r_at: int, e1p: int, op2_at: int, r2_at: int|
                #[trigger] dice_sum_prod_class_at(
                    s@,
                    pos as int,
                    d_at,
                    t_stop,
                    op_at,
                    r_at,
                    e1p,
                    op2_at,
                    r2_at,
                ) && dice_sum_prod_class_fits(s@, pos as int, d_at, t_stop, r_at, e1p, op2_at, r2_at)
                    ==> p == t_stop && dice_seg_node_expr(s@, pos as int, d_at, t_stop, left),
        decreases s@.len() - p, (if going {
            1int
        } else {
            0int
        }),
    {
        let q = skip_ws(s, p);
        if q < s.len() && (s[q] == 42 || s[q] == 47) {
            let op = s[q] as char;
            let q2 = skip_ws(s, q + 1);
            proof {
                assert forall|e1: int, op_at: int, r_at: int|
                    num_prod_class_at(s@, pos as int, e1, op_at, r_at) && num_prod_class_fits(
                        s@,
                        pos as int,
                        e1,
                        op_at,
                        r_at,
                    ) implies q == op_at && q2 == r_at && p == e1 by {
                    assert(p == e1);
                    if q < op_at {
                        assert(is_ws(s@[q as int]));
                    }
                    if q > op_at {
                        assert(is_ws(s@[op_at]));
                    }
                    if q2 < r_at {
                        assert(is_ws(s@[q2 as int]));
                    }
                    if q2 > r_at {
                        assert(is_ws(s@[r_at]));
                        assert(is_digit(s@[r_at]));
                    }
                };
            }
            let (right, p2) = match parse_term(s, q2) {
                Ok(x) => x,
                Err(er) => {
                    return Err(er);
                },
            };
            left = Expr::BinaryOp(Box::new(left), op, Box::new(right));
            p = p2;
        } else {
            going = false;
        }
    }
    Ok((left, p))
}

/// `term := dice | repetition | number | '(' expression ')'`. A leading
/// number is disambiguated by what follows it: `d` makes it a dice count,
/// `(` a repetition count, anything else leaves it a literal. A
/// parenthesized value followed by `d` is a nested dice count.
fn parse_term(s: &[u8], pos: usize) -> (r: Result<(Expr, usize), ParseError>)
    requires
        pos <= s@.len(),
    ensures
        r is Ok ==> pos < r->Ok_0.1 <= s@.len() && wf_expr(r->Ok_0.0),
        digit_class_result(s@, pos as int, r),
        dice_class_result(s@, pos as int, r),
        dice_mod_class_result(s@, pos as int, r),
        dice_seg_result(s@, pos as int, r),
        rep_class_result(s@, pos as int, r),
        nested_dice_class_result(s@, pos as int, r),
        dice_sum_opnd_result(s@, pos as int, r),
        num_seg_result(s@, pos as int, r),
        dice_sum_prod_opnd_result(s@, pos as int, r),
    decreases s@.len() - pos, 0int,
{
    if pos >= s.len() {
        return Err(ParseError { pos, kind: ParseErrorKind::UnexpectedEnd });
    }
    let c = s[pos];
    if digit_byte(c) {
        proof {
            lemma_digit_run_end(s@, pos as int);
            if digits_to_end(s@, pos as int) {
                let e = digit_run_end(s@, pos as int);
                assert(e == s@.len()) by {
                    if e < s@.len() {
                        assert(is_digit(s@[e]));
                    }
                };
                assert(s@.subrange(pos as int, e) =~= s@.skip(pos as int));
            }
            assert forall|d_at: int| dice_class_at(s@, pos as int, d_at) implies d_at
                == digit_run_end(s@, pos as int) by {
                lemma_dice_class_run(s@, pos as int, d_at);
            };
            assert forall|d_at: int, m_at: int|
                dice_mod_class_at(s@, pos as int, d_at, m_at) implies d_at == digit_run_end(
                s@,
                pos as int,
            ) by {
                lemma_run_end_is(s@, pos as int, d_at);
            };
            assert forall|d_at: int, end: int|
                dice_seg_at(s@, pos as int, d_at, end) implies d_at == digit_run_end(
                s@,
                pos as int,
            ) by {
                lemma_run_end_is(s@, pos as int, d_at);
            };
            assert forall|e1: int| num_seg_at(s@, pos as int, e1) implies e1 == digit_run_end(
                s@,
                pos as int,
            ) by {
                lemma_run_end_is(s@, pos as int, e1);
            };
            assert forall|d_at: int, t_stop: int, op_at: int, r_at: int|
                dice_sum_class_at(s@, pos as int, d_at, t_stop, op_at, r_at) implies d_at
                == digit_run_end(s@, pos as int) && !is_digit(s@[t_stop]) && !mod_start(
                s@,
                t_stop,
            ) by {
                lemma_run_end_is(s@, pos as int, d_at);
                if t_stop < op_at {
                    assert(is_ws(s@[t_stop]));
                } else {
                    assert(s@[t_stop] == 43 || s@[t_stop] == 45);
                }
            };
            assert forall|
                d_at: int,
                t_stop: int,
                op_at: int,
                r_at: int,
                e1p: int,
                op2_at: int,
                r2_at: int,
            |
                dice_sum_prod_class_at(
                    s@,
                    pos as int,
                    d_at,
                    t_stop,
                    op_at,
                    r_at,
                    e1p,
                    op2_at,
                    r2_at,
                ) implies d_at == digit_run_end(s@, pos as int) && !is_digit(s@[t_stop])
                && !mod_start(s@, t_stop) by {
                lemma_run_end_is(s@, pos as int, d_at);
                if t_stop < op_at {
                    assert(is_ws(s@[t_stop]));
                } else {
                    assert(s@[t_stop] == 43 || s@[t_stop] == 45);
                }
            };
            assert forall|o_at: int, d_at: int, end: int|
                rep_class_at(s@, pos as int, o_at, d_at, end) implies o_at == digit_run_end(
                s@,
                pos as int,
            ) && !is_ws(s@[o_at + 1]) by {
                lemma_run_end_is(s@, pos as int, o_at);
                if d_at == o_at + 1 {
                    assert(s@[o_at + 1] == 100);
                } else {
                    assert(is_digit(s@[o_at + 1]));
                }
            };
        }
        let (num, p1) = match parse_number(s, pos) {
            Ok(x) => x,
            Err(er) => {
                return Err(er);
            },
        };
        if p1 < s.len() && s[p1] == 100 {
            parse_dice_tail(s, p1 + 1, num)
        } else if p1 < s.len() && s[p1] == 40 {
            let q = skip_ws(s, p1 + 1);
            let (inner, p2) = match parse_expr(s, q) {
                Ok(x) => x,
                Err(er) => {
                    return Err(er);
                },
            };
            let q2 = skip_ws(s, p2);
            if !(q2 < s.len() && s[q2] == 41) {
                return Err(ParseError { pos: q2, kind: ParseErrorKind::UnclosedParen });
            }
            let (mods, p3) = match parse_modifiers(s, q2 + 1) {
                Ok(x) => x,
                Err(er) => {
                    return Err(er);
                },
            };
            Ok(
                (
                    Expr::Repetition {
                        count: Box::new(num),
                        expr: Box::new(inner),
                        modifiers: mods,
                    },
                    p3,
                ),
            )
        } else {
            Ok((num, p1))
        }
    } else if c == 100 {
        parse_dice_tail(s, pos + 1, Expr::Number(1))
    } else if c == 40 {
        proof {
            assert forall|d_in: int, c_at: int|
                nested_dice_class_at(s@, pos as int, d_in, c_at) implies !is_ws(
                s@[pos as int + 1],
            ) by {
                if d_in == pos as int + 1 {
                    assert(s@[pos as int + 1] == 100);
                } else {
                    assert(is_digit(s@[pos as int + 1]));
                }
            };
        }
        let q = skip_ws(s, pos + 1);
        let (inner, p1) = match parse_expr(s, q) {
            Ok(x) => x,
            Err(er) => {
                return Err(er);
            },
        };
        let q2 = skip_ws(s, p1);
        if !(q2 < s.len() && s[q2] == 41) {
            return Err(ParseError { pos: q2, kind: ParseErrorKind::UnclosedParen });
        }
        let p2 = q2 + 1;
        if p2 < s.len() && s[p2] == 100 {
            parse_dice_tail(s, p2 + 1, inner)
        } else {
            Ok((inner, p2))
        }
    } else {
        Err(ParseError { pos, kind: ParseErrorKind::UnexpectedChar })
    }
}

/// The rest of a dice production after its `d`: the side count (a number
/// or a parenthesized expression) and any modifiers. `count` is the value
/// parsed before the `d`, or the default of one.
fn parse_dice_tail(s: &[u8], pos: usize, count: Expr) -> (r: Result<(Expr, usize), ParseError>)
    requires
        pos <= s@.len(),
        wf_expr(count),
    ensures
        r is Ok ==> pos < r->Ok_0.1 <= s@.len() && wf_expr(r->Ok_0.0) && r->Ok_0.0 is Dice,
        digits_to_end(s@, pos as int) && digits_val(s@.skip(pos as int)) <= i32::MAX ==> r is Ok
            && r->Ok_0.1 == s@.len() && (r->Ok_0.0 matches Expr::Dice {
            count: c2,
            sides: s2,
            modifiers: ms2,
        } && *c2 == count && *s2 == Expr::Number(digits_val(s@.skip(pos as int)) as i32)
            && ms2@.len() == 0),
        forall|m_at: int|
            (pos as int) < m_at < s@.len() && (forall|m: int|
                pos as int <= m < m_at ==> is_digit(#[trigger] s@[m])) && #[trigger] mod_tail_at(
                s@,
                m_at,
            ) && digits_val(s@.subrange(pos as int, m_at)) <= i32::MAX && (s@[m_at] != 33
                ==> digits_val(s@.skip(m_at + 2)) <= i32::MAX) ==> r is Ok && r->Ok_0.1
            == s@.len() && (r->Ok_0.0 matches Expr::Dice { count: c2, sides: s2, modifiers: ms2 }
            && *c2 == count && *s2 == Expr::Number(
            digits_val(s@.subrange(pos as int, m_at)) as i32,
        ) && ms2@.len() == 1 && ms2@[0] == mod_tail_value(s@, m_at)),
        forall|end: int|
            (pos as int) < end < s@.len() && (forall|m: int|
                pos as int <= m < end ==> is_digit(#[trigger] s@[m])) && !is_digit(s@[end])
                && !mod_start(s@, end) && #[trigger] digits_val(s@.subrange(pos as int, end))
                <= i32::MAX ==> r is Ok && r->Ok_0.1 == end && (r->Ok_0.0 matches Expr::Dice {
                count: c2,
                sides: s2,
                modifiers: ms2,
            } && *c2 == count && *s2 == Expr::Number(
                digits_val(s@.subrange(pos as int, end)) as i32,
            ) && ms2@.len() == 0),
    decreases s@.len() - pos, 0int,
{
    proof {
        if digits_to_end(s@, pos as int) {
            lemma_digit_run_end(s@, pos as int);
            let e = digit_run_end(s@, pos as int);
            assert(e == s@.len()) by {
                if e < s@.len() {
                    assert(is_digit(s@[e]));
                }
            };
            assert(s@.subrange(pos as int, e) =~= s@.skip(pos as int));
        }
        assert forall|m_at: int|
            (pos as int) < m_at < s@.len() && (forall|m: int|
                pos as int <= m < m_at ==> is_digit(#[trigger] s@[m])) && #[trigger] mod_tail_at(
                s@,
                m_at,
            ) implies digit_run_end(s@, pos as int) == m_at by {
            assert(!is_digit(s@[m_at]));
            lemma_run_end_is(s@, pos as int, m_at);
        };
        assert forall|end: int|
            (pos as int) < end < s@.len() && (forall|m: int|
                pos as int <= m < end ==> is_digit(#[trigger] s@[m])) && !is_digit(s@[end])
            implies digit_run_end(s@, pos as int) == end by {
            lemma_run_end_is(s@, pos as int, end);
        };
    }
    if pos >= s.len() {
        return Err(ParseError { pos, kind: ParseErrorKind::UnexpectedEnd });
    }
    let c = s[pos];
    let (sides, p1) = if digit_byte(c) {
        match parse_number(s, pos) {
            Ok(x) => x,
            Err(er) => {
                return Err(er);
            },
        }
    } else if c == 40 {
        let q = skip_ws(s, pos + 1);
        let (inner, p1) = match parse_expr(s, q) {
            Ok(x) => x,
            Err(er) => {
                return Err(er);
            },
        };
        let q2 = skip_ws(s, p1);
        if !(q2 < s.len() && s[q2] == 41) {
            return Err(ParseError { pos: q2, kind: ParseErrorKind::UnclosedParen });
        }
        (inner, q2 + 1)
    } else {
        return Err(ParseError { pos, kind: ParseErrorKind::UnexpectedChar });
    };
    let (mods, p2) = match parse_modifiers(s, p1) {
        Ok(x) => x,
        Err(er) => {
            return Err(er);
        },
    };
    Ok((Expr::Dice { count: Box::new(count), sides: Box::new(sides), modifiers: mods }, p2))
}

/// Collects the modifiers standing at `pos`, possibly none.
fn parse_modifiers(s: &[u8], pos: usize) -> (r: Result<(Vec<DiceModifier>, usize), ParseError>)
    requires
        pos <= s@.len(),
    ensures
        r is Ok ==> pos <= r->Ok_0.1 <= s@.len() && wf_mods(r->Ok_0.0@),
        pos == s@.len() ==> r is Ok && r->Ok_0.1 == pos && r->Ok_0.0@.len() == 0,
        pos < s@.len() && mod_tail_at(s@, pos as int) && (s@[pos as int] != 33 ==> digits_val(
            s@.skip(pos as int + 2),
        ) <= i32::MAX) ==> r is Ok && r->Ok_0.1 == s@.len() && r->Ok_0.0@.len() == 1
            && r->Ok_0.0@[0] == mod_tail_value(s@, pos as int),
        pos < s@.len() && !mod_start(s@, pos as int) ==> r is Ok && r->Ok_0.1 == pos
            && r->Ok_0.0@.len() == 0,
    decreases s@.len() - pos, 1int,
{
    let mut mods: Vec<DiceModifier> = Vec::new();
    let mut p = pos;
    let mut going = true;
    while going
        invariant
            pos <= p <= s@.len(),
            wf_mods(mods@),
            pos == s@.len() ==> p == pos && mods@.len() == 0,
            pos < s@.len() && mod_tail_at(s@, pos as int) && (s@[pos as int] != 33 ==> digits_val(
                s@.skip(pos as int + 2),
            ) <= i32::MAX) ==> ((going && p == pos && mods@.len() == 0) || (p == s@.len()
                && mods@.len() == 1 && mods@[0] == mod_tail_value(s@, pos as int))),
            pos < s@.len() && !mod_start(s@, pos as int) ==> p == pos && mods@.len() == 0,
        decreases s@.len() - p, (if going {
            1int
        } else {
            0int
        }),
    {
        let starts = p < s.len() && (s[p] == 33 || ((s[p] == 107 || s[p] == 100) && p + 1 < s.len()
            && (s[p + 1] == 104 || s[p + 1] == 108)));
        if starts {
            let (m, p2) = match parse_dice_modifier(s, p) {
                Ok(x) => x,
                Err(er) => {
                    return Err(er);
                },
            };
            mods.push(m);
            p = p2;
        } else {
            going = false;
        }
    }
    Ok((mods, p))
}

/// Parses one modifier: `'!'` alone is an explode without a value; the
/// keywords `kh`, `kl`, `dh`, `dl` each take a value, a number or a
/// parenthesized expression.
pub fn parse_dice_modifier(s: &[u8], pos: usize) -> (r: Result<(DiceModifier, usize), ParseError>)
    requires
        pos <= s@.len(),
    ensures
        r is Ok ==> pos < r->Ok_0.1 <= s@.len() && wf_modifier(r->Ok_0.0),
        pos < s@.len() && s@[pos as int] == 33 ==> r is Ok && r->Ok_0.0 == (DiceModifier {
            kind: DiceModifierType::Explode,
            value: None,
        }) && r->Ok_0.1 == pos + 1,
        pos + 1 < s@.len() && s@[pos as int] == 107 && s@[pos as int + 1] == 104 ==> (r is Ok
            ==> r->Ok_0.0.kind == DiceModifierType::KeepHigh && r->Ok_0.0.value is Some),
        pos + 1 < s@.len() && s@[pos as int] == 107 && s@[pos as int + 1] == 108 ==> (r is Ok
            ==> r->Ok_0.0.kind == DiceModifierType::KeepLow && r->Ok_0.0.value is Some),
        pos + 1 < s@.len() && s@[pos as int] == 100 && s@[pos as int + 1] == 104 ==> (r is Ok
            ==> r->Ok_0.0.kind == DiceModifierType::DropHigh && r->Ok_0.0.value is Some),
        pos + 1 < s@.len() && s@[pos as int] == 100 && s@[pos as int + 1] == 108 ==> (r is Ok
            ==> r->Ok_0.0.kind == DiceModifierType::DropLow && r->Ok_0.0.value is Some),
        pos as int + 1 < s@.len() && spec_mod_kind(s@[pos as int], s@[pos as int + 1]) is Some
            && digits_to_end(s@, pos as int + 2) ==> (if digits_val(s@.skip(pos as int + 2))
            <= i32::MAX {
            r is Ok && r->Ok_0.1 == s@.len() && r->Ok_0.0 == mod_tail_value(s@, pos as int)
        } else {
            r is Err
        }),
    decreases s@.len() - pos, 0int,
{
    if pos < s.len() && s[pos] == 33 {
        return Ok((DiceModifier { kind: DiceModifierType::Explode, value: None }, pos + 1));
    }
    if s.len() - pos < 2 {
        return Err(ParseError { pos, kind: ParseErrorKind::UnexpectedEnd });
    }
    let k0 = s[pos];
    let k1 = s[pos + 1];
    let kind = if k0 == 107 && k1 == 104 {
        DiceModifierType::KeepHigh
    } else if k0 == 107 && k1 == 108 {
        DiceModifierType::KeepLow
    } else if k0 == 100 && k1 == 104 {
        DiceModifierType::DropHigh
    } else if k0 == 100 && k1 == 108 {
        DiceModifierType::DropLow
    } else {
        return Err(ParseError { pos, kind: ParseErrorKind::UnexpectedChar });
    };
    let vpos = pos + 2;
    proof {
        if pos as int + 1 < s@.len() && spec_mod_kind(s@[pos as int], s@[pos as int + 1]) is Some
            && digits_to_end(s@, pos as int + 2) {
            lemma_run_end_is(s@, pos as int + 2, s@.len() as int);
            assert(s@.subrange(pos as int + 2, s@.len() as int) =~= s@.skip(pos as int + 2));
        }
    }
    if vpos < s.len() && digit_byte(s[vpos]) {
        match parse_number(s, vpos) {
            Ok((num, p2)) => Ok((DiceModifier { kind, value: Some(Box::new(num)) }, p2)),
            Err(er) => Err(er),
        }
    } else if vpos < s.len() && s[vpos] == 40 {
        let q = skip_ws(s, vpos + 1);
        let (inner, p1) = match parse_expr(s, q) {
            Ok(x) => x,
            Err(er) => {
                return Err(er);
            },
        };
        let q2 = skip_ws(s, p1);
        if !(q2 < s.len() && s[q2] == 41) {
            return Err(ParseError { pos: q2, kind: ParseErrorKind::UnclosedParen });
        }
        Ok((DiceModifier { kind, value: Some(Box::new(inner)) }, q2 + 1))
    } else {
        Err(ParseError { pos: vpos, kind: ParseErrorKind::ModifierNeedsValue })
    }
}

/// Parses a whole input: one or more whitespace-separated expressions,
/// all of which must parse; an input holding none at all is an error.
pub fn parse_expressions(s: &[u8]) -> (r: Result<Vec<Expr>, ParseError>)
    ensures
        r is Ok ==> r->Ok_0@.len() >= 1 && (forall|i: int|
            0 <= i < r->Ok_0@.len() ==> wf_expr(#[trigger] r->Ok_0@[i])),
        (forall|m: int| 0 <= m < s@.len() ==> is_ws(#[trigger] s@[m])) ==> r == Err::<
            Vec<Expr>,
            ParseError,
        >(ParseError { pos: 0, kind: ParseErrorKind::NoExpressions }),
        s@.len() > 0 && all_digits(s@) ==> ({
            let v = digits_val(s@);
            if v <= i32::MAX {
                &&& r is Ok
                &&& r->Ok_0@.len() == 1
                &&& r->Ok_0@[0] == Expr::Number(v as i32)
            } else {
                r is Err
            }
        }),
        forall|d_at: int|
            #[trigger] dice_class_at(s@, 0, d_at) && dice_class_count(s@, 0, d_at) <= i32::MAX
                && digits_val(s@.skip(d_at + 1)) <= i32::MAX ==> r is Ok && r->Ok_0@.len() == 1
                && dice_node_expr(s@, 0, d_at, r->Ok_0@[0]),
        forall|d_at: int, m_at: int|
            #[trigger] dice_mod_class_at(s@, 0, d_at, m_at) && dice_mod_class_fits(
                s@,
                0,
                d_at,
                m_at,
            ) ==> r is Ok && r->Ok_0@.len() == 1 && dice_mod_node_expr(
                s@,
                0,
                d_at,
                m_at,
                r->Ok_0@[0],
            ),
        forall|o_at: int, d_at: int, end: int|
            #[trigger] rep_class_at(s@, 0, o_at, d_at, end) && rep_class_fits(
                s@,
                0,
                o_at,
                d_at,
                end,
            ) ==> r is Ok && r->Ok_0@.len() == 1 && rep_node_expr(
                s@,
                0,
                o_at,
                d_at,
                end,
                r->Ok_0@[0],
            ),
        forall|d_in: int, c_at: int|
            #[trigger] nested_dice_class_at(s@, 0, d_in, c_at) && nested_dice_class_fits(
                s@,
                0,
                d_in,
                c_at,
            ) ==> r is Ok && r->Ok_0@.len() == 1 && nested_dice_node_expr(
                s@,
                0,
                d_in,
                c_at,
                r->Ok_0@[0],
            ),
        forall|d_at: int, t_stop: int, op_at: int, r_at: int|
            #[trigger] dice_sum_class_at(s@, 0, d_at, t_stop, op_at, r_at) && dice_sum_class_fits(
                s@,
                0,
                d_at,
                t_stop,
                op_at,
                r_at,
            ) ==> r is Ok && r->Ok_0@.len() == 1 && dice_sum_node_expr(
                s@,
                0,
                d_at,
                t_stop,
                op_at,
                r_at,
                r->Ok_0@[0],
            ),
        forall|e1: int, op_at: int, r_at: int|
            #[trigger] num_prod_class_at(s@, 0, e1, op_at, r_at) && num_prod_class_fits(
                s@,
                0,
                e1,
                op_at,
                r_at,
            ) ==> r is Ok && r->Ok_0@.len() == 1 && num_prod_node_expr(
                s@,
                0,
                e1,
                op_at,
                r_at,
                r->Ok_0@[0],
            ),
        forall|d_at: int, t_stop: int, op_at: int, r_at: int, e1p: int, op2_at: int, r2_at: int|
            #[trigger] dice_sum_prod_class_at(s@, 0, d_at, t_stop, op_at, r_at, e1p, op2_at, r2_at)
                && dice_sum_prod_class_fits(s@, 0, d_at, t_stop, r_at, e1p, op2_at, r2_at) ==> r
                is Ok && r->Ok_0@.len() == 1 && dice_sum_prod_node_expr(
                s@,
                0,
                d_at,
                t_stop,
                op_at,
                r_at,
                e1p,
                op2_at,
                r2_at,
                r->Ok_0@[0],
            ),
{
    proof {
        if s@.len() > 0 && all_digits(s@) {
            assert(!is_ws(s@[0]));
            assert(s@.skip(0) =~= s@);
        }
    }
    let mut out: Vec<Expr> = Vec::new();
    let mut p = skip_ws(s, 0);
    proof {
        assert forall|d_at: int| dice_class_at(s@, 0, d_at) implies !is_ws(s@[0]) by {
            if d_at == 0 {
                assert(s@[0] == 100);
            } else {
                assert(is_digit(s@[0]));
            }
        };
        assert forall|d_at: int, m_at: int| dice_mod_class_at(s@, 0, d_at, m_at) implies !is_ws(
            s@[0],
        ) by {
            if d_at == 0 {
                assert(s@[0] == 100);
            } else {
                assert(is_digit(s@[0]));
            }
        };
        assert forall|o_at: int, d_at: int, end: int| rep_class_at(s@, 0, o_at, d_at, end) implies
            !is_ws(s@[0]) by {
            assert(is_digit(s@[0]));
        };
        assert forall|d_in: int, c_at: int| nested_dice_class_at(s@, 0, d_in, c_at) implies !is_ws(
            s@[0],
        ) by {
            assert(s@[0] == 40);
        };
        assert forall|d_at: int, t_stop: int, op_at: int, r_at: int|
            dice_sum_class_at(s@, 0, d_at, t_stop, op_at, r_at) implies !is_ws(s@[0]) by {
            if d_at == 0 {
                assert(s@[0] == 100);
            } else {
                assert(is_digit(s@[0]));
            }
        };
        assert forall|e1: int, op_at: int, r_at: int|
            num_prod_class_at(s@, 0, e1, op_at, r_at) implies !is_ws(s@[0]) by {
            assert(is_digit(s@[0]));
        };
        assert forall|
            d_at: int,
            t_stop: int,
            op_at: int,
            r_at: int,
            e1p: int,
            op2_at: int,
            r2_at: int,
        |
            dice_sum_prod_class_at(s@, 0, d_at, t_stop, op_at, r_at, e1p, op2_at, r2_at) implies
            !is_ws(s@[0]) by {
            if d_at == 0 {
                assert(s@[0] == 100);
            } else {
                assert(is_digit(s@[0]));
            }
        };
    }
    while p < s.len()
        invariant
            p <= s@.len(),
            forall|i: int| 0 <= i < out@.len() ==> wf_expr(#[trigger] out@[i]),
            p < s@.len() ==> !is_ws(s@[p as int]),
            out@.len() == 0 ==> forall|m: int| 0 <= m < p ==> is_ws(#[trigger] s@[m]),
            (forall|m: int| 0 <= m < s@.len() ==> is_ws(#[trigger] s@[m])) ==> out@.len() == 0,
            s@.len() > 0 && all_digits(s@) && digits_val(s@) <= i32::MAX ==> ((p == 0 && out@.len()
                == 0) || (p == s@.len() && out@.len() == 1 && out@[0] == Expr::Number(
                digits_val(s@) as i32,
            ))),
            s@.len() > 0 && all_digits(s@) && digits_val(s@) > i32::MAX ==> (p == 0 && out@.len()
                == 0),
            forall|d_at: int|
                #[trigger] dice_class_at(s@, 0, d_at) && dice_class_count(s@, 0, d_at)
                    <= i32::MAX && digits_val(s@.skip(d_at + 1)) <= i32::MAX ==> ((p == 0
                    && out@.len() == 0) || (p == s@.len() && out@.len() == 1 && dice_node_expr(
                    s@,
                    0,
                    d_at,
                    out@[0],
                ))),
            forall|d_at: int, m_at: int|
                #[trigger] dice_mod_class_at(s@, 0, d_at, m_at) && dice_mod_class_fits(
                    s@,
                    0,
                    d_at,
                    m_at,
                ) ==> ((p == 0 && out@.len() == 0) || (p == s@.len() && out@.len() == 1
                    && dice_mod_node_expr(s@, 0, d_at, m_at, out@[0]))),
            forall|o_at: int, d_at: int, end: int|
                #[trigger] rep_class_at(s@, 0, o_at, d_at, end) && rep_class_fits(
                    s@,
                    0,
                    o_at,
                    d_at,
                    end,
                ) ==> ((p == 0 && out@.len() == 0) || (p == s@.len() && out@.len() == 1
                    && rep_node_expr(s@, 0, o_at, d_at, end, out@[0]))),
            forall|d_in: int, c_at: int|
                #[trigger] nested_dice_class_at(s@, 0, d_in, c_at) && nested_dice_class_fits(
                    s@,
                    0,
                    d_in,
                    c_at,
                ) ==> ((p == 0 && out@.len() == 0) || (p == s@.len() && out@.len() == 1
                    && nested_dice_node_expr(s@, 0, d_in, c_at, out@[0]))),
            forall|d_at: int, t_stop: int, op_at: int, r_at: int|
                #[trigger] dice_sum_class_at(s@, 0, d_at, t_stop, op_at, r_at)
                    && dice_sum_class_fits(s@, 0, d_at, t_stop, op_at, r_at) ==> ((p == 0
                    && out@.len() == 0) || (p == s@.len() && out@.len() == 1
                    && dice_sum_node_expr(s@, 0, d_at, t_stop, op_at, r_at, out@[0]))),
            forall|e1: int, op_at: int, r_at: int|
                #[trigger] num_prod_class_at(s@, 0, e1, op_at, r_at) && num_prod_class_fits(
                    s@,
                    0,
                    e1,
                    op_at,
                    r_at,
                ) ==> ((p == 0 && out@.len() == 0) || (p == s@.len() && out@.len() == 1
                    && num_prod_node_expr(s@, 0, e1, op_at, r_at, out@[0]))),
            forall|d_at: int, t_stop: int, op_at: int, r_at: int, e1p: int, op2_at: int, r2_at: int|
                #[trigger] dice_sum_prod_class_at(
                    s@,
                    0,
                    d_at,
                    t_stop,
                    op_at,
                    r_at,
                    e1p,
                    op2_at,
                    r2_at,
                ) && dice_sum_prod_class_fits(s@, 0, d_at, t_stop, r_at, e1p, op2_at, r2_at) ==> ((
                p == 0 && out@.len() == 0) || (p == s@.len() && out@.len() == 1
                    && dice_sum_prod_node_expr(
                    s@,
                    0,
                    d_at,
                    t_stop,
                    op_at,
                    r_at,
                    e1p,
                    op2_at,
                    r2_at,
                    out@[0],
                ))),
        decreases s@.len() - p,
    {
        proof {
            if s@.len() > 0 && all_digits(s@) {
                assert(p == 0);
                assert(digits_to_end(s@, 0));
                assert(s@.skip(0) =~= s@);
            }
        }
        let (e, p2) = match parse_expr(s, p) {
            Ok(x) => x,
            Err(er) => {
                return Err(er);
            },
        };
        out.push(e);
        p = skip_ws(s, p2);
    }
    if out.len() == 0 {
        return Err(ParseError { pos: 0, kind: ParseErrorKind::NoExpressions });
    }
    Ok(out)
}

/// Entry handle for the dice-notation grammar.
pub struct DiceParser;

impl DiceParser {
    /// Parses one line of lowercase dice notation.
    pub fn parse(input: &str) -> (r: Result<Vec<Expr>, ParseError>)
        ensures
            r is Ok ==> r->Ok_0@.len() >= 1 && (forall|i: int|
                0 <= i < r->Ok_0@.len() ==> wf_expr(#[trigger] r->Ok_0@[i])),
            (forall|m: int| 0 <= m < input.spec_bytes().len() ==> is_ws(
                #[trigger] input.spec_bytes()[m],
            )) ==> r == Err::<Vec<Expr>, ParseError>(
                ParseError { pos: 0, kind: ParseErrorKind::NoExpressions },
            ),
            input.spec_bytes().len() > 0 && all_digits(input.spec_bytes()) ==> ({
                let v = digits_val(input.spec_bytes());
                if v <= i32::MAX {
                    &&& r is Ok
                    &&& r->Ok_0@.len() == 1
                    &&& r->Ok_0@[0] == Expr::Number(v as i32)
                } else {
                    r is Err
                }
            }),
            forall|d_at: int|
                #[trigger] dice_class_at(input.spec_bytes(), 0, d_at) && dice_class_count(
                    input.spec_bytes(),
                    0,
                    d_at,
                ) <= i32::MAX && digits_val(input.spec_bytes().skip(d_at + 1)) <= i32::MAX ==> r
                    is Ok && r->Ok_0@.len() == 1 && dice_node_expr(
                    input.spec_bytes(),
                    0,
                    d_at,
                    r->Ok_0@[0],
                ),
            forall|d_at: int, m_at: int|
                #[trigger] dice_mod_class_at(input.spec_bytes(), 0, d_at, m_at)
                    && dice_mod_class_fits(input.spec_bytes(), 0, d_at, m_at) ==> r is Ok
                    && r->Ok_0@.len() == 1 && dice_mod_node_expr(
                    input.spec_bytes(),
                    0,
                    d_at,
                    m_at,
                    r->Ok_0@[0],
                ),
            forall|o_at: int, d_at: int, end: int|
                #[trigger] rep_class_at(input.spec_bytes(), 0, o_at, d_at, end) && rep_class_fits(
                    input.spec_bytes(),
                    0,
                    o_at,
                    d_at,
                    end,
                ) ==> r is Ok && r->Ok_0@.len() == 1 && rep_node_expr(
                    input.spec_bytes(),
                    0,
                    o_at,
                    d_at,
                    end,
                    r->Ok_0@[0],
                ),
            forall|d_in: int, c_at: int|
                #[trigger] nested_dice_class_at(input.spec_bytes(), 0, d_in, c_at)
                    && nested_dice_class_fits(input.spec_bytes(), 0, d_in, c_at) ==> r is Ok
                    && r->Ok_0@.len() == 1 && nested_dice_node_expr(
                    input.spec_bytes(),
                    0,
                    d_in,
                    c_at,
                    r->Ok_0@[0],
                ),
            forall|d_at: int, t_stop: int, op_at: int, r_at: int|
                #[trigger] dice_sum_class_at(input.spec_bytes(), 0, d_at, t_stop, op_at, r_at)
                    && dice_sum_class_fits(input.spec_bytes(), 0, d_at, t_stop, op_at, r_at) ==> r
                    is Ok && r->Ok_0@.len() == 1 && dice_sum_node_expr(
                    input.spec_bytes(),
                    0,
                    d_at,
                    t_stop,
                    op_at,
                    r_at,
                    r->Ok_0@[0],
                ),
            forall|e1: int, op_at: int, r_at: int|
                #[trigger] num_prod_class_at(input.spec_bytes(), 0, e1, op_at, r_at)
                    && num_prod_class_fits(input.spec_bytes(), 0, e1, op_at, r_at) ==> r is Ok
                    && r->Ok_0@.len() == 1 && num_prod_node_expr(
                    input.spec_bytes(),
                    0,
                    e1,
                    op_at,
                    r_at,
                    r->Ok_0@[0],
                ),
            forall|d_at: int, t_stop: int, op_at: int, r_at: int, e1p: int, op2_at: int, r2_at: int|
                #[trigger] dice_sum_prod_class_at(
                    input.spec_bytes(),
                    0,
                    d_at,
                    t_stop,
                    op_at,
                    r_at,
                    e1p,
                    op2_at,
                    r2_at,
                ) && dice_sum_prod_class_fits(
                    input.spec_bytes(),
                    0,
                    d_at,
                    t_stop,
                    r_at,
                    e1p,
                    op2_at,
                    r2_at,
                ) ==> r is Ok && r->Ok_0@.len() == 1 && dice_sum_prod_node_expr(
                    input.spec_bytes(),
                    0,
                    d_at,
                    t_stop,
                    op_at,
                    r_at,
                    e1p,
                    op2_at,
                    r2_at,
                    r->Ok_0@[0],
                ),
    {
        parse_expressions(input.as_bytes())
    }
}

/// Parses one line of lowercase dice notation into its top-level
/// expression trees; every expression must parse or the whole call fails.
pub fn parse(input: &str) -> (r: Result<Vec<Expr>, ParseError>)
    ensures
        r is Ok ==> r->Ok_0@.len() >= 1 && (forall|i: int|
            0 <= i < r->Ok_0@.len() ==> wf_expr(#[trigger] r->Ok_0@[i])),
        (forall|m: int| 0 <= m < input.spec_bytes().len() ==> is_ws(
            #[trigger] input.spec_bytes()[m],
        )) ==> r == Err::<Vec<Expr>, ParseError>(
            ParseError { pos: 0, kind: ParseErrorKind::NoExpressions },
        ),
        input.spec_bytes().len() > 0 && all_digits(input.spec_bytes()) ==> ({
            let v = digits_val(input.spec_bytes());
            if v <= i32::MAX {
                &&& r is Ok
                &&& r->Ok_0@.len() == 1
                &&& r->Ok_0@[0] == Expr::Number(v as i32)
            } else {
                r is Err
            }
        }),
        forall|d_at: int|
            #[trigger] dice_class_at(input.spec_bytes(), 0, d_at) && dice_class_count(
                input.spec_bytes(),
                0,
                d_at,
            ) <= i32::MAX && digits_val(input.spec_bytes().skip(d_at + 1)) <= i32::MAX ==> r is Ok
                && r->Ok_0@.len() == 1 && dice_node_expr(input.spec_bytes(), 0, d_at, r->Ok_0@[0]),
        forall|d_at: int, m_at: int|
            #[trigger] dice_mod_class_at(input.spec_bytes(), 0, d_at, m_at) && dice_mod_class_fits(
                input.spec_bytes(),
                0,
                d_at,
                m_at,
            ) ==> r is Ok && r->Ok_0@.len() == 1 && dice_mod_node_expr(
                input.spec_bytes(),
                0,
                d_at,
                m_at,
                r->Ok_0@[0],
            ),
        forall|o_at: int, d_at: int, end: int|
            #[trigger] rep_class_at(input.spec_bytes(), 0, o_at, d_at, end) && rep_class_fits(
                input.spec_bytes(),
                0,
                o_at,
                d_at,
                end,
            ) ==> r is Ok && r->Ok_0@.len() == 1 && rep_node_expr(
                input.spec_bytes(),
                0,
                o_at,
                d_at,
                end,
                r->Ok_0@[0],
            ),
        forall|d_in: int, c_at: int|
            #[trigger] nested_dice_class_at(input.spec_bytes(), 0, d_in, c_at)
                && nested_dice_class_fits(input.spec_bytes(), 0, d_in, c_at) ==> r is Ok
                && r->Ok_0@.len() == 1 && nested_dice_node_expr(
                input.spec_bytes(),
                0,
                d_in,
                c_at,
                r->Ok_0@[0],
            ),
        forall|d_at: int, t_stop: int, op_at: int, r_at: int|
            #[trigger] dice_sum_class_at(input.spec_bytes(), 0, d_at, t_stop, op_at, r_at)
                && dice_sum_class_fits(input.spec_bytes(), 0, d_at, t_stop, op_at, r_at) ==> r
                is Ok && r->Ok_0@.len() == 1 && dice_sum_node_expr(
                input.spec_bytes(),
                0,
                d_at,
                t_stop,
                op_at,
                r_at,
                r->Ok_0@[0],
            ),
        forall|e1: int, op_at: int, r_at: int|
            #[trigger] num_prod_class_at(input.spec_bytes(), 0, e1, op_at, r_at)
                && num_prod_class_fits(input.spec_bytes(), 0, e1, op_at, r_at) ==> r is Ok
                && r->Ok_0@.len() == 1 && num_prod_node_expr(
                input.spec_bytes(),
                0,
                e1,
                op_at,
                r_at,
                r->Ok_0@[0],
            ),
        forall|d_at: int, t_stop: int, op_at: int, r_at: int, e1p: int, op2_at: int, r2_at: int|
            #[trigger] dice_sum_prod_class_at(
                input.spec_bytes(),
                0,
                d_at,
                t_stop,
                op_at,
                r_at,
                e1p,
                op2_at,
                r2_at,
            ) && dice_sum_prod_class_fits(
                input.spec_bytes(),
                0,
                d_at,
                t_stop,
                r_at,
                e1p,
                op2_at,
                r2_at,
            ) ==> r is Ok && r->Ok_0@.len() == 1 && dice_sum_prod_node_expr(
                input.spec_bytes(),
                0,
                d_at,
                t_stop,
                op_at,
                r_at,
                e1p,
                op2_at,
                r2_at,
                r->Ok_0@[0],
            ),
{
    DiceParser::parse(input)
}

} // verus!
