//! Tokens, postfix expressions, the stack-machine evaluator and the
//! infix/LaTeX renderer.

use vstd::prelude::*;

use rand::Rng;

use crate::model::number::Number;

verus! {

/// The closed vocabulary of operations an expression may contain.
/// Arity is an immutable property of the variant.
#[derive(Clone, Copy, PartialEq, Eq, Structural, Hash, Debug)]
pub enum Operation {
    Neg,
    Sqrt,
    Sum,
    Sub,
    Mul,
    Div,
    Pow,
}

impl Operation {
    /// How many operands the operation consumes.
    pub open spec fn spec_arity(self) -> nat {
        match self {
            Operation::Neg | Operation::Sqrt => 1,
            Operation::Sum | Operation::Sub | Operation::Mul | Operation::Div
            | Operation::Pow => 2,
        }
    }

    /// The number of operands the operation pops from the value stack.
    pub fn arity(&self) -> (r: usize)
        ensures
            r == self.spec_arity(),
    {
        match self {
            Operation::Neg | Operation::Sqrt => 1,
            Operation::Sum | Operation::Sub | Operation::Mul | Operation::Div
            | Operation::Pow => 2,
        }
    }

    /// The plain-text symbol that `repr` returns.
    pub open spec fn spec_repr(self) -> Seq<char> {
        match self {
            Operation::Neg => "-"@,
            Operation::Sqrt => "V"@,
            Operation::Sum => "+"@,
            Operation::Sub => "-"@,
            Operation::Mul => "*"@,
            Operation::Div => "/"@,
            Operation::Pow => "^"@,
        }
    }

    /// The symbol used in the plain infix rendering.
    pub fn repr(&self) -> (r: &'static str)
        ensures
            r@ == self.spec_repr(),
    {
        match self {
            Operation::Neg => "-",
            Operation::Sqrt => "V",
            Operation::Sum => "+",
            Operation::Sub => "-",
            Operation::Mul => "*",
            Operation::Div => "/",
            Operation::Pow => "^",
        }
    }

    /// The symbol that `latex` returns.
    pub open spec fn spec_latex(self) -> Seq<char> {
        match self {
            Operation::Neg => "-"@,
            Operation::Sqrt => "V"@,
            Operation::Sum => "+"@,
            Operation::Sub => "-"@,
            Operation::Mul => "\\cdot"@,
            Operation::Div => "/"@,
            Operation::Pow => "^"@,
        }
    }

    /// The symbol used in the LaTeX rendering, where the operation does
    /// not render as a dedicated construct.
    pub fn latex(&self) -> (r: &'static str)
        ensures
            r@ == self.spec_latex(),
    {
        match self {
            Operation::Neg => "-",
            Operation::Sqrt => "V",
            Operation::Sum => "+",
            Operation::Sub => "-",
            Operation::Mul => "\\cdot",
            Operation::Div => "/",
            Operation::Pow => "^",
        }
    }
}

/// A vocabulary element: one constant of the working domain, or one
/// operation.
///
/// Two `Constant` tokens are the same token exactly when their values
/// are equal as values of the domain; for a float-backed domain that is
/// equality of the exact representation, never a tolerance. Two
/// `Operation` tokens are the same exactly when their variants match.
#[derive(Clone, Copy)]
pub enum Token<T: Number> {
    Constant(T),
    Operation(Operation),
}

impl<T: Number> Token<T> {
    /// How many values the token pops from the stack: zero for a
    /// constant, the operation's arity otherwise.
    pub open spec fn spec_arity(self) -> nat {
        match self {
            Token::Constant(_) => 0,
            Token::Operation(op) => op.spec_arity(),
        }
    }

    /// The number of stack values the token consumes.
    pub fn arity(&self) -> (r: usize)
        ensures
            r == self.spec_arity(),
    {
        match self {
            Token::Constant(_) => 0,
            Token::Operation(op) => op.arity(),
        }
    }

    /// Whether the token introduces a constant.
    pub open spec fn is_constant(self) -> bool {
        self is Constant
    }

    /// Whether the token is the negation operation.
    pub open spec fn is_neg(self) -> bool {
        self == Token::<T>::Operation(Operation::Neg)
    }

    /// The text that `repr` returns.
    pub open spec fn spec_repr(self) -> Seq<char> {
        match self {
            Token::Constant(c) => c.spec_display(),
            Token::Operation(op) => op.spec_repr(),
        }
    }

    /// The token's own text: a constant's display form, or the
    /// operation's plain symbol.
    pub fn repr(&self) -> (r: String)
        ensures
            r@ == self.spec_repr(),
    {
        match self {
            Token::Constant(c) => c.to_latex(),
            Token::Operation(op) => owned_str(op.repr()),
        }
    }
}

/// A fresh `String` holding the given text.
fn owned_str(s: &str) -> (r: String)
    ensures
        r@ == s@,
{
    let mut r = String::new();
    r.append(s);
    r
}

/// An expression as an ordered sequence of tokens in postfix order.
pub struct Expression<T: Number> {
    tokens: Vec<Token<T>>,
}

impl<T: Number> View for Expression<T> {
    type V = Seq<Token<T>>;

    closed spec fn view(&self) -> Seq<Token<T>> {
        self.tokens@
    }
}

/// The running stack depth after the whole token sequence: cumulative
/// `+1` per constant, `+(1 - arity)` per operation.
pub open spec fn stack_depth<T: Number>(tokens: Seq<Token<T>>) -> int
    decreases tokens.len(),
{
    if tokens.len() == 0 {
        0
    } else {
        stack_depth(tokens.drop_last()) + 1 - tokens.last().spec_arity()
    }
}

/// Every token finds at least as many values on the stack as it pops:
/// the running depth never goes negative.
pub open spec fn prefixes_safe<T: Number>(tokens: Seq<Token<T>>) -> bool {
    forall|i: int|
        0 <= i < tokens.len() ==> (#[trigger] tokens[i].spec_arity()) <= stack_depth(
            tokens.take(i),
        )
}

/// The expression invariant: evaluating the sequence left to right never
/// underflows the stack and leaves exactly one value at the end.
pub open spec fn well_formed<T: Number>(tokens: Seq<Token<T>>) -> bool {
    &&& prefixes_safe(tokens)
    &&& stack_depth(tokens) == 1
}

/// What a unary operation computes from its operand.
pub open spec fn eval_unary<T: Number>(op: Operation, a: T) -> T {
    match op {
        Operation::Neg => a.spec_negated(),
        Operation::Sqrt => a.spec_sqrt(),
        _ => arbitrary(),
    }
}

/// What a binary operation computes; the left operand is the value that
/// entered the stack earlier, so source order is preserved.
pub open spec fn eval_binary<T: Number>(op: Operation, left: T, right: T) -> T {
    match op {
        Operation::Sum => left.spec_plus(right),
        Operation::Sub => left.spec_minus(right),
        Operation::Mul => left.spec_times(right),
        Operation::Div => left.spec_divided_by(right),
        Operation::Pow => left.spec_pow(right),
        _ => arbitrary(),
    }
}

/// One step of the stack machine on the value stack.
pub open spec fn step_values<T: Number>(t: Token<T>, stack: Seq<T>) -> Seq<T> {
    match t {
        Token::Constant(c) => stack.push(c),
        Token::Operation(op) => if op.spec_arity() == 1 {
            stack.drop_last().push(eval_unary(op, stack.last()))
        } else {
            stack.drop_last().drop_last().push(
                eval_binary(op, stack[stack.len() - 2], stack.last()),
            )
        },
    }
}

/// The value stack after the whole token sequence has been processed.
pub open spec fn run_values<T: Number>(tokens: Seq<Token<T>>) -> Seq<T>
    decreases tokens.len(),
{
    if tokens.len() == 0 {
        Seq::empty()
    } else {
        step_values(tokens.last(), run_values(tokens.drop_last()))
    }
}

/// The single value a well-formed token sequence reduces to.
pub open spec fn eval_tokens<T: Number>(tokens: Seq<Token<T>>) -> T
    recommends
        well_formed(tokens),
{
    run_values(tokens).last()
}

/// Restricting the sequence to a prefix keeps the depth invariant.
pub proof fn lemma_prefixes_safe_take<T: Number>(tokens: Seq<Token<T>>, n: int)
    requires
        prefixes_safe(tokens),
        0 <= n <= tokens.len(),
    ensures
        prefixes_safe(tokens.take(n)),
{
    let pre = tokens.take(n);
    assert forall|i: int|
        0 <= i < pre.len() implies (#[trigger] pre[i].spec_arity()) <= stack_depth(
        pre.take(i),
    ) by {
        assert(pre[i] == tokens[i]);
        assert(pre.take(i) =~= tokens.take(i));
    }
}

/// Processing one more token steps the value stack once.
pub proof fn lemma_run_values_snoc<T: Number>(tokens: Seq<Token<T>>, i: int)
    requires
        0 <= i < tokens.len(),
    ensures
        run_values(tokens.take(i + 1)) == step_values(tokens[i], run_values(tokens.take(i))),
{
    let pre = tokens.take(i + 1);
    assert(pre.len() == i + 1);
    assert(pre.drop_last() =~= tokens.take(i));
    assert(pre.last() == tokens[i]);
}

/// Under the depth invariant the value stack's length is exactly the
/// running depth, which in particular never goes negative: the stack
/// machine never underflows.
pub proof fn lemma_run_values_len<T: Number>(tokens: Seq<Token<T>>)
    requires
        prefixes_safe(tokens),
    ensures
        run_values(tokens).len() == stack_depth(tokens),
        stack_depth(tokens) >= 0,
    decreases tokens.len(),
{
    if tokens.len() == 0 {
    } else {
        let pre = tokens.drop_last();
        let n = tokens.len() - 1;
        assert(pre =~= tokens.take(n));
        lemma_prefixes_safe_take(tokens, n);
        lemma_run_values_len(pre);
        assert(tokens[n].spec_arity() <= stack_depth(tokens.take(n)));
        assert(tokens.last() == tokens[n]);
    }
}

/// Any well-formed expression — in particular any the generator
/// produces — runs through the evaluator without stack underflow and
/// leaves exactly one residual value.
pub proof fn lemma_well_formed_evaluates<T: Number>(tokens: Seq<Token<T>>)
    requires
        well_formed(tokens),
    ensures
        forall|i: int|
            0 <= i < tokens.len() ==> (#[trigger] tokens[i].spec_arity()) <= run_values(
                tokens.take(i),
            ).len(),
        run_values(tokens).len() == 1,
{
    lemma_run_values_len(tokens);
    assert forall|i: int|
        0 <= i < tokens.len() implies (#[trigger] tokens[i].spec_arity()) <= run_values(
        tokens.take(i),
    ).len() by {
        lemma_prefixes_safe_take(tokens, i);
        lemma_run_values_len(tokens.take(i));
    }
}

/// Failure of one generation attempt: the availability mapping left no
/// eligible token before the sequence could close, or stalled it beyond
/// any practical length. A fatal configuration error, never to be
/// retried silently.
#[derive(Clone, Copy, PartialEq, Eq, Structural, Debug)]
pub enum GenerationError {
    MalformedBudget,
}

impl GenerationError {
    /// A diagnostic for the caller that aborts the search.
    pub fn message(&self) -> (r: String)
        ensures
            r@ == "the availability mapping admits no eligible token"@,
    {
        owned_str("the availability mapping admits no eligible token")
    }
}

/// How many times the token occurs in the sequence.
pub open spec fn count_token<T: Number>(tokens: Seq<Token<T>>, t: Token<T>) -> int
    decreases tokens.len(),
{
    if tokens.len() == 0 {
        0
    } else {
        count_token(tokens.drop_last(), t) + if tokens.last() == t {
            1int
        } else {
            0int
        }
    }
}

/// An availability mapping as a list of pairs: each entry a distinct
/// token with its budget. A positive budget means usable that many
/// times, `-1` unlimited, anything else unusable.
pub open spec fn distinct_tokens<T: Number>(choices: Seq<(Token<T>, i64)>) -> bool {
    forall|k1: int, k2: int|
        0 <= k1 < k2 < choices.len() ==> (#[trigger] choices[k1]).0 != (#[trigger] choices[k2]).0
}

/// No token occurs more often than its finite budget allows.
pub open spec fn within_budget<T: Number>(
    tokens: Seq<Token<T>>,
    choices: Seq<(Token<T>, i64)>,
) -> bool {
    forall|k: int|
        0 <= k < choices.len() && (#[trigger] choices[k]).1 >= 0 ==> count_token(
            tokens,
            choices[k].0,
        ) <= choices[k].1
}

/// Every token comes from an entry that was usable at all: positive or
/// unlimited budget.
pub open spec fn drawn_from<T: Number>(
    tokens: Seq<Token<T>>,
    choices: Seq<(Token<T>, i64)>,
) -> bool {
    forall|i: int|
        0 <= i < tokens.len() ==> exists|k: int|
            0 <= k < choices.len() && (#[trigger] tokens[i]) == (#[trigger] choices[k]).0 && (
            choices[k].1 > 0 || choices[k].1 == -1)
}

/// Every constant with a finite budget occurs exactly that many times:
/// generation stops only once no constant has budget left, so stopping
/// earlier can never leave a constant unused.
pub open spec fn constants_exhausted<T: Number>(
    tokens: Seq<Token<T>>,
    choices: Seq<(Token<T>, i64)>,
) -> bool {
    forall|k: int|
        0 <= k < choices.len() && (#[trigger] choices[k]).0.is_constant() && choices[k].1
            >= 0 ==> count_token(tokens, choices[k].0) == choices[k].1
}

/// Negation never immediately follows negation.
pub open spec fn no_double_neg<T: Number>(tokens: Seq<Token<T>>) -> bool {
    forall|i: int|
        0 < i < tokens.len() ==> !((#[trigger] tokens[i]).is_neg() && tokens[i - 1].is_neg())
}

/// A count is never negative.
proof fn lemma_count_token_nonneg<T: Number>(tokens: Seq<Token<T>>, t: Token<T>)
    ensures
        count_token(tokens, t) >= 0,
    decreases tokens.len(),
{
    if tokens.len() > 0 {
        lemma_count_token_nonneg(tokens.drop_last(), t);
    }
}

/// Appending one token raises exactly that token's count by one.
proof fn lemma_count_token_push<T: Number>(tokens: Seq<Token<T>>, x: Token<T>, t: Token<T>)
    ensures
        count_token(tokens.push(x), t) == count_token(tokens, t) + if x == t {
            1int
        } else {
            0int
        },
{
    assert(tokens.push(x).drop_last() =~= tokens);
}

/// The running depth can rise by at most one per token.
proof fn lemma_stack_depth_le_len<T: Number>(tokens: Seq<Token<T>>)
    ensures
        stack_depth(tokens) <= tokens.len(),
    decreases tokens.len(),
{
    if tokens.len() > 0 {
        lemma_stack_depth_le_len(tokens.drop_last());
    }
}

/// Emitting one eligible token keeps every property the generator
/// maintains: the depth invariant, the draw and adjacency rules, and
/// the per-entry counts (only the drawn entry's count rises).
proof fn lemma_generator_push<T: Number>(
    tokens: Seq<Token<T>>,
    choices: Seq<(Token<T>, i64)>,
    j: int,
)
    requires
        distinct_tokens(choices),
        prefixes_safe(tokens),
        drawn_from(tokens, choices),
        no_double_neg(tokens),
        0 <= j < choices.len(),
        choices[j].0.spec_arity() <= stack_depth(tokens),
        if choices[j].1 >= 0 {
            count_token(tokens, choices[j].0) < choices[j].1
        } else {
            choices[j].1 == -1
        },
        !(tokens.len() > 0 && tokens.last().is_neg() && choices[j].0.is_neg()),
    ensures
        prefixes_safe(tokens.push(choices[j].0)),
        stack_depth(tokens.push(choices[j].0)) == stack_depth(tokens) + 1
            - choices[j].0.spec_arity(),
        drawn_from(tokens.push(choices[j].0), choices),
        no_double_neg(tokens.push(choices[j].0)),
        forall|k: int|
            0 <= k < choices.len() ==> count_token(
                tokens.push(choices[j].0),
                (#[trigger] choices[k]).0,
            ) == count_token(tokens, choices[k].0) + if k == j {
                1int
            } else {
                0int
            },
{
    let t = choices[j].0;
    let pushed = tokens.push(t);
    assert(pushed.drop_last() =~= tokens);
    assert forall|i: int|
        0 <= i < pushed.len() implies (#[trigger] pushed[i].spec_arity()) <= stack_depth(
        pushed.take(i),
    ) by {
        if i < tokens.len() {
            assert(pushed[i] == tokens[i]);
            assert(pushed.take(i) =~= tokens.take(i));
        } else {
            assert(pushed.take(i) =~= tokens);
        }
    }
    assert forall|k: int|
        0 <= k < choices.len() implies count_token(pushed, (#[trigger] choices[k]).0)
        == count_token(tokens, choices[k].0) + if k == j {
        1int
    } else {
        0int
    } by {
        lemma_count_token_push(tokens, t, choices[k].0);
        if k != j {
            assert(choices[k].0 != t);
        }
    }
    assert forall|i: int| 0 <= i < pushed.len() implies exists|k: int|
        0 <= k < choices.len() && (#[trigger] pushed[i]) == (#[trigger] choices[k]).0 && (
        choices[k].1 > 0 || choices[k].1 == -1) by {
        if i < tokens.len() {
            assert(pushed[i] == tokens[i]);
        } else {
            assert(pushed[i] == t);
            if choices[j].1 >= 0 {
                lemma_count_token_nonneg(tokens, t);
            }
            assert(0 <= j < choices.len() && pushed[i] == choices[j].0 && (choices[j].1 > 0
                || choices[j].1 == -1));
        }
    }
}

/// Whether any constant entry still has positive budget left.
fn any_constant_left<T: Number>(choices: &Vec<(Token<T>, i64)>, remaining: &Vec<i64>) -> (r: bool)
    requires
        remaining@.len() == choices@.len(),
    ensures
        r == exists|k: int|
            0 <= k < choices@.len() && (#[trigger] choices@[k]).0.is_constant() && remaining@[k]
                > 0,
{
    let n = choices.len();
    let mut k: usize = 0;
    while k < n
        invariant
            n == choices@.len(),
            remaining@.len() == n,
            0 <= k <= n,
            forall|j: int|
                0 <= j < k ==> !((#[trigger] choices@[j]).0.is_constant() && remaining@[j] > 0),
        decreases n - k,
    {
        let is_const = matches!(choices[k].0, Token::Constant(_));
        if is_const && remaining[k] > 0 {
            return true;
        }
        k = k + 1;
    }
    false
}

/// The indices of the tokens eligible for the next draw — exactly those
/// with budget left (positive or unlimited), arity within the current
/// stack depth, and never negation straight after negation.
fn eligible_indices<T: Number>(
    choices: &Vec<(Token<T>, i64)>,
    remaining: &Vec<i64>,
    depth: usize,
    last_was_neg: bool,
) -> (r: Vec<usize>)
    requires
        remaining@.len() == choices@.len(),
    ensures
        forall|idx: int| 0 <= idx < r@.len() ==> 0 <= #[trigger] r@[idx] < choices@.len(),
        forall|idx: int|
            0 <= idx < r@.len() ==> (remaining@[#[trigger] r@[idx] as int] > 0 || remaining@[r@[
                idx] as int] == -1),
        forall|idx: int|
            0 <= idx < r@.len() ==> (#[trigger] choices@[r@[idx] as int]).0.spec_arity() <= depth,
        forall|idx: int|
            0 <= idx < r@.len() ==> !(last_was_neg && (#[trigger] choices@[r@[
                idx] as int]).0.is_neg()),
        forall|k: int|
            0 <= k < choices@.len() && (remaining@[k] > 0 || remaining@[k] == -1) && (
            #[trigger] choices@[k]).0.spec_arity() <= depth && !(last_was_neg
                && choices@[k].0.is_neg()) ==> exists|idx: int|
                0 <= idx < r@.len() && r@[idx] == k as usize,
{
    let n = choices.len();
    let mut eligible: Vec<usize> = Vec::new();
    let mut k: usize = 0;
    while k < n
        invariant
            n == choices@.len(),
            remaining@.len() == n,
            0 <= k <= n,
            forall|idx: int|
                0 <= idx < eligible@.len() ==> 0 <= #[trigger] eligible@[idx] < choices@.len(),
            forall|idx: int|
                0 <= idx < eligible@.len() ==> (remaining@[#[trigger] eligible@[idx] as int] > 0
                    || remaining@[eligible@[idx] as int] == -1),
            forall|idx: int|
                0 <= idx < eligible@.len() ==> (#[trigger] choices@[eligible@[
                    idx] as int]).0.spec_arity() <= depth,
            forall|idx: int|
                0 <= idx < eligible@.len() ==> !(last_was_neg && (#[trigger] choices@[eligible@[
                    idx] as int]).0.is_neg()),
            forall|j: int|
                0 <= j < k && (remaining@[j] > 0 || remaining@[j] == -1) && (
                #[trigger] choices@[j]).0.spec_arity() <= depth && !(last_was_neg
                    && choices@[j].0.is_neg()) ==> exists|idx: int|
                    0 <= idx < eligible@.len() && eligible@[idx] == j as usize,
        decreases n - k,
    {
        let usable = remaining[k] > 0 || remaining[k] == -1;
        let fits = choices[k].0.arity() <= depth;
        let is_neg_tok = matches!(choices[k].0, Token::Operation(Operation::Neg));
        if usable && fits && !(last_was_neg && is_neg_tok) {
            let ghost before = eligible@;
            eligible.push(k);
            proof {
                assert forall|j: int|
                    0 <= j < k + 1 && (remaining@[j] > 0 || remaining@[j] == -1) && (
                    #[trigger] choices@[j]).0.spec_arity() <= depth && !(last_was_neg
                        && choices@[j].0.is_neg()) implies exists|idx: int|
                    0 <= idx < eligible@.len() && eligible@[idx] == j as usize by {
                    if j == k {
                        assert(eligible@[eligible@.len() - 1] == j as usize);
                    } else {
                        let idx = choose|idx: int|
                            0 <= idx < before.len() && before[idx] == j as usize;
                        assert(eligible@[idx] == j as usize);
                    }
                }
            }
        }
        k = k + 1;
    }
    eligible
}

/// Relies on rand::Rng::random_range over `0..n`: a uniformly random
/// index below `n`. The call panics only on an empty range, which the
/// precondition excludes; nothing more can be promised of a random
/// draw.
#[verifier::external_body]
fn random_index(n: usize) -> (r: usize)
    requires
        n > 0,
    ensures
        r < n,
{
    rand::rng().random_range(0..n)
}

impl<T: Number> Expression<T> {
    /// Builds one random expression under the availability mapping:
    /// every token drawn respects its remaining budget, the running
    /// stack depth never goes negative and ends at exactly one, and
    /// negation is never emitted twice in a row. The draw at each step
    /// is uniform among the eligible tokens; repeated calls on the same
    /// (unmutated) mapping give independently random expressions. An
    /// error means the mapping left no eligible token before the
    /// sequence could close — in particular, a mapping with no usable
    /// constant at all fails at once, before any draw.
    #[verifier::rlimit(50)]
    pub fn random(choices: &Vec<(Token<T>, i64)>) -> (r: Result<Self, GenerationError>)
        requires
            distinct_tokens(choices@),
        ensures
            r matches Ok(e) ==> {
                &&& well_formed(e@)
                &&& within_budget(e@, choices@)
                &&& constants_exhausted(e@, choices@)
                &&& drawn_from(e@, choices@)
                &&& no_double_neg(e@)
            },
            (forall|k: int|
                0 <= k < choices@.len() ==> !((#[trigger] choices@[k]).0.is_constant() && (
                choices@[k].1 > 0 || choices@[k].1 == -1))) ==> r is Err,
    {
        let n = choices.len();
        let mut tokens: Vec<Token<T>> = Vec::new();
        let mut remaining: Vec<i64> = Vec::new();
        let mut k: usize = 0;
        while k < n
            invariant
                n == choices@.len(),
                0 <= k <= n,
                remaining@.len() == k,
                forall|j: int| 0 <= j < k ==> remaining@[j] == (#[trigger] choices@[j]).1,
            decreases n - k,
        {
            remaining.push(choices[k].1);
            k = k + 1;
        }
        let mut depth: usize = 0;
        // A step counter no practical run can exhaust; it guards the
        // stall an infeasible mapping would otherwise spin on.
        let mut fuel: usize = usize::MAX;
        loop
            invariant
                n == choices@.len(),
                remaining@.len() == n,
                distinct_tokens(choices@),
                forall|j: int|
                    0 <= j < n && (#[trigger] choices@[j]).1 >= 0 ==> remaining@[j] == choices@[
                        j].1 - count_token(tokens@, choices@[j].0) && remaining@[j] >= 0,
                forall|j: int|
                    0 <= j < n && (#[trigger] choices@[j]).1 < 0 ==> remaining@[j] == choices@[
                        j].1,
                prefixes_safe(tokens@),
                depth == stack_depth(tokens@),
                drawn_from(tokens@, choices@),
                no_double_neg(tokens@),
            ensures
                well_formed(tokens@),
                within_budget(tokens@, choices@),
                constants_exhausted(tokens@, choices@),
                drawn_from(tokens@, choices@),
                no_double_neg(tokens@),
            decreases fuel,
        {
            // Termination: all constants introduced and the sequence balanced.
            if !any_constant_left(choices, &remaining) && depth == 1 {
                proof {
                    assert forall|k: int|
                        0 <= k < choices@.len() && (#[trigger] choices@[k]).1
                            >= 0 implies count_token(tokens@, choices@[k].0) <= choices@[k].1 by {
                        assert(remaining@[k] >= 0);
                    }
                    assert forall|k: int|
                        0 <= k < choices@.len() && (#[trigger] choices@[k]).0.is_constant()
                            && choices@[k].1 >= 0 implies count_token(tokens@, choices@[k].0)
                        == choices@[k].1 by {
                        assert(!(choices@[k].0.is_constant() && remaining@[k] > 0));
                        assert(remaining@[k] >= 0);
                    }
                }
                break;
            }
            if fuel == 0 {
                return Err(GenerationError::MalformedBudget);
            }
            fuel = fuel - 1;
            let last_was_neg = if tokens.len() > 0 {
                matches!(tokens[tokens.len() - 1], Token::Operation(Operation::Neg))
            } else {
                false
            };
            proof {
                assert(last_was_neg == (tokens@.len() > 0 && tokens@.last().is_neg()));
            }
            let eligible = eligible_indices(choices, &remaining, depth, last_was_neg);
            if eligible.len() == 0 {
                return Err(GenerationError::MalformedBudget);
            }
            let j = eligible[random_index(eligible.len())];
            let t = choices[j].0;
            let a = t.arity();
            proof {
                lemma_stack_depth_le_len(tokens@);
                lemma_generator_push(tokens@, choices@, j as int);
            }
            tokens.push(t);
            // The new length bounds the new depth, so the update fits.
            let grown = tokens.len();
            proof {
                assert(depth + 1 - a <= grown);
            }
            depth = depth - a + 1;
            if remaining[j] > 0 {
                let rj = remaining[j];
                remaining[j] = rj - 1;
            }
        }
        proof {
            // A sequence closed at depth one opens with a constant, and
            // every token was drawn from a usable entry: success implies
            // the mapping held a usable constant.
            if forall|k: int|
                0 <= k < choices@.len() ==> !((#[trigger] choices@[k]).0.is_constant() && (
                choices@[k].1 > 0 || choices@[k].1 == -1)) {
                assert(stack_depth(Seq::<Token<T>>::empty()) == 0);
                assert(tokens@.len() > 0);
                assert(tokens@.take(0int) =~= Seq::<Token<T>>::empty());
                assert(tokens@[0].spec_arity() <= stack_depth(tokens@.take(0int)));
                assert(tokens@[0].is_constant()) by {
                    match tokens@[0] {
                        Token::Constant(_) => {},
                        Token::Operation(op) => {
                            assert(op.spec_arity() >= 1);
                        },
                    }
                }
                assert(false);
            }
        }
        Ok(Expression { tokens })
    }

    /// Wraps an already-built postfix token sequence.
    pub fn new(tokens: Vec<Token<T>>) -> (r: Self)
        ensures
            r@ == tokens@,
    {
        Expression { tokens }
    }

    /// The token sequence itself, in postfix order.
    pub fn tokens(&self) -> (r: &Vec<Token<T>>)
        ensures
            r@ == self@,
    {
        &self.tokens
    }

    /// Reduces the expression to a single value with one left-to-right
    /// pass of the stack machine: a constant pushes its value, an
    /// operation pops its arity and pushes its result, the earlier-pushed
    /// value serving as the left operand.
    #[verifier::rlimit(100)]
    pub fn calculate(&self) -> (r: T)
        requires
            well_formed(self@),
        ensures
            r == eval_tokens(self@),
    {
        let mut stack: Vec<T> = Vec::new();
        let n = self.tokens.len();
        let mut i: usize = 0;
        while i < n
            invariant
                well_formed(self@),
                n == self@.len(),
                0 <= i <= n,
                stack@ == run_values(self@.take(i as int)),
            decreases n - i,
        {
            proof {
                lemma_prefixes_safe_take(self@, i as int);
                lemma_run_values_len(self@.take(i as int));
                lemma_run_values_snoc(self@, i as int);
                assert(self@[i as int].spec_arity() <= stack_depth(self@.take(i as int)));
            }
            let t = self.tokens[i];
            match t {
                Token::Constant(c) => {
                    stack.push(c);
                },
                Token::Operation(op) => {
                    match op {
                        Operation::Neg => {
                            let a = stack.pop().unwrap();
                            stack.push(a.negated());
                        },
                        Operation::Sqrt => {
                            let a = stack.pop().unwrap();
                            stack.push(a.sqrt());
                        },
                        Operation::Sum => {
                            let a = stack.pop().unwrap();
                            let b = stack.pop().unwrap();
                            proof {
                                assert(stack@ =~= run_values(
                                    self@.take(i as int),
                                ).drop_last().drop_last());
                            }
                            stack.push(b.plus(a));
                        },
                        Operation::Sub => {
                            let a = stack.pop().unwrap();
                            let b = stack.pop().unwrap();
                            proof {
                                assert(stack@ =~= run_values(
                                    self@.take(i as int),
                                ).drop_last().drop_last());
                            }
                            stack.push(b.minus(a));
                        },
                        Operation::Mul => {
                            let a = stack.pop().unwrap();
                            let b = stack.pop().unwrap();
                            proof {
                                assert(stack@ =~= run_values(
                                    self@.take(i as int),
                                ).drop_last().drop_last());
                            }
                            stack.push(b.times(a));
                        },
                        Operation::Div => {
                            let a = stack.pop().unwrap();
                            let b = stack.pop().unwrap();
                            proof {
                                assert(stack@ =~= run_values(
                                    self@.take(i as int),
                                ).drop_last().drop_last());
                            }
                            stack.push(b.divided_by(a));
                        },
                        Operation::Pow => {
                            let a = stack.pop().unwrap();
                            let b = stack.pop().unwrap();
                            proof {
                                assert(stack@ =~= run_values(
                                    self@.take(i as int),
                                ).drop_last().drop_last());
                            }
                            stack.push(b.pow(&a));
                        },
                    }
                },
            }
            i = i + 1;
        }
        proof {
            assert(self@.take(n as int) =~= self@);
            lemma_run_values_len(self@);
        }
        stack[stack.len() - 1]
    }
}

/// An expression as a tree, mirroring a postfix sequence for rendering
/// only: a leaf holds a constant, a unary node one child, a binary node
/// two children in source order: the operand that entered the stack
/// earlier is the left child.
pub enum InfixExpression<T: Number> {
    Constant(T),
    Unary(Operation, Box<InfixExpression<T>>),
    Binary(Operation, Box<InfixExpression<T>>, Box<InfixExpression<T>>),
}

impl<T: Number> InfixExpression<T> {
    /// Every unary node holds a unary operation and every binary node a
    /// binary one — true of any tree built from a postfix sequence.
    pub open spec fn tree_wf(self) -> bool
        decreases self,
    {
        match self {
            InfixExpression::Constant(_) => true,
            InfixExpression::Unary(op, a) => op.spec_arity() == 1 && a.tree_wf(),
            InfixExpression::Binary(op, a, b) => op.spec_arity() == 2 && a.tree_wf()
                && b.tree_wf(),
        }
    }

    /// The grouping rule of the LaTeX form: a node reads unambiguously
    /// without parentheses exactly when it is a constant, a radical, a
    /// fraction or a superscript.
    pub open spec fn spec_needs_parentheses(self) -> bool {
        match self {
            InfixExpression::Constant(_) => false,
            InfixExpression::Unary(op, _) => op != Operation::Sqrt,
            InfixExpression::Binary(op, _, _) => op != Operation::Div && op != Operation::Pow,
        }
    }

    /// Whether this node, rendered to LaTeX, would need grouping when
    /// placed under an operator.
    pub fn needs_parentheses(&self) -> (r: bool)
        ensures
            r == self.spec_needs_parentheses(),
    {
        !matches!(
            self,
            InfixExpression::Constant(_) | InfixExpression::Unary(Operation::Sqrt, _)
            | InfixExpression::Binary(Operation::Div | Operation::Pow, _, _)
        )
    }

    /// Whether this node groups its operands at all: a radical, a
    /// fraction or a superscript never does, its visual form already
    /// disambiguates.
    pub open spec fn spec_needs_arg_parentheses(self) -> bool {
        match self {
            InfixExpression::Constant(_) => true,
            InfixExpression::Unary(op, _) => op != Operation::Sqrt,
            InfixExpression::Binary(op, _, _) => op != Operation::Div && op != Operation::Pow,
        }
    }

    /// Whether this node's LaTeX form parenthesizes operands that need
    /// grouping.
    pub fn needs_arg_parentheses(&self) -> (r: bool)
        ensures
            r == self.spec_needs_arg_parentheses(),
    {
        !matches!(
            self,
            InfixExpression::Unary(Operation::Sqrt, _) | InfixExpression::Binary(
                Operation::Div | Operation::Pow,
                _,
                _,
            )
        )
    }

    /// The plain infix text that `to_string` returns.
    pub open spec fn spec_string(self) -> Seq<char>
        decreases self,
    {
        match self {
            InfixExpression::Constant(c) => c.spec_display(),
            InfixExpression::Unary(op, a) => if *a is Constant {
                op.spec_repr() + a.spec_string()
            } else {
                op.spec_repr() + "("@ + a.spec_string() + ")"@
            },
            InfixExpression::Binary(op, a, b) => {
                let left = if *a is Constant {
                    a.spec_string()
                } else {
                    "("@ + a.spec_string() + ")"@
                };
                let right = if *b is Constant {
                    b.spec_string()
                } else {
                    "("@ + b.spec_string() + ")"@
                };
                left + " "@ + op.spec_repr() + " "@ + right
            },
        }
    }

    /// Renders the plain infix form: a unary operator prefixes its
    /// argument, parenthesizing it only when it is not a bare constant;
    /// a binary operator separates its operands with spaces, each
    /// parenthesized unless a bare constant.
    pub fn to_string(&self) -> (r: String)
        ensures
            r@ == self.spec_string(),
        decreases *self,
    {
        match self {
            InfixExpression::Constant(c) => c.to_latex(),
            InfixExpression::Unary(op, a) => {
                let mut s = owned_str(op.repr());
                if matches!(&**a, InfixExpression::Constant(_)) {
                    let inner = a.to_string();
                    s.append(inner.as_str());
                } else {
                    s.append("(");
                    let inner = a.to_string();
                    s.append(inner.as_str());
                    s.append(")");
                }
                proof {
                    assert(s@ =~= self.spec_string());
                }
                s
            },
            InfixExpression::Binary(op, a, b) => {
                let mut s = String::new();
                if matches!(&**a, InfixExpression::Constant(_)) {
                    let left = a.to_string();
                    s.append(left.as_str());
                } else {
                    s.append("(");
                    let left = a.to_string();
                    s.append(left.as_str());
                    s.append(")");
                }
                s.append(" ");
                s.append(op.repr());
                s.append(" ");
                if matches!(&**b, InfixExpression::Constant(_)) {
                    let right = b.to_string();
                    s.append(right.as_str());
                } else {
                    s.append("(");
                    let right = b.to_string();
                    s.append(right.as_str());
                    s.append(")");
                }
                proof {
                    assert(s@ =~= self.spec_string());
                }
                s
            },
        }
    }

    /// The LaTeX text that `to_latex` returns.
    pub open spec fn spec_latex(self) -> Seq<char>
        recommends
            self.tree_wf(),
        decreases self,
    {
        match self {
            InfixExpression::Constant(c) => c.spec_display(),
            InfixExpression::Unary(op, a) => if op == Operation::Neg {
                if a.spec_needs_parentheses() {
                    "-("@ + a.spec_latex() + ")"@
                } else {
                    "-"@ + a.spec_latex()
                }
            } else {
                "\\sqrt{"@ + a.spec_latex() + "}"@
            },
            InfixExpression::Binary(op, a, b) => {
                let group = self.spec_needs_arg_parentheses();
                let left = if a.spec_needs_parentheses() && group {
                    "("@ + a.spec_latex() + ")"@
                } else {
                    a.spec_latex()
                };
                let right = if b.spec_needs_parentheses() && group {
                    "("@ + b.spec_latex() + ")"@
                } else {
                    b.spec_latex()
                };
                if op == Operation::Div {
                    "\\frac{"@ + left + "}{"@ + right + "}"@
                } else if op == Operation::Pow {
                    "{"@ + left + "}^{"@ + right + "}"@
                } else {
                    left + " "@ + op.spec_latex() + " "@ + right
                }
            },
        }
    }

    /// Renders the LaTeX form: negation groups its argument only when
    /// the argument alone would need grouping, a square root always
    /// renders as a radical, division as a fraction and power as a
    /// superscript — none of those ever parenthesized — and every other
    /// binary operator groups exactly the operands that need it.
    pub fn to_latex(&self) -> (r: String)
        requires
            self.tree_wf(),
        ensures
            r@ == self.spec_latex(),
        decreases *self,
    {
        match self {
            InfixExpression::Constant(c) => c.to_latex(),
            InfixExpression::Unary(op, a) => {
                match op {
                    Operation::Neg => {
                        let mut s = String::new();
                        if a.needs_parentheses() {
                            s.append("-(");
                            let inner = a.to_latex();
                            s.append(inner.as_str());
                            s.append(")");
                        } else {
                            s.append("-");
                            let inner = a.to_latex();
                            s.append(inner.as_str());
                        }
                        proof {
                            assert(s@ =~= self.spec_latex());
                        }
                        s
                    },
                    Operation::Sqrt => {
                        let mut s = String::new();
                        s.append("\\sqrt{");
                        let inner = a.to_latex();
                        s.append(inner.as_str());
                        s.append("}");
                        proof {
                            assert(s@ =~= self.spec_latex());
                        }
                        s
                    },
                    _ => unreached(),
                }
            },
            InfixExpression::Binary(op, a, b) => {
                let group = self.needs_arg_parentheses();
                let mut left = String::new();
                if a.needs_parentheses() && group {
                    left.append("(");
                    let inner = a.to_latex();
                    left.append(inner.as_str());
                    left.append(")");
                } else {
                    let inner = a.to_latex();
                    left.append(inner.as_str());
                }
                let mut right = String::new();
                if b.needs_parentheses() && group {
                    right.append("(");
                    let inner = b.to_latex();
                    right.append(inner.as_str());
                    right.append(")");
                } else {
                    let inner = b.to_latex();
                    right.append(inner.as_str());
                }
                let mut s = String::new();
                match op {
                    Operation::Div => {
                        s.append("\\frac{");
                        s.append(left.as_str());
                        s.append("}{");
                        s.append(right.as_str());
                        s.append("}");
                    },
                    Operation::Pow => {
                        s.append("{");
                        s.append(left.as_str());
                        s.append("}^{");
                        s.append(right.as_str());
                        s.append("}");
                    },
                    _ => {
                        s.append(left.as_str());
                        s.append(" ");
                        s.append(op.latex());
                        s.append(" ");
                        s.append(right.as_str());
                    },
                }
                proof {
                    assert(s@ =~= self.spec_latex());
                }
                s
            },
        }
    }
}

/// One step of the stack machine on the tree stack.
pub open spec fn step_trees<T: Number>(
    t: Token<T>,
    stack: Seq<InfixExpression<T>>,
) -> Seq<InfixExpression<T>> {
    match t {
        Token::Constant(c) => stack.push(InfixExpression::Constant(c)),
        Token::Operation(op) => if op.spec_arity() == 1 {
            stack.drop_last().push(InfixExpression::Unary(op, Box::new(stack.last())))
        } else {
            stack.drop_last().drop_last().push(
                InfixExpression::Binary(
                    op,
                    Box::new(stack[stack.len() - 2]),
                    Box::new(stack.last()),
                ),
            )
        },
    }
}

/// The tree stack after the whole token sequence has been processed.
pub open spec fn run_trees<T: Number>(tokens: Seq<Token<T>>) -> Seq<InfixExpression<T>>
    decreases tokens.len(),
{
    if tokens.len() == 0 {
        Seq::empty()
    } else {
        step_trees(tokens.last(), run_trees(tokens.drop_last()))
    }
}

/// The tree a well-formed token sequence reduces to.
pub open spec fn infix_of<T: Number>(tokens: Seq<Token<T>>) -> InfixExpression<T>
    recommends
        well_formed(tokens),
{
    run_trees(tokens).last()
}

/// Processing one more token steps the tree stack once.
pub proof fn lemma_run_trees_snoc<T: Number>(tokens: Seq<Token<T>>, i: int)
    requires
        0 <= i < tokens.len(),
    ensures
        run_trees(tokens.take(i + 1)) == step_trees(tokens[i], run_trees(tokens.take(i))),
{
    let pre = tokens.take(i + 1);
    assert(pre.len() == i + 1);
    assert(pre.drop_last() =~= tokens.take(i));
    assert(pre.last() == tokens[i]);
}

/// Under the depth invariant the tree stack's length is exactly the
/// running depth.
pub proof fn lemma_run_trees_len<T: Number>(tokens: Seq<Token<T>>)
    requires
        prefixes_safe(tokens),
    ensures
        run_trees(tokens).len() == stack_depth(tokens),
        stack_depth(tokens) >= 0,
    decreases tokens.len(),
{
    if tokens.len() == 0 {
    } else {
        let pre = tokens.drop_last();
        let n = tokens.len() - 1;
        assert(pre =~= tokens.take(n));
        lemma_prefixes_safe_take(tokens, n);
        lemma_run_trees_len(pre);
        assert(tokens[n].spec_arity() <= stack_depth(tokens.take(n)));
        assert(tokens.last() == tokens[n]);
    }
}

/// The value an expression tree denotes: constants stand for themselves,
/// each node applies its operation to its children, the left child
/// first.
pub open spec fn eval_infix<T: Number>(e: InfixExpression<T>) -> T
    decreases e,
{
    match e {
        InfixExpression::Constant(c) => c,
        InfixExpression::Unary(op, a) => eval_unary(op, eval_infix(*a)),
        InfixExpression::Binary(op, a, b) => eval_binary(op, eval_infix(*a), eval_infix(*b)),
    }
}

/// The tree stack always denotes the value stack, node by node.
proof fn lemma_trees_denote_values<T: Number>(tokens: Seq<Token<T>>)
    requires
        prefixes_safe(tokens),
    ensures
        run_values(tokens) =~= run_trees(tokens).map_values(|e: InfixExpression<T>| eval_infix(e)),
    decreases tokens.len(),
{
    if tokens.len() == 0 {
    } else {
        let pre = tokens.drop_last();
        let n = tokens.len() - 1;
        assert(pre =~= tokens.take(n));
        lemma_prefixes_safe_take(tokens, n);
        lemma_trees_denote_values(pre);
        lemma_run_values_len(pre);
        lemma_run_trees_len(pre);
        assert(tokens[n].spec_arity() <= stack_depth(tokens.take(n)));
        assert(tokens.last() == tokens[n]);
        let vs = run_values(pre);
        let ts = run_trees(pre);
        let denote = |e: InfixExpression<T>| eval_infix(e);
        assert(vs =~= ts.map_values(denote));
        match tokens[n] {
            Token::Constant(_) => {},
            Token::Operation(op) => {
                if op.spec_arity() == 1 {
                    assert(vs.last() == denote(ts.last()));
                    assert(vs.drop_last() =~= ts.drop_last().map_values(denote));
                } else {
                    assert(vs.last() == denote(ts.last()));
                    assert(vs[vs.len() - 2] == denote(ts[ts.len() - 2]));
                    assert(vs.drop_last().drop_last() =~= ts.drop_last().drop_last().map_values(
                        denote,
                    ));
                }
            },
        }
    }
}

/// The rendering tree carries no semantics of its own: for a well-formed
/// token sequence, the value its tree denotes is exactly the value the
/// stack machine computes from the sequence.
pub proof fn lemma_infix_preserves_value<T: Number>(tokens: Seq<Token<T>>)
    requires
        well_formed(tokens),
    ensures
        eval_infix(infix_of(tokens)) == eval_tokens(tokens),
{
    lemma_trees_denote_values(tokens);
    lemma_run_values_len(tokens);
    lemma_run_trees_len(tokens);
    assert(run_values(tokens).last() == eval_infix(run_trees(tokens).last()));
}

impl<T: Number> Expression<T> {
    /// Converts the postfix sequence to its rendering tree with the same
    /// stack reduction as evaluation, pushing and popping tree nodes in
    /// place of values; it carries no semantics of its own.
    #[verifier::rlimit(50)]
    pub fn to_infix(&self) -> (r: InfixExpression<T>)
        requires
            well_formed(self@),
        ensures
            r == infix_of(self@),
            r.tree_wf(),
    {
        let mut stack: Vec<InfixExpression<T>> = Vec::new();
        let n = self.tokens.len();
        let mut i: usize = 0;
        while i < n
            invariant
                well_formed(self@),
                n == self@.len(),
                0 <= i <= n,
                stack@ == run_trees(self@.take(i as int)),
                forall|k: int| 0 <= k < stack@.len() ==> (#[trigger] stack@[k]).tree_wf(),
            decreases n - i,
        {
            proof {
                lemma_prefixes_safe_take(self@, i as int);
                lemma_run_trees_len(self@.take(i as int));
                lemma_run_trees_snoc(self@, i as int);
                assert(self@[i as int].spec_arity() <= stack_depth(self@.take(i as int)));
            }
            let t = self.tokens[i];
            match t {
                Token::Constant(c) => {
                    stack.push(InfixExpression::Constant(c));
                },
                Token::Operation(op) => {
                    if op.arity() == 1 {
                        let a = stack.pop().unwrap();
                        stack.push(InfixExpression::Unary(op, Box::new(a)));
                    } else {
                        let a = stack.pop().unwrap();
                        let b = stack.pop().unwrap();
                        proof {
                            assert(stack@ =~= run_trees(
                                self@.take(i as int),
                            ).drop_last().drop_last());
                        }
                        stack.push(InfixExpression::Binary(op, Box::new(b), Box::new(a)));
                    }
                },
            }
            i = i + 1;
        }
        proof {
            assert(self@.take(n as int) =~= self@);
            lemma_run_trees_len(self@);
        }
        let r = stack.pop().unwrap();
        r
    }

    /// The expression's own postfix text: each token's text, separated
    /// by single spaces.
    pub fn repr(&self) -> (r: String)
        ensures
            r@ == spec_tokens_repr(self@),
    {
        let mut s = String::new();
        let n = self.tokens.len();
        let mut i: usize = 0;
        while i < n
            invariant
                n == self@.len(),
                0 <= i <= n,
                s@ == spec_tokens_repr(self@.take(i as int)),
            decreases n - i,
        {
            if i > 0 {
                s.append(" ");
            }
            let t = self.tokens[i].repr();
            s.append(t.as_str());
            proof {
                let pre = self@.take(i + 1);
                assert(pre.drop_last() =~= self@.take(i as int));
                assert(pre.last() == self@[i as int]);
                assert(s@ =~= spec_tokens_repr(self@.take(i + 1)));
            }
            i = i + 1;
        }
        proof {
            assert(self@.take(n as int) =~= self@);
        }
        s
    }
}

/// The postfix text of a token sequence: token texts joined by single
/// spaces.
pub open spec fn spec_tokens_repr<T: Number>(tokens: Seq<Token<T>>) -> Seq<char>
    decreases tokens.len(),
{
    if tokens.len() == 0 {
        Seq::empty()
    } else if tokens.len() == 1 {
        tokens[0].spec_repr()
    } else {
        spec_tokens_repr(tokens.drop_last()) + " "@ + tokens.last().spec_repr()
    }
}

} // verus!
