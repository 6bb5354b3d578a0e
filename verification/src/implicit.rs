//! Writing out the operations that an expression leaves implicit: products such as `2x` and
//! `3(x+1)`, and negations such as a leading `-x` or `*-x`.
use vstd::prelude::*;
use crate::token::{Token, TokenCategory, token_views};
use crate::tree::text_is;

verus! {

/// The view of a token: its category and its text.
pub type TokenView = (TokenCategory, Seq<char>);

/// The `*` that a juxtaposition stands for.
pub open spec fn star_view() -> TokenView {
    (TokenCategory::Operator, seq!['*'])
}

/// The `0` that a negation subtracts from.
pub open spec fn zero_view() -> TokenView {
    (TokenCategory::Constant, seq!['0'])
}

/// The parenthesis that opens around a negation.
pub open spec fn open_view() -> TokenView {
    (TokenCategory::Parenthesis(true), seq!['('])
}

/// The parenthesis that closes around a negation.
pub open spec fn close_view() -> TokenView {
    (TokenCategory::Parenthesis(false), seq![')'])
}

/// Whether a token is a constant or a variable.
pub open spec fn is_value(t: TokenView) -> bool {
    t.0 == TokenCategory::Constant || t.0 == TokenCategory::Variable
}

/// Whether a token's text is a minus sign.
pub open spec fn is_minus(t: TokenView) -> bool {
    t.1 == seq!['-']
}

/// Whether the token at `j` follows an operator or an opening parenthesis.
pub open spec fn after_operator(t: Seq<TokenView>, j: int) -> bool {
    j > 0 && (t[j - 1].0 == TokenCategory::Operator || t[j - 1].0 == TokenCategory::Parenthesis(
        true,
    ))
}

/// Whether every token whose text is a minus sign is an operator, as the tokenizer makes them.
pub open spec fn minus_is_operator(t: Seq<TokenView>) -> bool {
    forall|j: int| 0 <= j < t.len() && is_minus(#[trigger] t[j]) ==> t[j].0 == TokenCategory::Operator
}

/// One pass of the loop at position `i`: the tokens afterwards, the next position, and
/// whether the pass fails (a negation with nothing after it to close around).
///
/// - A variable after a constant or a variable gets a `*` before it.
/// - A constant or a variable before an opening parenthesis gets a `*` after it.
/// - A minus sign at the very start gets a `0` before it.
/// - A minus sign after an operator or an opening parenthesis becomes `( 0 -`, and a `)` goes
///   after the token that follows it.
pub open spec fn implicit_step(t: Seq<TokenView>, i: int) -> (Seq<TokenView>, int, bool) {
    let (t1, i1) = step_juxtaposed_variable(t, i);
    let t2 = step_value_before_parenthesis(t1, i1);
    let t3 = step_leading_minus(t2, i1);
    step_negation(t3, i1)
}

/// A variable after a constant or a variable gets a `*` before it.
pub open spec fn step_juxtaposed_variable(t: Seq<TokenView>, i: int) -> (Seq<TokenView>, int) {
    if i > 0 && t[i].0 == TokenCategory::Variable && (t[i - 1].0 == TokenCategory::Variable || t[i
        - 1].0 == TokenCategory::Constant) {
        (t.insert(i, star_view()), i + 1)
    } else {
        (t, i)
    }
}

/// A constant or a variable before an opening parenthesis gets a `*` after it.
pub open spec fn step_value_before_parenthesis(t: Seq<TokenView>, i: int) -> Seq<TokenView> {
    if i < t.len() - 1 && is_value(t[i]) && t[i + 1].0 == TokenCategory::Parenthesis(true) {
        t.insert(i + 1, star_view())
    } else {
        t
    }
}

/// A minus sign at the very start gets a `0` before it.
pub open spec fn step_leading_minus(t: Seq<TokenView>, i: int) -> Seq<TokenView> {
    if i == 0 && is_minus(t[i]) {
        t.insert(0, zero_view())
    } else {
        t
    }
}

/// A minus sign after an operator or an opening parenthesis becomes `( 0 -`, and a `)` goes
/// after the token that follows it; this fails when no token follows. Then the pass moves on.
pub open spec fn step_negation(t: Seq<TokenView>, i: int) -> (Seq<TokenView>, int, bool) {
    if i > 0 && is_minus(t[i]) && after_operator(t, i) {
        let t4 = t.insert(i, zero_view()).insert(i, open_view());
        if i + 4 > t4.len() {
            (t4, i + 2, true)
        } else {
            (t4.insert(i + 4, close_view()), i + 2, false)
        }
    } else {
        (t, i + 1, false)
    }
}

/// What a token weighs in the measure that the loop brings down: every token 1, a constant or
/// a variable 2 more, and a minus operator after an operator or a parenthesis 2 more.
pub open spec fn weight(t: Seq<TokenView>, j: int) -> int {
    1 + (if is_value(t[j]) {
        2int
    } else {
        0int
    }) + (if t[j].0 == TokenCategory::Operator && is_minus(t[j]) && after_operator(t, j) {
        2int
    } else {
        0int
    })
}

/// The weight of the tokens from `j` on.
pub open spec fn suffix_weight(t: Seq<TokenView>, j: int) -> int
    decreases t.len() - j,
{
    if j < 0 || j >= t.len() {
        0
    } else {
        weight(t, j) + suffix_weight(t, j + 1)
    }
}

/// The measure that each pass of the loop brings down.
pub open spec fn implicit_measure(t: Seq<TokenView>, i: int) -> int {
    suffix_weight(t, i) + if i == 0 {
        1int
    } else {
        0int
    }
}

proof fn lemma_suffix_nonneg(t: Seq<TokenView>, j: int)
    ensures
        suffix_weight(t, j) >= 0,
    decreases t.len() - j,
{
    if 0 <= j < t.len() {
        lemma_suffix_nonneg(t, j + 1);
    }
}

/// Two runs of tokens that are the same, and start after the same kind of token, weigh the
/// same; one that starts after a token that is not an operator weighs no more.
proof fn lemma_suffix_compare(u: Seq<TokenView>, a: int, t: Seq<TokenView>, b: int)
    requires
        0 < a <= u.len(),
        0 < b <= t.len(),
        u.len() - a == t.len() - b,
        forall|k: int| a <= k < u.len() ==> #[trigger] u[k] == t[k - a + b],
        after_operator(u, a) ==> after_operator(t, b),
    ensures
        suffix_weight(u, a) <= suffix_weight(t, b),
        after_operator(u, a) == after_operator(t, b) ==> suffix_weight(u, a) == suffix_weight(t, b),
    decreases u.len() - a,
{
    if a < u.len() {
        assert(u[a] == t[b]);
        lemma_suffix_compare(u, a + 1, t, b + 1);
    }
}

proof fn lemma_insert_keeps_minus(t: Seq<TokenView>, p: int, x: TokenView)
    requires
        minus_is_operator(t),
        0 <= p <= t.len(),
        !is_minus(x) || x.0 == TokenCategory::Operator,
    ensures
        minus_is_operator(t.insert(p, x)),
{
    let u = t.insert(p, x);
    assert forall|j: int| 0 <= j < u.len() && is_minus(#[trigger] u[j]) implies u[j].0
        == TokenCategory::Operator by {
        if j < p {
            assert(u[j] == t[j]);
        } else if j > p {
            assert(u[j] == t[j - 1]);
        }
    }
}

proof fn lemma_inserted_not_minus()
    ensures
        !is_minus(star_view()),
        !is_minus(zero_view()),
        !is_minus(open_view()),
        !is_minus(close_view()),
{
    assert(star_view().1[0] != seq!['-'][0]);
    assert(zero_view().1[0] != seq!['-'][0]);
    assert(open_view().1[0] != seq!['-'][0]);
    assert(close_view().1[0] != seq!['-'][0]);
}

/// Each pass of the loop keeps minus signs operators, moves forward, and brings the measure
/// down.
pub proof fn lemma_step_decreases(t: Seq<TokenView>, i: int)
    requires
        minus_is_operator(t),
        0 <= i < t.len(),
    ensures
        ({
            let (t2, i2, failed) = implicit_step(t, i);
            !failed ==> {
                &&& minus_is_operator(t2)
                &&& 0 < i2 <= t2.len()
                &&& implicit_measure(t2, i2) < implicit_measure(t, i)
                &&& implicit_measure(t2, i2) >= 0
            }
        }),
{
    let (t2, i2, failed) = implicit_step(t, i);
    lemma_inserted_not_minus();
    lemma_suffix_nonneg(t, i + 1);
    assert(suffix_weight(t, i) == weight(t, i) + suffix_weight(t, i + 1));
    let a = i > 0 && t[i].0 == TokenCategory::Variable && (t[i - 1].0 == TokenCategory::Variable
        || t[i - 1].0 == TokenCategory::Constant);
    let b = if a {
        i + 1 < t.len() && t[i + 1].0 == TokenCategory::Parenthesis(true)
    } else {
        i < t.len() - 1 && is_value(t[i]) && t[i + 1].0 == TokenCategory::Parenthesis(true)
    };
    if !failed {
        if a && !b {
            let u = t.insert(i, star_view());
            assert(t2 == u);
            lemma_insert_keeps_minus(t, i, star_view());
            lemma_suffix_compare(u, i + 2, t, i + 1);
        } else if a && b {
            let u1 = t.insert(i, star_view());
            let u = u1.insert(i + 2, star_view());
            assert(t2 == u);
            lemma_insert_keeps_minus(t, i, star_view());
            lemma_insert_keeps_minus(u1, i + 2, star_view());
            lemma_suffix_nonneg(t, i + 2);
            assert(suffix_weight(t, i + 1) == weight(t, i + 1) + suffix_weight(t, i + 2));
            lemma_suffix_compare(u, i + 4, t, i + 2);
            assert(suffix_weight(u, i + 3) == weight(u, i + 3) + suffix_weight(u, i + 4));
            assert(suffix_weight(u, i + 2) == weight(u, i + 2) + suffix_weight(u, i + 3));
        } else if !a && b {
            let u = t.insert(i + 1, star_view());
            assert(t2 == u);
            lemma_insert_keeps_minus(t, i + 1, star_view());
            lemma_suffix_nonneg(t, i + 2);
            assert(suffix_weight(t, i + 1) == weight(t, i + 1) + suffix_weight(t, i + 2));
            lemma_suffix_compare(u, i + 3, t, i + 2);
            assert(suffix_weight(u, i + 2) == weight(u, i + 2) + suffix_weight(u, i + 3));
            assert(suffix_weight(u, i + 1) == weight(u, i + 1) + suffix_weight(u, i + 2));
        } else if i == 0 && is_minus(t[0]) {
            let u = t.insert(0, zero_view());
            assert(t2 == u);
            lemma_insert_keeps_minus(t, 0, zero_view());
            lemma_suffix_compare(u, 2, t, 1);
            assert(suffix_weight(u, 1) == weight(u, 1) + suffix_weight(u, 2));
        } else if i > 0 && is_minus(t[i]) && after_operator(t, i) {
            let u = t.insert(i, zero_view()).insert(i, open_view()).insert(i + 4, close_view());
            assert(t2 == u);
            lemma_insert_keeps_minus(t, i, zero_view());
            lemma_insert_keeps_minus(t.insert(i, zero_view()), i, open_view());
            lemma_insert_keeps_minus(
                t.insert(i, zero_view()).insert(i, open_view()),
                i + 4,
                close_view(),
            );
            assert(suffix_weight(u, i + 2) == weight(u, i + 2) + suffix_weight(u, i + 3));
            assert(suffix_weight(u, i + 3) == weight(u, i + 3) + suffix_weight(u, i + 4));
            assert(suffix_weight(u, i + 4) == weight(u, i + 4) + suffix_weight(u, i + 5));
            if i + 2 < t.len() {
                lemma_suffix_compare(u, i + 5, t, i + 2);
            } else {
                assert(suffix_weight(u, i + 5) == 0);
            }
            lemma_suffix_nonneg(t, i + 2);
            assert(suffix_weight(t, i + 1) == weight(t, i + 1) + suffix_weight(t, i + 2));
        } else {
            assert(t2 == t);
        }
        assert(minus_is_operator(t2));
        lemma_suffix_nonneg(t2, i2);
    }
}


/// The tokens once the loop has run from position `i` to the end; none if a pass fails.
pub open spec fn implicit_from(t: Seq<TokenView>, i: int) -> Option<Seq<TokenView>>
    decreases implicit_measure(t, i),
    when minus_is_operator(t) && 0 <= i
{
    if i >= t.len() {
        Some(t)
    } else {
        let (t2, i2, failed) = implicit_step(t, i);
        if failed {
            None
        } else {
            proof {
                lemma_step_decreases(t, i);
            }
            implicit_from(t2, i2)
        }
    }
}

/// Whether the token at `j` leaves no operation implicit: it is not a variable right after a
/// constant or a variable, nor a constant or a variable right before an opening parenthesis,
/// nor a minus sign at the start or right after an operator or an opening parenthesis.
pub open spec fn written_out_at(t: Seq<TokenView>, j: int) -> bool {
    &&& 0 < j ==> !(t[j].0 == TokenCategory::Variable && is_value(t[j - 1]))
    &&& j + 1 < t.len() ==> !(is_value(t[j]) && t[j + 1].0 == TokenCategory::Parenthesis(true))
    &&& t[j].1 == seq!['-'] ==> 0 < j && t[j - 1].0 != TokenCategory::Operator && t[j - 1].0
        != TokenCategory::Parenthesis(true)
}

/// Whether every token before position `i` leaves no product implicit.
pub open spec fn written_out_before(t: Seq<TokenView>, i: int) -> bool {
    forall|j: int| 0 <= j < i ==> #[trigger] written_out_at(t, j)
}

proof fn lemma_step_writes_out(t: Seq<TokenView>, i: int)
    requires
        minus_is_operator(t),
        0 <= i < t.len(),
        written_out_before(t, i),
        !implicit_step(t, i).2,
    ensures
        written_out_before(implicit_step(t, i).0, implicit_step(t, i).1),
{
    lemma_inserted_not_minus();
    let (t4, i4, failed) = implicit_step(t, i);
    let a = i > 0 && t[i].0 == TokenCategory::Variable && (t[i - 1].0 == TokenCategory::Variable
        || t[i - 1].0 == TokenCategory::Constant);
    let (t1, i1) = step_juxtaposed_variable(t, i);
    let t2 = step_value_before_parenthesis(t1, i1);
    let t3 = step_leading_minus(t2, i1);
    let b = i1 < t1.len() - 1 && is_value(t1[i1]) && t1[i1 + 1].0 == TokenCategory::Parenthesis(
        true,
    );
    let c = i1 == 0 && is_minus(t2[i1]);
    let d = i1 > 0 && is_minus(t3[i1]) && after_operator(t3, i1);
    assert(is_minus(t[i]) ==> t[i].0 == TokenCategory::Operator);
    if a {
        assert(t1[i + 1] == t[i]);
        assert(!is_minus(t1[i + 1]));
    }
    if !a && b {
        assert(!is_minus(t[i]));
    }
    assert forall|j: int| 0 <= j < i4 implies #[trigger] written_out_at(t4, j) by {
        if j < i - 1 {
            assert(written_out_at(t, j));
            assert(t4[j] == t[j]);
            if j > 0 {
                assert(t4[j - 1] == t[j - 1]);
            }
            assert(t4[j + 1] == t[j + 1]);
        } else if j == i - 1 {
            assert(written_out_at(t, j));
            assert(t4[j] == t[j]);
            if j > 0 {
                assert(t4[j - 1] == t[j - 1]);
            }
            if !a && !d {
                if j + 1 < t4.len() {
                    assert(t4[j + 1] == t[j + 1]);
                }
            }
        }
    }
}

/// Whether no operation is left implicit in `out`: no variable follows a constant or a
/// variable, no constant or variable comes right before an opening parenthesis, and every
/// minus sign has a token before it that is neither an operator nor an opening parenthesis.
pub open spec fn fully_written_out(out: Seq<TokenView>) -> bool {
    &&& forall|i: int, j: int|
        0 <= i && j == i + 1 && j < out.len() ==> !((#[trigger] out[j]).0
            == TokenCategory::Variable && ((#[trigger] out[i]).0 == TokenCategory::Constant
            || out[i].0 == TokenCategory::Variable))
    &&& forall|i: int, j: int|
        0 <= i && j == i + 1 && j < out.len() ==> !(((#[trigger] out[i]).0
            == TokenCategory::Constant || out[i].0 == TokenCategory::Variable) && (
        #[trigger] out[j]).0 == TokenCategory::Parenthesis(true))
    &&& forall|j: int| 0 <= j < out.len() && (#[trigger] out[j]).1 == seq!['-'] ==> 0 < j
    &&& forall|i: int, j: int|
        0 <= i && j == i + 1 && j < out.len() && (#[trigger] out[j]).1 == seq!['-'] ==> (
        #[trigger] out[i]).0 != TokenCategory::Operator && out[i].0 != TokenCategory::Parenthesis(
            true,
        )
}

/// The tokens that `insert_implicit_operations` gives back leave no operation implicit (see
/// `fully_written_out`): in particular a minus sign after any operator, `=` included, or after
/// an opening parenthesis has been written out as a negation, so that `x=-1` becomes
/// `x=(0-1)`.
pub proof fn lemma_no_implicit_operation_left(t: Seq<TokenView>)
    requires
        minus_is_operator(t),
        implicit_from(t, 0) is Some,
    ensures
        fully_written_out(implicit_from(t, 0).unwrap()),
{
    lemma_implicit_writes_out(t, 0);
    lemma_written_out_in_full(implicit_from(t, 0).unwrap());
}

proof fn lemma_written_out_in_full(out: Seq<TokenView>)
    requires
        forall|j: int| 0 <= j < out.len() ==> #[trigger] written_out_at(out, j),
    ensures
        fully_written_out(out),
{
    assert forall|i: int, j: int| 0 <= i && j == i + 1 && j < out.len() implies !((
    #[trigger] out[j]).0 == TokenCategory::Variable && ((#[trigger] out[i]).0
        == TokenCategory::Constant || out[i].0 == TokenCategory::Variable)) by {
        assert(written_out_at(out, j));
    }
    assert forall|i: int, j: int| 0 <= i && j == i + 1 && j < out.len() implies !(((
    #[trigger] out[i]).0 == TokenCategory::Constant || out[i].0 == TokenCategory::Variable) && (
    #[trigger] out[j]).0 == TokenCategory::Parenthesis(true)) by {
        assert(written_out_at(out, i));
    }
    assert forall|j: int| 0 <= j < out.len() && (#[trigger] out[j]).1 == seq!['-'] implies 0
        < j by {
        assert(written_out_at(out, j));
    }
    assert forall|i: int, j: int|
        0 <= i && j == i + 1 && j < out.len() && (#[trigger] out[j]).1 == seq!['-'] implies (
    #[trigger] out[i]).0 != TokenCategory::Operator && out[i].0 != TokenCategory::Parenthesis(
        true,
    ) by {
        assert(written_out_at(out, j));
    }
}

/// Once the loop has run to the end, no operation is left implicit (see `written_out_at`).
pub proof fn lemma_implicit_writes_out(t: Seq<TokenView>, i: int)
    requires
        minus_is_operator(t),
        0 <= i,
        written_out_before(t, i),
        implicit_from(t, i) is Some,
    ensures
        forall|j: int|
            0 <= j < implicit_from(t, i).unwrap().len() ==> #[trigger] written_out_at(
                implicit_from(t, i).unwrap(),
                j,
            ),
    decreases implicit_measure(t, i),
{
    if i >= t.len() {
        assert forall|j: int| 0 <= j < t.len() implies #[trigger] written_out_at(t, j) by {
            assert(written_out_at(t, j));
        }
    } else {
        let (t2, i2, failed) = implicit_step(t, i);
        lemma_step_decreases(t, i);
        lemma_step_writes_out(t, i);
        lemma_implicit_writes_out(t2, i2);
    }
}

/// A token made of a category and one character.
fn single_token(category: TokenCategory, c: char) -> (r: Token)
    ensures
        r@ == (category, seq![c]),
{
    let mut text = String::new();
    crate::token::push_char(&mut text, c);
    assert(text@ =~= seq![c]);
    Token { token_type: category, token: text }
}

/// Inserts a token into the vector.
fn insert_token(tokens: &mut Vec<Token>, index: usize, token: Token)
    requires
        index <= old(tokens).len(),
    ensures
        token_views(final(tokens)@) == token_views(old(tokens)@).insert(index as int, token@),
        final(tokens)@.len() == old(tokens)@.len() + 1,
{
    let ghost tv = token@;
    tokens.insert(index, token);
    assert(token_views(tokens@) =~= token_views(old(tokens)@).insert(index as int, tv));
}

fn juxtaposed_variable(work: &mut Vec<Token>, i: usize) -> (r: usize)
    requires
        i < old(work).len(),
    ensures
        (token_views(final(work)@), r as int) == step_juxtaposed_variable(
            token_views(old(work)@),
            i as int,
        ),
        r < final(work).len(),
{
    let ghost t = token_views(work@);
    assert(t[i as int] == work@[i as int]@);
    if i > 0 && work[i].token_type == TokenCategory::Variable && (work[i - 1].token_type
        == TokenCategory::Variable || work[i - 1].token_type == TokenCategory::Constant) {
        assert(t[i - 1] == work@[i - 1]@);
        insert_token(work, i, single_token(TokenCategory::Operator, '*'));
        return i + 1;
    }
    i
}

fn value_before_parenthesis(work: &mut Vec<Token>, i: usize)
    requires
        i < old(work).len(),
    ensures
        token_views(final(work)@) == step_value_before_parenthesis(
            token_views(old(work)@),
            i as int,
        ),
{
    let ghost t = token_views(work@);
    if i < work.len() - 1 && (work[i].token_type == TokenCategory::Variable || work[i].token_type
        == TokenCategory::Constant) && work[i + 1].token_type == TokenCategory::Parenthesis(true) {
        assert(t[i as int] == work@[i as int]@);
        assert(t[i + 1] == work@[i + 1]@);
        insert_token(work, i + 1, single_token(TokenCategory::Operator, '*'));
    } else {
        assert(t[i as int] == work@[i as int]@);
        if i < work.len() - 1 {
            assert(t[i + 1] == work@[i + 1]@);
        }
    }
}

fn leading_minus(work: &mut Vec<Token>, i: usize)
    requires
        i < old(work).len(),
    ensures
        token_views(final(work)@) == step_leading_minus(token_views(old(work)@), i as int),
{
    let ghost t = token_views(work@);
    assert(t[i as int] == work@[i as int]@);
    if i == 0 && text_is(&work[i].token, '-') {
        insert_token(work, 0, single_token(TokenCategory::Constant, '0'));
    }
}

fn negation(work: &mut Vec<Token>, i: usize) -> (r: Option<usize>)
    requires
        i < old(work).len(),
    ensures
        r is None <==> step_negation(token_views(old(work)@), i as int).2,
        r matches Some(j) ==> (token_views(final(work)@), j as int) == (
            step_negation(token_views(old(work)@), i as int).0,
            step_negation(token_views(old(work)@), i as int).1,
        ),
{
    let ghost t = token_views(work@);
    assert(t[i as int] == work@[i as int]@);
    if i > 0 && text_is(&work[i].token, '-') && (work[i - 1].token_type == TokenCategory::Operator
        || work[i - 1].token_type == TokenCategory::Parenthesis(true)) {
        assert(t[i - 1] == work@[i - 1]@);
        insert_token(work, i, single_token(TokenCategory::Constant, '0'));
        insert_token(work, i, single_token(TokenCategory::Parenthesis(true), '('));
        if work.len() < 4 || i > work.len() - 4 {
            return None;
        }
        insert_token(work, i + 4, single_token(TokenCategory::Parenthesis(false), ')'));
        return Some(i + 2);
    }
    if i > 0 {
        assert(t[i - 1] == work@[i - 1]@);
    }
    Some(i + 1)
}

/// Writes out the operations that the tokens leave implicit, in one pass from left to right
/// (see `implicit_step`). None where a minus sign after an operator has nothing after it.
pub fn insert_implicit_operations(tokens: Vec<Token>) -> (r: Option<Vec<Token>>)
    requires
        minus_is_operator(token_views(tokens@)),
    ensures
        r is Some <==> implicit_from(token_views(tokens@), 0) is Some,
        r matches Some(v) ==> token_views(v@) == implicit_from(token_views(tokens@), 0).unwrap(),
{
    let mut work = tokens;
    let ghost given = token_views(tokens@);
    let mut i: usize = 0;
    while i < work.len()
        invariant
            given == token_views(tokens@),
            minus_is_operator(token_views(work@)),
            implicit_from(token_views(work@), i as int) == implicit_from(given, 0),
        decreases implicit_measure(token_views(work@), i as int),
    {
        let ghost t = token_views(work@);
        proof {
            lemma_step_decreases(t, i as int);
        }
        let i1 = juxtaposed_variable(&mut work, i);
        value_before_parenthesis(&mut work, i1);
        leading_minus(&mut work, i1);
        match negation(&mut work, i1) {
            None => {
                return None;
            },
            Some(next) => {
                i = next;
            },
        }
    }
    Some(work)
}

} // verus!
