//! Exact-numeric arithmetic trees evaluated as reduced rationals, rounded
//! only when the result is materialized: `MySQL` gives every division a
//! DECIMAL scale but keeps more digits for the arithmetic around it.
use crate::decimal::{
    law_add_sub_exact, law_multiply_exact, law_negated_exact, add_sub_parts, divide_parts,
    multiply_parts, negated_parts, rounded_units, scaled_text, truncated_parts, DecimalRational,
    ExecError,
};
use vstd::prelude::*;

verus! {

/// An exact arithmetic operator.
#[derive(Clone, Copy, Debug, PartialEq, Eq, Structural)]
pub enum ChainOp {
    Add,
    Subtract,
    Multiply,
    Divide,
}

/// An exact-numeric arithmetic tree: SQL `NULL`, an exact operand, a
/// negation, or a binary operator whose DECIMAL result has `scale`.
#[derive(Debug)]
pub enum DecimalChain {
    Null,
    Exact(DecimalRational),
    Negate(Box<DecimalChain>),
    Binary { op: ChainOp, scale: u8, left: Box<DecimalChain>, right: Box<DecimalChain> },
}

/// The value of a tree: SQL `NULL` or an exact rational.
#[derive(Clone, Copy, Debug, PartialEq, Eq, Structural)]
pub enum DecimalChainValue {
    Null,
    Exact(DecimalRational),
}

/// Whether every exact operand of a tree has a positive denominator.
pub open spec fn chain_wf(c: DecimalChain) -> bool
    decreases c,
{
    match c {
        DecimalChain::Null => true,
        DecimalChain::Exact(r) => r.wf(),
        DecimalChain::Negate(e) => chain_wf(*e),
        DecimalChain::Binary { left, right, .. } => chain_wf(*left) && chain_wf(*right),
    }
}

/// The scale a division keeps for the arithmetic around it: its own scale
/// (at least 1) rounded up to whole base-10⁹ words, at most 255.
pub open spec fn internal_scale(scale: int) -> int {
    let s = if scale < 1 { 1 } else { scale };
    let words = (s + 8) / 9;
    if words * 9 > 255 { 255 } else { words * 9 }
}

/// The value of a tree: `Ok(None)` for `NULL` (an operand `NULL` or a
/// division by zero), `Err` when a step overflows `i128`; a division keeps
/// its quotient truncated to its internal scale.
pub open spec fn chain_value(c: DecimalChain) -> Result<Option<(int, int)>, ExecError>
    decreases c,
{
    match c {
        DecimalChain::Null => Ok(None),
        DecimalChain::Exact(r) => Ok(Some(r.parts())),
        DecimalChain::Negate(e) => match chain_value(*e) {
            Err(x) => Err(x),
            Ok(None) => Ok(None),
            Ok(Some(p)) => match negated_parts(p) {
                Some(q) => Ok(Some(q)),
                None => Err(ExecError::NumericOverflow),
            },
        },
        DecimalChain::Binary { op, scale, left, right } => match chain_value(*left) {
            Err(x) => Err(x),
            Ok(l) => match chain_value(*right) {
                Err(x) => Err(x),
                Ok(r) => match (l, r) {
                    (Some(a), Some(b)) => match op {
                        ChainOp::Add => match add_sub_parts(a, b, false) {
                            Some(q) => Ok(Some(q)),
                            None => Err(ExecError::NumericOverflow),
                        },
                        ChainOp::Subtract => match add_sub_parts(a, b, true) {
                            Some(q) => Ok(Some(q)),
                            None => Err(ExecError::NumericOverflow),
                        },
                        ChainOp::Multiply => match multiply_parts(a, b) {
                            Some(q) => Ok(Some(q)),
                            None => Err(ExecError::NumericOverflow),
                        },
                        ChainOp::Divide => match divide_parts(a, b) {
                            None => Err(ExecError::NumericOverflow),
                            Some(None) => Ok(None),
                            Some(Some(q)) => match truncated_parts(q, internal_scale(scale as int) as nat) {
                                Some(t) => Ok(Some(t)),
                                None => Err(ExecError::NumericOverflow),
                            },
                        },
                    },
                    _ => Ok(None),
                },
            },
        },
    }
}

/// Whether an exec value is what the spec says.
pub open spec fn value_matches(v: DecimalChainValue, s: Option<(int, int)>) -> bool {
    match s {
        None => v == DecimalChainValue::Null,
        Some(p) => v matches DecimalChainValue::Exact(r) && r.parts() == p && r.wf(),
    }
}

fn internal_scale_of(scale: u8) -> (r: u8)
    ensures
        r == internal_scale(scale as int),
{
    let s: u32 = if scale < 1 { 1 } else { scale as u32 };
    let words = (s + 8) / 9;
    if words * 9 > 255 { 255 } else { (words * 9) as u8 }
}

impl DecimalChain {
    /// Evaluates the tree as a reduced rational.
    pub fn evaluate_decimal_chain(&self) -> (r: Result<DecimalChainValue, ExecError>)
        requires
            chain_wf(*self),
        ensures
            match chain_value(*self) {
                Err(x) => r == Err::<DecimalChainValue, ExecError>(x),
                Ok(s) => r matches Ok(v) && value_matches(v, s),
            },
        decreases self,
    {
        match self {
            DecimalChain::Null => Ok(DecimalChainValue::Null),
            DecimalChain::Exact(r) => Ok(DecimalChainValue::Exact(*r)),
            DecimalChain::Negate(e) => match e.evaluate_decimal_chain() {
                Err(x) => Err(x),
                Ok(DecimalChainValue::Null) => Ok(DecimalChainValue::Null),
                Ok(DecimalChainValue::Exact(v)) => match v.negated() {
                    Ok(n) => Ok(DecimalChainValue::Exact(n)),
                    Err(x) => Err(x),
                },
            },
            DecimalChain::Binary { op, scale, left, right } => {
                let l = match left.evaluate_decimal_chain() {
                    Ok(v) => v,
                    Err(x) => return Err(x),
                };
                let r = match right.evaluate_decimal_chain() {
                    Ok(v) => v,
                    Err(x) => return Err(x),
                };
                let (a, b) = match (l, r) {
                    (DecimalChainValue::Exact(a), DecimalChainValue::Exact(b)) => (a, b),
                    _ => return Ok(DecimalChainValue::Null),
                };
                let exact = match op {
                    ChainOp::Add => a.add_sub(b, false),
                    ChainOp::Subtract => a.add_sub(b, true),
                    ChainOp::Multiply => a.multiply(b),
                    ChainOp::Divide => match a.divide(b) {
                        Err(x) => Err(x),
                        Ok(None) => return Ok(DecimalChainValue::Null),
                        Ok(Some(q)) => q.truncated(internal_scale_of(*scale)),
                    },
                };
                match exact {
                    Ok(v) => Ok(DecimalChainValue::Exact(v)),
                    Err(x) => Err(x),
                }
            },
        }
    }
}

/// The text a tree materializes as at its DECIMAL `scale` (at most 38):
/// `Ok(None)` for `NULL`, the value rounded half away from zero otherwise.
pub open spec fn chain_text(c: DecimalChain, scale: int) -> Result<Option<Seq<char>>, ExecError> {
    match chain_value(c) {
        Err(x) => Err(x),
        Ok(None) => Ok(None),
        Ok(Some(p)) => match rounded_units(p, scale as nat) {
            Some(units) => Ok(Some(scaled_text(units, scale as nat))),
            None => Err(ExecError::NumericOverflow),
        },
    }
}

/// Evaluates a tree and rounds its value to the DECIMAL `scale`.
pub fn materialize_decimal_chain(c: &DecimalChain, scale: u8) -> (r: Result<Option<String>, ExecError>)
    requires
        chain_wf(*c),
        scale <= 38,
    ensures
        match chain_text(*c, scale as int) {
            Err(x) => r == Err::<Option<String>, ExecError>(x),
            Ok(None) => r matches Ok(None),
            Ok(Some(t)) => r matches Ok(Some(s)) && s@ == t,
        },
{
    match c.evaluate_decimal_chain() {
        Err(x) => Err(x),
        Ok(DecimalChainValue::Null) => Ok(None),
        Ok(DecimalChainValue::Exact(v)) => match v.rounded(scale) {
            Ok(text) => Ok(Some(text)),
            Err(x) => Err(x),
        },
    }
}

/// Whether a tree holds no division, whose quotient is truncated.
pub open spec fn division_free(c: DecimalChain) -> bool
    decreases c,
{
    match c {
        DecimalChain::Null | DecimalChain::Exact(_) => true,
        DecimalChain::Negate(e) => division_free(*e),
        DecimalChain::Binary { op, left, right, .. } => op != ChainOp::Divide && division_free(*left)
            && division_free(*right),
    }
}

/// The value of a division-free tree by schoolbook fraction arithmetic,
/// unreduced; `None` when a `NULL` takes part.
pub open spec fn exact_ratio(c: DecimalChain) -> Option<(int, int)>
    decreases c,
{
    match c {
        DecimalChain::Null => None,
        DecimalChain::Exact(r) => Some(r.parts()),
        DecimalChain::Negate(e) => match exact_ratio(*e) {
            Some((n, d)) => Some((-n, d)),
            None => None,
        },
        DecimalChain::Binary { op, left, right, .. } => match (exact_ratio(*left), exact_ratio(*right)) {
            (Some((n1, d1)), Some((n2, d2))) => Some(
                if op == ChainOp::Add {
                    (n1 * d2 + n2 * d1, d1 * d2)
                } else if op == ChainOp::Subtract {
                    (n1 * d2 - n2 * d1, d1 * d2)
                } else {
                    (n1 * n2, d1 * d2)
                },
            ),
            _ => None,
        },
    }
}

proof fn lemma_cancel(x: int, y: int, k: int)
    requires
        k > 0,
        x * k == y * k,
    ensures
        x == y,
{
    assert(x == y) by (nonlinear_arith)
        requires
            k > 0,
            x * k == y * k,
    ;
}

proof fn lemma_ratio_trans(x: int, c: int, y: int, d: int, z: int, f: int)
    requires
        c > 0,
        d > 0,
        f > 0,
        x * d == y * c,
        y * f == z * d,
    ensures
        x * f == z * c,
{
    assert((x * f) * d == (z * c) * d) by (nonlinear_arith)
        requires
            x * d == y * c,
            y * f == z * d,
    ;
    lemma_cancel(x * f, z * c, d);
}

proof fn lemma_rearrange(x: int, y: int, u: int, v: int)
    ensures
        (x * y) * (u * v) == (x * u) * (y * v),
{
    assert((x * y) * (u * v) == (x * u) * (y * v)) by (nonlinear_arith);
}

proof fn lemma_term_ratio(p1: int, q1: int, a1: int, b1: int, q2: int, b2: int)
    requires
        p1 * b1 == a1 * q1,
    ensures
        (p1 * q2) * (b1 * b2) == (a1 * b2) * (q1 * q2),
{
    lemma_rearrange(p1, q2, b1, b2);
    assert((p1 * b1) * (q2 * b2) == (a1 * q1) * (q2 * b2));
    lemma_rearrange(a1, q1, q2, b2);
    assert((a1 * q2) * (q1 * b2) == (a1 * b2) * (q1 * q2)) by (nonlinear_arith);
}

proof fn lemma_sum_ratio(p: int, q: int, p1: int, q1: int, p2: int, q2: int, a1: int, b1: int, a2: int, b2: int, subtract: bool)
    requires
        q > 0,
        q1 > 0,
        q2 > 0,
        b1 > 0,
        b2 > 0,
        p * (q1 * q2) == (if subtract { p1 * q2 - p2 * q1 } else { p1 * q2 + p2 * q1 }) * q,
        p1 * b1 == a1 * q1,
        p2 * b2 == a2 * q2,
    ensures
        p * (b1 * b2) == (if subtract { a1 * b2 - a2 * b1 } else { a1 * b2 + a2 * b1 }) * q,
{
    let t1 = p1 * q2;
    let t2 = p2 * q1;
    let s1 = a1 * b2;
    let s2 = a2 * b1;
    let bb = b1 * b2;
    let qq = q1 * q2;
    lemma_term_ratio(p1, q1, a1, b1, q2, b2);
    lemma_term_ratio(p2, q2, a2, b2, q1, b1);
    assert(b2 * b1 == bb && q2 * q1 == qq) by (nonlinear_arith)
        requires
            bb == b1 * b2,
            qq == q1 * q2,
    ;
    let m = if subtract { t1 - t2 } else { t1 + t2 };
    let a = if subtract { s1 - s2 } else { s1 + s2 };
    assert(m * bb == a * qq) by (nonlinear_arith)
        requires
            t1 * bb == s1 * qq,
            t2 * bb == s2 * qq,
            m == (if subtract { t1 - t2 } else { t1 + t2 }),
            a == (if subtract { s1 - s2 } else { s1 + s2 }),
    ;
    assert(qq > 0 && bb > 0) by (nonlinear_arith)
        requires
            qq == q1 * q2,
            bb == b1 * b2,
            q1 > 0,
            q2 > 0,
            b1 > 0,
            b2 > 0,
    ;
    lemma_ratio_trans(p, q, m, qq, a, bb);
}

proof fn lemma_product_ratio(p: int, q: int, p1: int, q1: int, p2: int, q2: int, a1: int, b1: int, a2: int, b2: int)
    requires
        q > 0,
        q1 > 0,
        q2 > 0,
        b1 > 0,
        b2 > 0,
        p * (q1 * q2) == (p1 * p2) * q,
        p1 * b1 == a1 * q1,
        p2 * b2 == a2 * q2,
    ensures
        p * (b1 * b2) == (a1 * a2) * q,
{
    let bb = b1 * b2;
    let qq = q1 * q2;
    lemma_rearrange(p1, p2, b1, b2);
    assert((p1 * b1) * (p2 * b2) == (a1 * q1) * (a2 * q2));
    lemma_rearrange(a1, q1, a2, q2);
    assert((a1 * a2) * (q1 * q2) == (a1 * q1) * (a2 * q2)) by (nonlinear_arith);
    assert(qq > 0 && bb > 0) by (nonlinear_arith)
        requires
            qq == q1 * q2,
            bb == b1 * b2,
            q1 > 0,
            q2 > 0,
            b1 > 0,
            b2 > 0,
    ;
    lemma_ratio_trans(p, q, p1 * p2, qq, a1 * a2, bb);
}

/// A division-free tree evaluates exactly: whenever it yields a value, that
/// value is the fraction-arithmetic value of the tree (no digit is lost to
/// intermediate rounding).
pub proof fn law_chain_exact(c: DecimalChain)
    requires
        chain_wf(c),
        division_free(c),
        chain_value(c) matches Ok(Some(_)),
    ensures
        exact_ratio(c) matches Some((a, b)) && b > 0 && (chain_value(c) matches Ok(Some((p, q))) && q > 0 && p * b == a * q),
    decreases c,
{
    match c {
        DecimalChain::Null => {},
        DecimalChain::Exact(r) => {},
        DecimalChain::Negate(e) => {
            law_chain_exact(*e);
            let (p1, q1) = chain_value(*e)->Ok_0.unwrap();
            let (a1, b1) = exact_ratio(*e).unwrap();
            law_negated_exact((p1, q1));
            let (p, q) = negated_parts((p1, q1)).unwrap();
            assert(p * b1 == (-a1) * q) by (nonlinear_arith)
                requires
                    p * q1 == (-p1) * q,
                    p1 * b1 == a1 * q1,
                    q1 > 0,
                    b1 > 0,
                    q > 0,
            ;
        },
        DecimalChain::Binary { op, scale, left, right } => {
            law_chain_exact(*left);
            law_chain_exact(*right);
            let (p1, q1) = chain_value(*left)->Ok_0.unwrap();
            let (p2, q2) = chain_value(*right)->Ok_0.unwrap();
            let (a1, b1) = exact_ratio(*left).unwrap();
            let (a2, b2) = exact_ratio(*right).unwrap();
            assert(b1 * b2 > 0) by (nonlinear_arith)
                requires
                    b1 > 0,
                    b2 > 0,
            ;
            if op == ChainOp::Multiply {
                law_multiply_exact((p1, q1), (p2, q2));
                let (p, q) = multiply_parts((p1, q1), (p2, q2)).unwrap();
                lemma_product_ratio(p, q, p1, q1, p2, q2, a1, b1, a2, b2);
            } else {
                let subtract = op == ChainOp::Subtract;
                law_add_sub_exact((p1, q1), (p2, q2), subtract);
                let (p, q) = add_sub_parts((p1, q1), (p2, q2), subtract).unwrap();
                lemma_sum_ratio(p, q, p1, q1, p2, q2, a1, b1, a2, b2, subtract);
            }
        },
    }
}

} // verus!
