//! Rendering expression trees as formula text.

use crate::parser::{names_of, BinOperator, Expr, Rule};
use vstd::prelude::*;
use vstd::string::StringExecFns;

verus! {

/// How `op` is written.
pub open spec fn op_text(op: BinOperator) -> Seq<char> {
    match op {
        BinOperator::And => "&"@,
        BinOperator::Or => "|"@,
        BinOperator::Arrow => "->"@,
        BinOperator::TwinArrow => "<->"@,
    }
}

/// The text of `expr`, with the atoms' names taken from `names`.  A
/// connective stands between single spaces, `~` and the parentheses stand
/// against what they hold.
pub open spec fn expr_text(expr: Expr, names: Seq<Seq<char>>) -> Seq<char>
    decreases expr,
{
    match expr {
        Expr::Pattern(e, rule) => expr_text(*e, names) + " => "@ + rule_text(*rule, names),
        Expr::Binding(id, rule) => expr_text(*id, names) + " := "@ + rule_text(*rule, names),
        Expr::Binary(l, op, r) => expr_text(*l, names) + " "@ + op_text(op) + " "@ + expr_text(
            *r,
            names,
        ),
        Expr::Not(e) => "~"@ + expr_text(*e, names),
        Expr::Group(e) => "("@ + expr_text(*e, names) + ")"@,
        Expr::Primary(n) => names[n as int],
    }
}

/// The text of `rule`: `lhs = rhs`, or the rule's name.
pub open spec fn rule_text(rule: Rule, names: Seq<Seq<char>>) -> Seq<char>
    decreases rule,
{
    match rule {
        Rule::Equivalence(lhs, rhs) => expr_text(lhs, names) + " = "@ + expr_text(rhs, names),
        Rule::RuleId(n) => names[n as int],
    }
}

impl BinOperator {
    /// How the operator is written.
    pub fn symbol(&self) -> (text: &'static str)
        ensures
            text@ == op_text(*self),
    {
        match self {
            BinOperator::And => "&",
            BinOperator::Or => "|",
            BinOperator::Arrow => "->",
            BinOperator::TwinArrow => "<->",
        }
    }
}

/// Appends the text of `expr` to `out`.
fn write_expr(expr: &Expr, interned: &Vec<String>, out: &mut String)
    requires
        expr.named_below(interned@.len()),
    ensures
        final(out)@ == old(out)@ + expr_text(*expr, names_of(interned@)),
    decreases *expr, 0nat,
{
    match expr {
        Expr::Pattern(e, rule) => {
            write_expr(e, interned, out);
            out.append(" => ");
            write_rule(rule, interned, out);
        },
        Expr::Binding(id, rule) => {
            write_expr(id, interned, out);
            out.append(" := ");
            write_rule(rule, interned, out);
        },
        Expr::Binary(l, op, r) => {
            write_expr(l, interned, out);
            out.append(" ");
            out.append(op.symbol());
            out.append(" ");
            write_expr(r, interned, out);
        },
        Expr::Not(e) => {
            out.append("~");
            write_expr(e, interned, out);
        },
        Expr::Group(e) => {
            out.append("(");
            write_expr(e, interned, out);
            out.append(")");
        },
        Expr::Primary(n) => {
            out.append(interned[*n].as_str());
        },
    }
}

/// Appends the text of `rule` to `out`.
fn write_rule(rule: &Rule, interned: &Vec<String>, out: &mut String)
    requires
        rule.named_below(interned@.len()),
    ensures
        final(out)@ == old(out)@ + rule_text(*rule, names_of(interned@)),
    decreases *rule, 0nat,
{
    match rule {
        Rule::Equivalence(lhs, rhs) => {
            write_expr(lhs, interned, out);
            out.append(" = ");
            write_expr(rhs, interned, out);
        },
        Rule::RuleId(n) => {
            out.append(interned[*n].as_str());
        },
    }
}

/// The text of `rule`, with the names taken from `interned`.
pub fn rule_to_string(rule: &Rule, interned: &Vec<String>) -> (text: String)
    requires
        rule.named_below(interned@.len()),
    ensures
        text@ == rule_text(*rule, names_of(interned@)),
{
    let mut text = String::new();
    write_rule(rule, interned, &mut text);
    text
}

/// The text of `expr`, with the names taken from `interned`.
pub fn expr_to_string(expr: &Expr, interned: &Vec<String>) -> (text: String)
    requires
        expr.named_below(interned@.len()),
    ensures
        text@ == expr_text(*expr, names_of(interned@)),
{
    let mut text = String::new();
    write_expr(expr, interned, &mut text);
    text
}

} // verus!
