//! Text that was written out from a tree lexes back to the tokens that
//! spell the tree, so parsing what was printed gives the tree again.

use crate::grammar::{lemma_parse_sound, rule_spelled, spelled};
use crate::lexer::{
    holds_ans, is_letter, lemma_run_end, lemma_step_advances, lex, run_end, scan_from, step,
    word_lexeme, Lexed, Lexeme,
};
use crate::parser::{op_lexeme, spec_parse, BinOperator, Expr, Rule};
use crate::utils::{expr_text, op_text, rule_text};
use vstd::prelude::*;

verus! {

/// Whether `word` can be the name of an atom: letters, at least one, that
/// spell no keyword and not `ans`.
pub open spec fn is_name(word: Seq<char>) -> bool {
    &&& word.len() > 0
    &&& forall|i: int| 0 <= i < word.len() ==> is_letter(#[trigger] word[i])
    &&& word_lexeme(word) == Lexeme::Identifier(word)
    &&& word != "ans"@
}

/// Whether every identifier among `tokens` is a name.
pub open spec fn names_valid(tokens: Seq<Lexeme>) -> bool {
    forall|i: int|
        0 <= i < tokens.len() ==> ((#[trigger] tokens[i]) matches Lexeme::Identifier(word)
            ==> is_name(word))
}

/// Whether `piece` stands in `full` at `pos`.
pub open spec fn occurs(full: Seq<char>, pos: int, piece: Seq<char>) -> bool {
    &&& 0 <= pos
    &&& pos + piece.len() <= full.len()
    &&& full.subrange(pos, pos + piece.len()) == piece
}

/// Whether no letter stands in `full` at `pos`.
pub open spec fn no_letter(full: Seq<char>, pos: int) -> bool {
    pos >= full.len() || !is_letter(full[pos])
}

/// `tokens`, and then what `rest` holds.
pub open spec fn tokens_then(tokens: Seq<Lexeme>, rest: Lexed) -> Lexed {
    Lexed { tokens: tokens + rest.tokens, diagnostics: rest.diagnostics }
}

/// Tokens before tokens before a rest are all the tokens before the rest.
proof fn lemma_then_then(a: Seq<Lexeme>, b: Seq<Lexeme>, rest: Lexed)
    ensures
        tokens_then(a, tokens_then(b, rest)) == tokens_then(a + b, rest),
{
    assert(a + (b + rest.tokens) =~= (a + b) + rest.tokens);
}

/// Where a text stands, its two halves stand one behind the other.
proof fn lemma_occurs_split(full: Seq<char>, pos: int, a: Seq<char>, b: Seq<char>)
    requires
        occurs(full, pos, a + b),
    ensures
        occurs(full, pos, a),
        occurs(full, pos + a.len(), b),
{
    let whole = a + b;
    assert(full.subrange(pos, pos + a.len()) =~= a) by {
        assert forall|i: int| 0 <= i < a.len() implies full.subrange(pos, pos + a.len())[i]
            == a[i] by {
            assert(full.subrange(pos, pos + whole.len())[i] == whole[i]);
        }
    }
    assert(full.subrange(pos + a.len(), pos + a.len() + b.len()) =~= b) by {
        assert forall|i: int| 0 <= i < b.len() implies full.subrange(
            pos + a.len(),
            pos + a.len() + b.len(),
        )[i] == b[i] by {
            assert(full.subrange(pos, pos + whole.len())[a.len() + i] == whole[a.len() + i]);
        }
    }
}

/// The character of a text that stands somewhere stands there.
proof fn lemma_occurs_at(full: Seq<char>, pos: int, piece: Seq<char>, i: int)
    requires
        occurs(full, pos, piece),
        0 <= i < piece.len(),
    ensures
        full[pos + i] == piece[i],
{
    assert(full.subrange(pos, pos + piece.len())[i] == piece[i]);
}

/// The identifiers in either half of valid tokens are names.
proof fn lemma_valid_split(a: Seq<Lexeme>, b: Seq<Lexeme>)
    requires
        names_valid(a + b),
    ensures
        names_valid(a),
        names_valid(b),
{
    let whole = a + b;
    assert forall|i: int| 0 <= i < a.len() implies ((#[trigger] a[i]) matches Lexeme::Identifier(
        word,
    ) ==> is_name(word)) by {
        assert(whole[i] == a[i]);
    }
    assert forall|i: int| 0 <= i < b.len() implies ((#[trigger] b[i]) matches Lexeme::Identifier(
        word,
    ) ==> is_name(word)) by {
        assert(whole[a.len() + i] == b[i]);
    }
}

/// Lexing from a position is one step and then lexing from where the step
/// ends.
proof fn lemma_scan_unfold(full: Seq<char>, pos: int, ans: Option<Lexed>)
    requires
        0 <= pos < full.len(),
    ensures
        pos < step(full, pos, ans).next <= full.len(),
        scan_from(full, pos, ans) == step(full, pos, ans).out.concat(
            scan_from(full, step(full, pos, ans).next, ans),
        ),
{
    lemma_step_advances(full, pos, ans);
}

/// A step that emits one token.
proof fn lemma_scan_token(full: Seq<char>, pos: int, ans: Option<Lexed>, token: Lexeme, next: int)
    requires
        0 <= pos < full.len(),
        step(full, pos, ans) == (crate::lexer::Step { out: Lexed::token(token), next }),
    ensures
        scan_from(full, pos, ans) == tokens_then(seq![token], scan_from(full, next, ans)),
{
    lemma_scan_unfold(full, pos, ans);
    let rest = scan_from(full, next, ans);
    assert(Lexed::token(token).concat(rest).diagnostics =~= rest.diagnostics);
}

/// A blank is skipped.
proof fn lemma_scan_blank(full: Seq<char>, pos: int, ans: Option<Lexed>)
    requires
        occurs(full, pos, " "@),
    ensures
        scan_from(full, pos, ans) == scan_from(full, pos + 1, ans),
{
    reveal_strlit(" ");
    lemma_occurs_at(full, pos, " "@, 0);
    lemma_scan_unfold(full, pos, ans);
    let rest = scan_from(full, pos + 1, ans);
    assert(Lexed::empty().concat(rest).tokens =~= rest.tokens);
    assert(Lexed::empty().concat(rest).diagnostics =~= rest.diagnostics);
}

/// A run of letters ends where the first other character stands.
proof fn lemma_run_to(full: Seq<char>, pos: int, end: int)
    requires
        0 <= pos <= end <= full.len(),
        forall|i: int| pos <= i < end ==> is_letter(#[trigger] full[i]),
        no_letter(full, end),
    ensures
        run_end(full, pos) == end,
    decreases end - pos,
{
    if pos < end {
        lemma_run_to(full, pos + 1, end);
    }
}

/// A name that stands alone lexes to its identifier.
proof fn lemma_scan_name(full: Seq<char>, pos: int, name: Seq<char>, ans: Option<Lexed>)
    requires
        is_name(name),
        occurs(full, pos, name),
        no_letter(full, pos + name.len()),
    ensures
        scan_from(full, pos, ans) == tokens_then(
            seq![Lexeme::Identifier(name)],
            scan_from(full, pos + name.len(), ans),
        ),
{
    let end = pos + name.len();
    assert forall|i: int| pos <= i < end implies is_letter(#[trigger] full[i]) by {
        lemma_occurs_at(full, pos, name, i - pos);
    }
    lemma_run_to(full, pos, end);
    lemma_scan_token(full, pos, ans, Lexeme::Identifier(name), end);
}

/// A connective that stands in the text lexes to its token.
proof fn lemma_scan_op(full: Seq<char>, pos: int, op: BinOperator, ans: Option<Lexed>)
    requires
        occurs(full, pos, op_text(op)),
    ensures
        scan_from(full, pos, ans) == tokens_then(
            seq![op_lexeme(op)],
            scan_from(full, pos + op_text(op).len(), ans),
        ),
{
    reveal_strlit("&");
    reveal_strlit("|");
    reveal_strlit("->");
    reveal_strlit("<->");
    let text = op_text(op);
    lemma_occurs_at(full, pos, text, 0);
    match op {
        BinOperator::And => {},
        BinOperator::Or => {},
        BinOperator::Arrow => {
            lemma_occurs_at(full, pos, text, 1);
        },
        BinOperator::TwinArrow => {
            lemma_occurs_at(full, pos, text, 1);
            lemma_occurs_at(full, pos, text, 2);
        },
    }
    lemma_scan_token(full, pos, ans, op_lexeme(op), pos + text.len());
}

/// A connective between blanks lexes to its token.
proof fn lemma_scan_spaced_op(full: Seq<char>, pos: int, op: BinOperator, ans: Option<Lexed>)
    requires
        occurs(full, pos, " "@ + op_text(op) + " "@),
    ensures
        scan_from(full, pos, ans) == tokens_then(
            seq![op_lexeme(op)],
            scan_from(full, pos + op_text(op).len() + 2, ans),
        ),
{
    reveal_strlit(" ");
    lemma_occurs_split(full, pos, " "@ + op_text(op), " "@);
    lemma_occurs_split(full, pos, " "@, op_text(op));
    lemma_scan_blank(full, pos, ans);
    lemma_scan_op(full, pos + 1, op, ans);
    lemma_scan_blank(full, pos + 1 + op_text(op).len(), ans);
}

/// ` => ` lexes to the rule arrow.
proof fn lemma_scan_rule_arrow(full: Seq<char>, pos: int, ans: Option<Lexed>)
    requires
        occurs(full, pos, " => "@),
    ensures
        scan_from(full, pos, ans) == tokens_then(seq![Lexeme::Rule], scan_from(full, pos + 4, ans)),
{
    reveal_strlit(" => ");
    reveal_strlit(" ");
    let text = " => "@;
    lemma_occurs_at(full, pos, text, 0);
    lemma_occurs_at(full, pos, text, 1);
    lemma_occurs_at(full, pos, text, 2);
    lemma_occurs_at(full, pos, text, 3);
    assert(occurs(full, pos, " "@)) by {
        assert(full.subrange(pos, pos + 1) =~= " "@);
    }
    assert(occurs(full, pos + 3, " "@)) by {
        assert(full.subrange(pos + 3, pos + 4) =~= " "@);
    }
    lemma_scan_blank(full, pos, ans);
    lemma_scan_token(full, pos + 1, ans, Lexeme::Rule, pos + 3);
    lemma_scan_blank(full, pos + 3, ans);
}

/// ` := ` lexes to the binding sign.
proof fn lemma_scan_binding_sign(full: Seq<char>, pos: int, ans: Option<Lexed>)
    requires
        occurs(full, pos, " := "@),
    ensures
        scan_from(full, pos, ans) == tokens_then(
            seq![Lexeme::Binding],
            scan_from(full, pos + 4, ans),
        ),
{
    reveal_strlit(" := ");
    reveal_strlit(" ");
    let text = " := "@;
    lemma_occurs_at(full, pos, text, 0);
    lemma_occurs_at(full, pos, text, 1);
    lemma_occurs_at(full, pos, text, 2);
    lemma_occurs_at(full, pos, text, 3);
    assert(occurs(full, pos, " "@)) by {
        assert(full.subrange(pos, pos + 1) =~= " "@);
    }
    assert(occurs(full, pos + 3, " "@)) by {
        assert(full.subrange(pos + 3, pos + 4) =~= " "@);
    }
    lemma_scan_blank(full, pos, ans);
    lemma_scan_token(full, pos + 1, ans, Lexeme::Binding, pos + 3);
    lemma_scan_blank(full, pos + 3, ans);
}

/// ` = ` lexes to the equal sign.
proof fn lemma_scan_equal_sign(full: Seq<char>, pos: int, ans: Option<Lexed>)
    requires
        occurs(full, pos, " = "@),
    ensures
        scan_from(full, pos, ans) == tokens_then(
            seq![Lexeme::Equal],
            scan_from(full, pos + 3, ans),
        ),
{
    reveal_strlit(" = ");
    reveal_strlit(" ");
    let text = " = "@;
    lemma_occurs_at(full, pos, text, 0);
    lemma_occurs_at(full, pos, text, 1);
    lemma_occurs_at(full, pos, text, 2);
    assert(occurs(full, pos, " "@)) by {
        assert(full.subrange(pos, pos + 1) =~= " "@);
    }
    assert(occurs(full, pos + 2, " "@)) by {
        assert(full.subrange(pos + 2, pos + 3) =~= " "@);
    }
    lemma_scan_blank(full, pos, ans);
    lemma_scan_token(full, pos + 1, ans, Lexeme::Equal, pos + 2);
    lemma_scan_blank(full, pos + 2, ans);
}

/// The text of a tree, where it stands in a longer text with no letter
/// right behind it, lexes to the tokens that spell the tree.
pub proof fn lemma_scan_expr(
    full: Seq<char>,
    pos: int,
    expr: Expr,
    names: Seq<Seq<char>>,
    ans: Option<Lexed>,
)
    requires
        expr.named_below(names.len()),
        names_valid(spelled(expr, names)),
        occurs(full, pos, expr_text(expr, names)),
        no_letter(full, pos + expr_text(expr, names).len()),
    ensures
        scan_from(full, pos, ans) == tokens_then(
            spelled(expr, names),
            scan_from(full, pos + expr_text(expr, names).len(), ans),
        ),
    decreases expr,
{
    reveal_strlit(" ");
    reveal_strlit("~");
    reveal_strlit("(");
    reveal_strlit(")");
    reveal_strlit(" => ");
    reveal_strlit(" := ");
    let text = expr_text(expr, names);
    let end = pos + text.len();
    let rest = scan_from(full, end, ans);
    match expr {
        Expr::Primary(n) => {
            let token = Lexeme::Identifier(names[n as int]);
            assert(spelled(expr, names)[0] == token);
            lemma_scan_name(full, pos, names[n as int], ans);
        },
        Expr::Not(e) => {
            let inner = expr_text(*e, names);
            lemma_occurs_split(full, pos, "~"@, inner);
            lemma_occurs_at(full, pos, "~"@, 0);
            lemma_valid_split(seq![Lexeme::Not], spelled(*e, names));
            lemma_scan_token(full, pos, ans, Lexeme::Not, pos + 1);
            lemma_scan_expr(full, pos + 1, *e, names, ans);
            lemma_then_then(seq![Lexeme::Not], spelled(*e, names), rest);
        },
        Expr::Group(e) => {
            let inner = expr_text(*e, names);
            lemma_occurs_split(full, pos, "("@ + inner, ")"@);
            lemma_occurs_split(full, pos, "("@, inner);
            lemma_occurs_at(full, pos, "("@, 0);
            lemma_occurs_at(full, pos + 1 + inner.len(), ")"@, 0);
            lemma_valid_split(
                seq![Lexeme::OpenParen] + spelled(*e, names),
                seq![Lexeme::CloseParen],
            );
            lemma_valid_split(seq![Lexeme::OpenParen], spelled(*e, names));
            lemma_scan_token(full, pos, ans, Lexeme::OpenParen, pos + 1);
            lemma_scan_expr(full, pos + 1, *e, names, ans);
            lemma_scan_token(full, pos + 1 + inner.len(), ans, Lexeme::CloseParen, end);
            lemma_then_then(spelled(*e, names), seq![Lexeme::CloseParen], rest);
            lemma_then_then(
                seq![Lexeme::OpenParen],
                spelled(*e, names) + seq![Lexeme::CloseParen],
                rest,
            );
            assert(seq![Lexeme::OpenParen] + (spelled(*e, names) + seq![Lexeme::CloseParen])
                =~= spelled(expr, names));
        },
        Expr::Binary(l, op, r) => {
            let left = expr_text(*l, names);
            let right = expr_text(*r, names);
            let sign = " "@ + op_text(op) + " "@;
            assert(text =~= left + sign + right);
            lemma_occurs_split(full, pos, left + sign, right);
            lemma_occurs_split(full, pos, left, sign);
            lemma_occurs_at(full, pos + left.len(), sign, 0);
            lemma_valid_split(spelled(*l, names) + seq![op_lexeme(op)], spelled(*r, names));
            lemma_valid_split(spelled(*l, names), seq![op_lexeme(op)]);
            lemma_scan_expr(full, pos, *l, names, ans);
            lemma_scan_spaced_op(full, pos + left.len(), op, ans);
            lemma_scan_expr(full, pos + left.len() + sign.len(), *r, names, ans);
            lemma_then_then(seq![op_lexeme(op)], spelled(*r, names), rest);
            lemma_then_then(spelled(*l, names), seq![op_lexeme(op)] + spelled(*r, names), rest);
            assert(spelled(*l, names) + (seq![op_lexeme(op)] + spelled(*r, names)) =~= spelled(
                expr,
                names,
            ));
        },
        Expr::Pattern(e, rule) => {
            let left = expr_text(*e, names);
            let right = rule_text(*rule, names);
            lemma_occurs_split(full, pos, left + " => "@, right);
            lemma_occurs_split(full, pos, left, " => "@);
            lemma_occurs_at(full, pos + left.len(), " => "@, 0);
            lemma_valid_split(spelled(*e, names) + seq![Lexeme::Rule], rule_spelled(*rule, names));
            lemma_valid_split(spelled(*e, names), seq![Lexeme::Rule]);
            lemma_scan_expr(full, pos, *e, names, ans);
            lemma_scan_rule_arrow(full, pos + left.len(), ans);
            lemma_scan_rule(full, pos + left.len() + 4, *rule, names, ans);
            lemma_then_then(seq![Lexeme::Rule], rule_spelled(*rule, names), rest);
            lemma_then_then(
                spelled(*e, names),
                seq![Lexeme::Rule] + rule_spelled(*rule, names),
                rest,
            );
            assert(spelled(*e, names) + (seq![Lexeme::Rule] + rule_spelled(*rule, names))
                =~= spelled(expr, names));
        },
        Expr::Binding(id, rule) => {
            let left = expr_text(*id, names);
            let right = rule_text(*rule, names);
            lemma_occurs_split(full, pos, left + " := "@, right);
            lemma_occurs_split(full, pos, left, " := "@);
            lemma_occurs_at(full, pos + left.len(), " := "@, 0);
            lemma_valid_split(
                spelled(*id, names) + seq![Lexeme::Binding],
                rule_spelled(*rule, names),
            );
            lemma_valid_split(spelled(*id, names), seq![Lexeme::Binding]);
            lemma_scan_expr(full, pos, *id, names, ans);
            lemma_scan_binding_sign(full, pos + left.len(), ans);
            lemma_scan_rule(full, pos + left.len() + 4, *rule, names, ans);
            lemma_then_then(seq![Lexeme::Binding], rule_spelled(*rule, names), rest);
            lemma_then_then(
                spelled(*id, names),
                seq![Lexeme::Binding] + rule_spelled(*rule, names),
                rest,
            );
            assert(spelled(*id, names) + (seq![Lexeme::Binding] + rule_spelled(*rule, names))
                =~= spelled(expr, names));
        },
    }
}

/// The text of a rule, where it stands in a longer text with no letter
/// right behind it, lexes to the tokens that spell the rule.
pub proof fn lemma_scan_rule(
    full: Seq<char>,
    pos: int,
    rule: Rule,
    names: Seq<Seq<char>>,
    ans: Option<Lexed>,
)
    requires
        rule.named_below(names.len()),
        names_valid(rule_spelled(rule, names)),
        occurs(full, pos, rule_text(rule, names)),
        no_letter(full, pos + rule_text(rule, names).len()),
    ensures
        scan_from(full, pos, ans) == tokens_then(
            rule_spelled(rule, names),
            scan_from(full, pos + rule_text(rule, names).len(), ans),
        ),
    decreases rule,
{
    reveal_strlit(" = ");
    let text = rule_text(rule, names);
    let rest = scan_from(full, pos + text.len(), ans);
    match rule {
        Rule::Equivalence(lhs, rhs) => {
            let left = expr_text(lhs, names);
            let right = expr_text(rhs, names);
            lemma_occurs_split(full, pos, left + " = "@, right);
            lemma_occurs_split(full, pos, left, " = "@);
            lemma_occurs_at(full, pos + left.len(), " = "@, 0);
            lemma_valid_split(spelled(lhs, names) + seq![Lexeme::Equal], spelled(rhs, names));
            lemma_valid_split(spelled(lhs, names), seq![Lexeme::Equal]);
            lemma_scan_expr(full, pos, lhs, names, ans);
            lemma_scan_equal_sign(full, pos + left.len(), ans);
            lemma_scan_expr(full, pos + left.len() + 3, rhs, names, ans);
            lemma_then_then(seq![Lexeme::Equal], spelled(rhs, names), rest);
            lemma_then_then(spelled(lhs, names), seq![Lexeme::Equal] + spelled(rhs, names), rest);
            assert(spelled(lhs, names) + (seq![Lexeme::Equal] + spelled(rhs, names))
                =~= rule_spelled(rule, names));
        },
        Rule::RuleId(n) => {
            let token = Lexeme::Identifier(names[n as int]);
            assert(rule_spelled(rule, names)[0] == token);
            lemma_scan_name(full, pos, names[n as int], ans);
        },
    }
}

/// Valid tokens behind valid tokens are valid tokens.
proof fn lemma_valid_join(a: Seq<Lexeme>, b: Seq<Lexeme>)
    requires
        names_valid(a),
        names_valid(b),
    ensures
        names_valid(a + b),
{
    let whole = a + b;
    assert forall|i: int| 0 <= i < whole.len() implies ((#[trigger] whole[i])
        matches Lexeme::Identifier(word) ==> is_name(word)) by {
        if i < a.len() {
            assert(whole[i] == a[i]);
        } else {
            assert(whole[i] == b[i - a.len()]);
        }
    }
}

/// The identifiers that the lexer gives are names, as long as the letters
/// `ans` do not stand in a text in which `ans` is a word like any other.
pub proof fn lemma_scan_names(text: Seq<char>, pos: int, ans: Option<Lexed>)
    requires
        0 <= pos,
        ans matches Some(expansion) ==> names_valid(expansion.tokens),
        ans is None ==> !holds_ans(text),
    ensures
        names_valid(scan_from(text, pos, ans).tokens),
    decreases text.len() - pos,
{
    reveal_strlit("ans");
    if pos < text.len() {
        lemma_step_advances(text, pos, ans);
        lemma_run_end(text, pos);
        let s = step(text, pos, ans);
        let end = run_end(text, pos);
        let word = text.subrange(pos, end);
        if is_letter(text[pos]) {
            if word == "ans"@ {
                assert(word.len() == 3);
                assert(text.subrange(pos, pos + 3) == "ans"@);
            } else if word_lexeme(word) == Lexeme::Identifier(word) {
                assert forall|i: int| 0 <= i < word.len() implies is_letter(#[trigger] word[i]) by {
                    assert(word[i] == text[pos + i]);
                }
                assert(is_name(word));
            }
        }
        assert(names_valid(s.out.tokens));
        lemma_scan_names(text, s.next, ans);
        lemma_valid_join(s.out.tokens, scan_from(text, s.next, ans).tokens);
    }
}

/// The identifiers among the tokens of a line are names, if the letters
/// `ans` do not stand in the previous text nor, where there is no previous
/// text, in the line.
pub proof fn lemma_lexed_names(line: Seq<char>, prev: Seq<char>)
    requires
        !holds_ans(prev),
        prev.len() == 0 ==> !holds_ans(line),
    ensures
        names_valid(lex(line, prev).tokens),
{
    lemma_scan_names(prev, 0, None);
    if prev.len() > 0 {
        lemma_scan_names(line, 0, Some(scan_from(prev, 0, None)));
    } else {
        lemma_scan_names(line, 0, None);
    }
}

/// Printing and reading back: where the tokens of a line parse to a tree,
/// and every identifier among them is a name, the text of the tree lexes to
/// those very tokens, without a diagnostic, whatever `ans` stands for.  So
/// the text parses to the same tree, with the same table of names, as the
/// line did.  Parentheses are part of the tree, so none is added and none
/// is lost on the way.
pub proof fn lemma_round_trip(tokens: Seq<Lexeme>, prev: Seq<char>)
    requires
        tokens.len() <= usize::MAX,
        names_valid(tokens),
        spec_parse(tokens, Seq::empty()).result is Ok,
    ensures
        ({
            let parsed = spec_parse(tokens, Seq::empty());
            let text = expr_text(parsed.result->Ok_0, parsed.names);
            &&& lex(text, prev) == (Lexed { tokens, diagnostics: Seq::empty() })
            &&& spec_parse(lex(text, prev).tokens, Seq::empty()) == parsed
        }),
{
    let parsed = spec_parse(tokens, Seq::empty());
    let expr = parsed.result->Ok_0;
    let text = expr_text(expr, parsed.names);
    lemma_parse_sound(tokens, Seq::empty());
    let ans = if prev.len() > 0 {
        Some(scan_from(prev, 0, None))
    } else {
        None
    };
    assert(occurs(text, 0, text)) by {
        assert(text.subrange(0, text.len() as int) =~= text);
    }
    lemma_scan_expr(text, 0, expr, parsed.names, ans);
    assert(tokens + Seq::<Lexeme>::empty() =~= tokens);
}

} // verus!
