use plogic::lexer::{tokenize, Token};
use plogic::order::{place_of, Place};
use plogic::parser::{parse, BinOperator, Expr};
use plogic::runtime::{check_tabulable, Table};
use plogic::utils::expr_to_string;
use std::cmp::Ordering;

/// A small generator of numbers that gives the same run every time.
struct Numbers(u64);

impl Numbers {
    fn next(&mut self) -> u64 {
        self.0 = self.0.wrapping_mul(6364136223846793005).wrapping_add(1442695040888963407);
        self.0 >> 33
    }

    fn below(&mut self, limit: u64) -> u64 {
        self.next() % limit
    }
}

const NAMES: [&str; 5] = ["p", "q", "r", "rain", "Wet"];

/// The text of a formula made at random, with parentheses wherever the
/// grammar could need them.
fn formula(numbers: &mut Numbers, depth: u32) -> String {
    if depth == 0 || numbers.below(4) == 0 {
        return NAMES[numbers.below(NAMES.len() as u64) as usize].to_string();
    }
    match numbers.below(6) {
        0 => format!("~{}", operand(numbers, depth - 1)),
        1 => format!("({})", formula(numbers, depth - 1)),
        n => {
            let op = ["&", "|", "->", "<->"][(n - 2) as usize];
            format!("{} {} {}", operand(numbers, depth - 1), op, operand(numbers, depth - 1))
        }
    }
}

/// A formula that can stand under any connective: an atom, a negation or
/// something in parentheses.
fn operand(numbers: &mut Numbers, depth: u32) -> String {
    let text = formula(numbers, depth);
    let simple = text.chars().all(|c| c.is_ascii_alphabetic() || c == '~');
    if simple || text.starts_with('(') && closes_at_end(&text) {
        text
    } else {
        format!("({})", text)
    }
}

/// Whether the parenthesis that opens `text` closes at its end.
fn closes_at_end(text: &str) -> bool {
    let mut depth = 0;
    for (i, c) in text.chars().enumerate() {
        match c {
            '(' => depth += 1,
            ')' => {
                depth -= 1;
                if depth == 0 {
                    return i + 1 == text.chars().count();
                }
            }
            _ => {}
        }
    }
    false
}

fn read(line: &str) -> (Expr, Vec<String>) {
    let mut tokens: Vec<Token> = Vec::new();
    let diagnostics = tokenize(&mut tokens, &mut line.to_string(), &mut String::new());
    assert!(diagnostics.is_empty(), "{}", line);
    let mut interned = Vec::new();
    let expr = parse(&mut tokens, &mut interned).expect(line);
    (expr, interned)
}

/// Whether `expr` holds where bit `n` of `row` says whether atom `n` does.
fn holds(expr: &Expr, row: usize) -> bool {
    match expr {
        Expr::Primary(n) => (row >> n) & 1 == 1,
        Expr::Not(e) => !holds(e, row),
        Expr::Group(e) => holds(e, row),
        Expr::Binary(l, op, r) => {
            let (a, b) = (holds(l, row), holds(r, row));
            match op {
                BinOperator::And => a && b,
                BinOperator::Or => a || b,
                BinOperator::Arrow => !a || b,
                BinOperator::TwinArrow => a == b,
            }
        }
        other => panic!("no formula: {:?}", other),
    }
}

/// The formulas inside `expr`, itself among them.
fn inside<'a>(expr: &'a Expr, found: &mut Vec<&'a Expr>) {
    found.push(expr);
    match expr {
        Expr::Not(e) | Expr::Group(e) => inside(e, found),
        Expr::Binary(l, _, r) => {
            inside(l, found);
            inside(r, found);
        }
        _ => {}
    }
}

#[test]
fn generated_formulas_print_as_they_were_written() {
    let mut numbers = Numbers(1);
    for _ in 0..300 {
        let text = formula(&mut numbers, 4);
        let (expr, interned) = read(&text);
        assert_eq!(expr_to_string(&expr, &interned), text);
        let (again, interned_again) = read(&expr_to_string(&expr, &interned));
        assert_eq!(again, expr);
        assert_eq!(interned_again, interned);
    }
}

#[test]
fn generated_tables_hold_the_truth_values() {
    let mut numbers = Numbers(2);
    for _ in 0..200 {
        let text = formula(&mut numbers, 4);
        let (expr, interned) = read(&text);
        assert!(check_tabulable(&expr));
        let mut table = Table::new(&interned);
        table.generate_truthtable(expr.clone());

        // the atoms of a parsed formula are numbered without gaps
        let atoms: Vec<usize> = (0..interned.len()).collect();
        assert_eq!(table.atoms(), &atoms);
        assert_eq!(table.rows(), 1 << interned.len());

        let mut parts = Vec::new();
        inside(&expr, &mut parts);
        for part in &parts {
            match part {
                Expr::Group(_) => assert_eq!(table.column(part), None),
                _ => {
                    let column = table.column(part).expect("every part has a column");
                    assert_eq!(column.len(), table.rows());
                    for row in 0..table.rows() {
                        assert_eq!(column[row], holds(part, row) as usize, "{} row {}", text, row);
                    }
                }
            }
        }

        // and there is no column beside those
        let list = table.sort();
        for (shown, _) in &list {
            assert!(parts.iter().any(|part| part == shown));
        }
        for pair in list.windows(2) {
            assert_eq!(pair[0].0.cmp(pair[1].0), Ordering::Greater);
        }
    }
}

#[test]
fn generated_trees_are_ordered_as_the_derived_order_says() {
    let mut numbers = Numbers(3);
    let mut trees = Vec::new();
    for _ in 0..60 {
        // one table of names for all, so that the indices can be compared
        let text = formula(&mut numbers, 3);
        let mut tokens: Vec<Token> = Vec::new();
        tokenize(&mut tokens, &mut text.clone(), &mut String::new());
        let mut interned: Vec<String> = NAMES.iter().map(|n| n.to_string()).collect();
        trees.push(parse(&mut tokens, &mut interned).expect(&text));
    }
    for a in &trees {
        for b in &trees {
            let expected = match a.cmp(b) {
                Ordering::Less => Place::Before,
                Ordering::Equal => Place::Same,
                Ordering::Greater => Place::After,
            };
            assert_eq!(place_of(a, b), expected);
        }
    }
}
