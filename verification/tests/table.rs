use plogic::lexer::{tokenize, Token};
use plogic::parser::{parse, BinOperator, Expr};
use plogic::runtime::{check_tabulable, power_of_two, Table};
use plogic::utils::expr_to_string;

fn read(line: &str) -> (Expr, Vec<String>) {
    let mut tokens: Vec<Token> = Vec::new();
    let diagnostics = tokenize(&mut tokens, &mut line.to_string(), &mut String::new());
    assert!(diagnostics.is_empty());
    let mut interned = Vec::new();
    let expr = parse(&mut tokens, &mut interned).expect("the line is a statement");
    (expr, interned)
}

fn table_of(line: &str) -> Table {
    let (expr, interned) = read(line);
    assert!(check_tabulable(&expr));
    let mut table = Table::new(&interned);
    table.generate_truthtable(expr);
    table
}

/// The columns as they are laid out, each with the text of its formula.
fn layout(table: &Table) -> Vec<(String, Vec<usize>)> {
    table
        .sort()
        .into_iter()
        .map(|(expr, values)| (expr_to_string(expr, table.interned()), values.clone()))
        .collect()
}

fn col(text: &str, values: &[usize]) -> (String, Vec<usize>) {
    (text.to_string(), values.to_vec())
}

fn binary(l: Expr, op: BinOperator, r: Expr) -> Expr {
    Expr::Binary(Box::new(l), op, Box::new(r))
}

#[test]
fn powers_of_two() {
    assert_eq!(power_of_two(0), Some(1));
    assert_eq!(power_of_two(1), Some(2));
    assert_eq!(power_of_two(3), Some(8));
    assert_eq!(power_of_two(10), Some(1024));
    let bits = usize::BITS as usize;
    assert_eq!(power_of_two(bits - 1), Some(1usize << (bits - 1)));
    assert_eq!(power_of_two(bits), None);
    assert_eq!(power_of_two(bits + 7), None);
    assert_eq!(power_of_two(usize::MAX), None);
}

#[test]
fn new_table_is_empty() {
    let interned = vec!["p".to_string()];
    let table = Table::new(&interned);
    assert_eq!(table.rows(), 0);
    assert!(table.atoms().is_empty());
    assert!(table.sort().is_empty());
    assert_eq!(table.interned(), &interned);
    assert_eq!(table.column(&Expr::Primary(0)), None);
}

#[test]
fn table_of_one_atom() {
    let table = table_of("p");
    assert_eq!(table.rows(), 2);
    assert_eq!(table.atoms(), &vec![0]);
    assert_eq!(layout(&table), vec![col("p", &[0, 1])]);
}

#[test]
fn first_atom_changes_with_every_row() {
    let table = table_of("p & q & r");
    assert_eq!(table.rows(), 8);
    assert_eq!(table.column(&Expr::Primary(0)), Some(&vec![0, 1, 0, 1, 0, 1, 0, 1]));
    assert_eq!(table.column(&Expr::Primary(1)), Some(&vec![0, 0, 1, 1, 0, 0, 1, 1]));
    assert_eq!(table.column(&Expr::Primary(2)), Some(&vec![0, 0, 0, 0, 1, 1, 1, 1]));
}

#[test]
fn rows_double_with_every_atom() {
    assert_eq!(table_of("a").rows(), 2);
    assert_eq!(table_of("a & b").rows(), 4);
    assert_eq!(table_of("a & b | c").rows(), 8);
    assert_eq!(table_of("a & b | c -> d").rows(), 16);
    assert_eq!(table_of("a & b | c -> d <-> e").rows(), 32);
    // an atom that occurs again adds no rows
    assert_eq!(table_of("a & b | a -> b <-> a").rows(), 4);
}

#[test]
fn atom_columns_run_through_every_assignment_once() {
    let table = table_of("a & b | c -> d");
    let atoms = table.atoms().clone();
    assert_eq!(atoms, vec![0, 1, 2, 3]);
    let mut seen = vec![false; 16];
    for row in 0..table.rows() {
        let mut code = 0;
        for (j, atom) in atoms.iter().enumerate() {
            let bit = table.column(&Expr::Primary(*atom)).unwrap()[row];
            assert!(bit == 0 || bit == 1);
            code += bit << j;
        }
        // the atoms of a row spell the number of the row in binary
        assert_eq!(code, row);
        assert!(!seen[code]);
        seen[code] = true;
    }
    assert!(seen.iter().all(|s| *s));
}

#[test]
fn conjunction_table() {
    assert_eq!(
        layout(&table_of("p & q")),
        vec![col("q", &[0, 0, 1, 1]), col("p", &[0, 1, 0, 1]), col("p & q", &[0, 0, 0, 1])]
    );
}

#[test]
fn disjunction_table() {
    assert_eq!(
        layout(&table_of("p | q")),
        vec![col("q", &[0, 0, 1, 1]), col("p", &[0, 1, 0, 1]), col("p | q", &[0, 1, 1, 1])]
    );
}

#[test]
fn implication_table() {
    // 0 only from 1 to 0: p = 1 and q = 0 is row 1
    assert_eq!(
        layout(&table_of("p -> q")),
        vec![col("q", &[0, 0, 1, 1]), col("p", &[0, 1, 0, 1]), col("p -> q", &[1, 0, 1, 1])]
    );
}

#[test]
fn equivalence_table() {
    assert_eq!(
        layout(&table_of("p <-> q")),
        vec![col("q", &[0, 0, 1, 1]), col("p", &[0, 1, 0, 1]), col("p <-> q", &[1, 0, 0, 1])]
    );
}

#[test]
fn negation_table() {
    assert_eq!(layout(&table_of("~p")), vec![col("p", &[0, 1]), col("~p", &[1, 0])]);
}

#[test]
fn parenthesised_formula_has_no_column_of_its_own() {
    let table = table_of("(p & q) | r");
    assert_eq!(
        layout(&table),
        vec![
            col("r", &[0, 0, 0, 0, 1, 1, 1, 1]),
            col("q", &[0, 0, 1, 1, 0, 0, 1, 1]),
            col("p", &[0, 1, 0, 1, 0, 1, 0, 1]),
            col("p & q", &[0, 0, 0, 1, 0, 0, 0, 1]),
            col("(p & q) | r", &[0, 0, 0, 1, 1, 1, 1, 1]),
        ]
    );
    let inner = binary(Expr::Primary(0), BinOperator::And, Expr::Primary(1));
    assert!(table.column(&inner).is_some());
    assert_eq!(table.column(&Expr::Group(Box::new(inner))), None);
}

#[test]
fn formula_that_is_only_parentheses_shows_what_is_inside() {
    assert_eq!(layout(&table_of("(p)")), vec![col("p", &[0, 1])]);
    assert_eq!(layout(&table_of("((~p))")), vec![col("p", &[0, 1]), col("~p", &[1, 0])]);
}

#[test]
fn formula_that_occurs_twice_has_one_column() {
    assert_eq!(
        layout(&table_of("p & q | p & q")),
        vec![
            col("q", &[0, 0, 1, 1]),
            col("p", &[0, 1, 0, 1]),
            col("p & q", &[0, 0, 0, 1]),
            col("p & q | p & q", &[0, 0, 0, 1]),
        ]
    );
}

#[test]
fn tautology_and_contradiction() {
    let table = table_of("p | ~p");
    assert_eq!(layout(&table).last().unwrap(), &col("p | ~p", &[1, 1]));
    let table = table_of("p & ~p");
    assert_eq!(layout(&table).last().unwrap(), &col("p & ~p", &[0, 0]));
}

#[test]
fn modus_ponens_is_a_tautology() {
    let table = table_of("(p & (p -> q)) -> q");
    assert_eq!(layout(&table).last().unwrap().1, vec![1, 1, 1, 1]);
}

#[test]
fn atoms_get_their_columns_by_index_not_by_occurrence() {
    // a tree as no parser gives it: its atoms are 5 and 2
    let expr = binary(Expr::Primary(5), BinOperator::Arrow, Expr::Primary(2));
    assert!(check_tabulable(&expr));
    let mut table = Table::new(&Vec::new());
    table.generate_truthtable(expr);
    assert_eq!(table.atoms(), &vec![2, 5]);
    assert_eq!(table.rows(), 4);
    assert_eq!(table.column(&Expr::Primary(2)), Some(&vec![0, 1, 0, 1]));
    assert_eq!(table.column(&Expr::Primary(5)), Some(&vec![0, 0, 1, 1]));
    let whole = binary(Expr::Primary(5), BinOperator::Arrow, Expr::Primary(2));
    // 5 -> 2 is 0 where 5 is 1 and 2 is 0: row 2
    assert_eq!(table.column(&whole), Some(&vec![1, 1, 0, 1]));
}

#[test]
fn evaluating_twice_gives_the_same_table() {
    let first = table_of("(p -> q) & ~r | p");
    let second = table_of("(p -> q) & ~r | p");
    assert_eq!(first.rows(), second.rows());
    assert_eq!(first.atoms(), second.atoms());
    assert_eq!(layout(&first), layout(&second));
}

#[test]
fn table_can_be_filled_again() {
    let (expr, interned) = read("(p -> q) & ~r | p");
    let mut table = Table::new(&interned);
    table.generate_truthtable(expr.clone());
    let first = layout(&table);
    table.generate_truthtable(expr);
    assert_eq!(layout(&table), first);
    // and with another formula it forgets the first
    let (other, _) = read("p");
    table.generate_truthtable(other);
    assert_eq!(layout(&table), vec![col("p", &[0, 1])]);
}

#[test]
fn layout_runs_from_the_last_formula_to_the_first() {
    let table = table_of("~p & (q | p)");
    let texts: Vec<String> = layout(&table).into_iter().map(|(text, _)| text).collect();
    // atoms first, the highest index first; then negations, then the rest
    assert_eq!(texts, vec!["q", "p", "~p", "q | p", "~p & (q | p)"]);
}

#[test]
fn statements_are_not_tabulable() {
    assert!(check_tabulable(&read("p & q").0));
    assert!(!check_tabulable(&read("p => a = b").0));
    assert!(!check_tabulable(&read("n := a = b").0));
}

#[test]
fn more_atoms_than_bits_are_not_tabulable() {
    let bits = usize::BITS as usize;
    let mut wide = Expr::Primary(0);
    for n in 1..bits {
        wide = binary(wide, BinOperator::Or, Expr::Primary(n));
    }
    // as many atoms as bits: the rows cannot be counted
    assert!(!check_tabulable(&wide));
    let mut narrow = Expr::Primary(0);
    for n in 1..bits - 1 {
        narrow = binary(narrow, BinOperator::Or, Expr::Primary(n));
    }
    assert!(check_tabulable(&narrow));
}
