//! Splitting formula text into tokens.

use vstd::prelude::*;

verus! {

/// One lexical unit of a formula.
#[derive(Debug, PartialEq, Eq, Hash)]
pub enum Token {
    /// A maximal run of letters that is not a keyword.
    Identifier(String),
    /// `~` or `not`
    Not,
    /// `&` or `and`
    And,
    /// `|` or `or`
    Or,
    /// `->` or `implies`
    Arrow,
    /// `<->` or `equiv`
    TwinArrow,
    /// `=>` or `rule`
    Rule,
    /// `:=`
    Binding,
    /// `(`
    OpenParen,
    /// `)`
    CloseParen,
    /// `=`
    Equal,
}

/// What a [`Token`] stands for: the same variants, with the identifier's
/// name as a sequence of characters.
pub enum Lexeme {
    Identifier(Seq<char>),
    Not,
    And,
    Or,
    Arrow,
    TwinArrow,
    Rule,
    Binding,
    OpenParen,
    CloseParen,
    Equal,
}

impl View for Token {
    type V = Lexeme;

    open spec fn view(&self) -> Lexeme {
        match self {
            Token::Identifier(name) => Lexeme::Identifier(name@),
            Token::Not => Lexeme::Not,
            Token::And => Lexeme::And,
            Token::Or => Lexeme::Or,
            Token::Arrow => Lexeme::Arrow,
            Token::TwinArrow => Lexeme::TwinArrow,
            Token::Rule => Lexeme::Rule,
            Token::Binding => Lexeme::Binding,
            Token::OpenParen => Lexeme::OpenParen,
            Token::CloseParen => Lexeme::CloseParen,
            Token::Equal => Lexeme::Equal,
        }
    }
}

/// The lexemes of a sequence of tokens.
pub open spec fn lexemes(tokens: Seq<Token>) -> Seq<Lexeme> {
    Seq::new(tokens.len(), |i: int| tokens[i]@)
}

/// A recoverable complaint of the lexer.  The characters it names were
/// skipped and lexing went on behind them.
#[derive(Debug, PartialEq, Eq, Clone, Copy)]
pub enum LexDiagnostic {
    /// A character that starts no token, or one that follows `-` where
    /// only `>` can.
    UnexpectedChar(char),
    /// The text ended right behind a `-`.
    UnexpectedEnd,
    /// A `:` was followed by this instead of `=`.
    ExpectedEqual(Option<char>),
    /// A `<` did not go on as `<->`: this character of the arrow was not
    /// found where it belongs.
    BrokenTwinArrow(char),
}

/// What lexing some text yields: its tokens and, beside them, the
/// diagnostics in the order in which they arose.
pub struct Lexed {
    pub tokens: Seq<Lexeme>,
    pub diagnostics: Seq<LexDiagnostic>,
}

impl Lexed {
    pub open spec fn empty() -> Lexed {
        Lexed { tokens: Seq::empty(), diagnostics: Seq::empty() }
    }

    pub open spec fn token(t: Lexeme) -> Lexed {
        Lexed { tokens: seq![t], diagnostics: Seq::empty() }
    }

    pub open spec fn diagnostic(d: LexDiagnostic) -> Lexed {
        Lexed { tokens: Seq::empty(), diagnostics: seq![d] }
    }

    /// `self` followed by `other`.
    pub open spec fn concat(self, other: Lexed) -> Lexed {
        Lexed {
            tokens: self.tokens + other.tokens,
            diagnostics: self.diagnostics + other.diagnostics,
        }
    }
}

/// What the lexer does at one position: what it emits there and where it
/// goes on.
pub struct Step {
    pub out: Lexed,
    pub next: int,
}

pub open spec fn is_letter(c: char) -> bool {
    ('a' <= c && c <= 'z') || ('A' <= c && c <= 'Z')
}

pub open spec fn is_blank(c: char) -> bool {
    c == ' ' || c == '\t' || c == '\n'
}

/// The end of the run of letters that starts at `pos`.
pub open spec fn run_end(text: Seq<char>, pos: int) -> int
    decreases text.len() - pos,
{
    if 0 <= pos < text.len() && is_letter(text[pos]) {
        run_end(text, pos + 1)
    } else {
        pos
    }
}

/// The character at `pos`, if the text reaches that far.
pub open spec fn char_at(text: Seq<char>, pos: int) -> Option<char> {
    if 0 <= pos < text.len() {
        Some(text[pos])
    } else {
        None
    }
}

/// The token that a run of letters stands for, apart from `ans`.
pub open spec fn word_lexeme(word: Seq<char>) -> Lexeme {
    if word == "and"@ {
        Lexeme::And
    } else if word == "or"@ {
        Lexeme::Or
    } else if word == "not"@ {
        Lexeme::Not
    } else if word == "implies"@ {
        Lexeme::Arrow
    } else if word == "equiv"@ {
        Lexeme::TwinArrow
    } else if word == "rule"@ {
        Lexeme::Rule
    } else {
        Lexeme::Identifier(word)
    }
}

/// A run of letters: `ans` gives way to what `ans` stands for, if it
/// stands for anything; every other word is a keyword or an identifier.
pub open spec fn word_out(word: Seq<char>, ans: Option<Lexed>) -> Lexed {
    if word == "ans"@ && ans is Some {
        ans->Some_0
    } else {
        Lexed::token(word_lexeme(word))
    }
}

/// At `=`: the rule arrow `=>` or a lone `=`.
pub open spec fn equal_step(text: Seq<char>, pos: int) -> Step {
    if char_at(text, pos + 1) == Some('>') {
        Step { out: Lexed::token(Lexeme::Rule), next: pos + 2 }
    } else {
        Step { out: Lexed::token(Lexeme::Equal), next: pos + 1 }
    }
}

/// At `:`: the character behind it is consumed whatever it is, and only
/// `=` completes the token.
pub open spec fn binding_step(text: Seq<char>, pos: int) -> Step {
    match char_at(text, pos + 1) {
        Some(c) => if c == '=' {
            Step { out: Lexed::token(Lexeme::Binding), next: pos + 2 }
        } else {
            Step { out: Lexed::diagnostic(LexDiagnostic::ExpectedEqual(Some(c))), next: pos + 2 }
        },
        None => Step { out: Lexed::diagnostic(LexDiagnostic::ExpectedEqual(None)), next: pos + 1 },
    }
}

/// At `-`: `->`, or a diagnostic for the character that stands in the
/// place of `>`, which is skipped.
pub open spec fn arrow_step(text: Seq<char>, pos: int) -> Step {
    match char_at(text, pos + 1) {
        Some(c) => if c == '>' {
            Step { out: Lexed::token(Lexeme::Arrow), next: pos + 2 }
        } else {
            Step { out: Lexed::diagnostic(LexDiagnostic::UnexpectedChar(c)), next: pos + 2 }
        },
        None => Step { out: Lexed::diagnostic(LexDiagnostic::UnexpectedEnd), next: pos + 1 },
    }
}

/// At `<`: `<->`, or a diagnostic that names the first character of the
/// arrow that is missing; the character found in its place is skipped.
pub open spec fn twin_arrow_step(text: Seq<char>, pos: int) -> Step {
    match char_at(text, pos + 1) {
        None => Step { out: Lexed::diagnostic(LexDiagnostic::BrokenTwinArrow('-')), next: pos + 1 },
        Some(c) => if c != '-' {
            Step { out: Lexed::diagnostic(LexDiagnostic::BrokenTwinArrow('-')), next: pos + 2 }
        } else {
            match char_at(text, pos + 2) {
                None => Step {
                    out: Lexed::diagnostic(LexDiagnostic::BrokenTwinArrow('>')),
                    next: pos + 2,
                },
                Some(d) => if d != '>' {
                    Step {
                        out: Lexed::diagnostic(LexDiagnostic::BrokenTwinArrow('>')),
                        next: pos + 3,
                    }
                } else {
                    Step { out: Lexed::token(Lexeme::TwinArrow), next: pos + 3 }
                },
            }
        },
    }
}

/// What the lexer does at `pos`, a position inside `text`.
pub open spec fn step(text: Seq<char>, pos: int, ans: Option<Lexed>) -> Step {
    let c = text[pos];
    if c == '&' {
        Step { out: Lexed::token(Lexeme::And), next: pos + 1 }
    } else if c == '|' {
        Step { out: Lexed::token(Lexeme::Or), next: pos + 1 }
    } else if c == '~' {
        Step { out: Lexed::token(Lexeme::Not), next: pos + 1 }
    } else if c == '(' {
        Step { out: Lexed::token(Lexeme::OpenParen), next: pos + 1 }
    } else if c == ')' {
        Step { out: Lexed::token(Lexeme::CloseParen), next: pos + 1 }
    } else if c == '=' {
        equal_step(text, pos)
    } else if c == ':' {
        binding_step(text, pos)
    } else if c == '<' {
        twin_arrow_step(text, pos)
    } else if c == '-' {
        arrow_step(text, pos)
    } else if is_letter(c) {
        Step {
            out: word_out(text.subrange(pos, run_end(text, pos)), ans),
            next: run_end(text, pos),
        }
    } else if is_blank(c) {
        Step { out: Lexed::empty(), next: pos + 1 }
    } else {
        Step { out: Lexed::diagnostic(LexDiagnostic::UnexpectedChar(c)), next: pos + 1 }
    }
}

/// Lexing `text` from `pos` to its end, with `ans` standing for `ans`.
///
/// Every step moves forward and stays inside the text
/// ([`lemma_step_advances`]); that the definition asks whether it does
/// only shows that it comes to an end.
pub open spec fn scan_from(text: Seq<char>, pos: int, ans: Option<Lexed>) -> Lexed
    decreases text.len() - pos,
{
    if 0 <= pos < text.len() {
        let s = step(text, pos, ans);
        if pos < s.next <= text.len() {
            s.out.concat(scan_from(text, s.next, ans))
        } else {
            s.out
        }
    } else {
        Lexed::empty()
    }
}

/// A run of letters ends at or behind its start, inside the text, and
/// holds letters only.
pub proof fn lemma_run_end(text: Seq<char>, pos: int)
    requires
        0 <= pos <= text.len(),
    ensures
        pos <= run_end(text, pos) <= text.len(),
        forall|i: int| pos <= i < run_end(text, pos) ==> is_letter(#[trigger] text[i]),
        run_end(text, pos) < text.len() ==> !is_letter(text[run_end(text, pos)]),
        pos < text.len() && is_letter(text[pos]) ==> pos < run_end(text, pos),
    decreases text.len() - pos,
{
    if pos < text.len() && is_letter(text[pos]) {
        lemma_run_end(text, pos + 1);
    }
}

/// Every step of the lexer consumes at least one character and none
/// behind the end of the text.
pub proof fn lemma_step_advances(text: Seq<char>, pos: int, ans: Option<Lexed>)
    requires
        0 <= pos < text.len(),
    ensures
        pos < step(text, pos, ans).next <= text.len(),
{
    lemma_run_end(text, pos);
}

/// Lexing `input` in a session whose previous text is `prev`: where `prev`
/// is not empty, the word `ans` stands for the tokens of `prev`, lexed by
/// itself; in a fresh session it is an identifier like any other.
pub open spec fn lex(input: Seq<char>, prev: Seq<char>) -> Lexed {
    if prev.len() > 0 {
        scan_from(input, 0, Some(scan_from(prev, 0, None)))
    } else {
        scan_from(input, 0, None)
    }
}

/// Whether the letters `ans` stand somewhere in `text`, one behind the
/// other.
pub open spec fn holds_ans(text: Seq<char>) -> bool {
    exists|i: int| 0 <= i && i + 3 <= text.len() && #[trigger] text.subrange(i, i + 3) == "ans"@
}

/// A line that is the word `ans` lexes as the previous text does by
/// itself: to the same tokens, with the same diagnostics.
pub proof fn lemma_ans(prev: Seq<char>)
    requires
        prev.len() > 0,
    ensures
        lex("ans"@, prev) == lex(prev, Seq::empty()),
{
    reveal_strlit("ans");
    let text = "ans"@;
    let expansion = scan_from(prev, 0, None);
    assert(text.len() == 3 && text[0] == 'a' && text[1] == 'n' && text[2] == 's');
    assert(run_end(text, 0) == 3) by {
        reveal_with_fuel(run_end, 4);
    }
    assert(text.subrange(0, 3) =~= text);
    let first = step(text, 0, Some(expansion));
    assert(first.next == 3 && first.out == expansion);
    assert(scan_from(text, 3, Some(expansion)) == Lexed::empty());
    assert(scan_from(text, 0, Some(expansion)) == expansion.concat(Lexed::empty()));
    assert(expansion.concat(Lexed::empty()).tokens =~= expansion.tokens);
    assert(expansion.concat(Lexed::empty()).diagnostics =~= expansion.diagnostics);
}

/// A text in which the letters `ans` stand nowhere lexes the same
/// whatever `ans` stands for.
pub proof fn lemma_scan_without_ans(
    text: Seq<char>,
    pos: int,
    ans: Option<Lexed>,
    other: Option<Lexed>,
)
    requires
        !holds_ans(text),
        0 <= pos,
    ensures
        scan_from(text, pos, ans) == scan_from(text, pos, other),
    decreases text.len() - pos,
{
    reveal_strlit("ans");
    if pos < text.len() {
        lemma_step_advances(text, pos, ans);
        lemma_step_advances(text, pos, other);
        lemma_run_end(text, pos);
        let word = text.subrange(pos, run_end(text, pos));
        if is_letter(text[pos]) && word == "ans"@ {
            assert(word.len() == 3);
            assert(run_end(text, pos) == pos + 3);
            assert(text.subrange(pos, pos + 3) == "ans"@);
        }
        assert(step(text, pos, ans) == step(text, pos, other));
        lemma_scan_without_ans(text, step(text, pos, ans).next, ans, other);
    }
}

/// The word `ans` brings the previous text back: as a line, it lexes as
/// the previous text would if it were entered again, whatever the previous
/// text is by then, provided the letters `ans` stand nowhere in it.
pub proof fn lemma_ans_reenters(prev: Seq<char>, later: Seq<char>)
    requires
        prev.len() > 0,
        !holds_ans(prev),
    ensures
        lex("ans"@, prev) == lex(prev, later),
{
    lemma_ans(prev);
    if later.len() > 0 {
        lemma_scan_without_ans(prev, 0, None, Some(scan_from(later, 0, None)));
    }
}

/// `after` is `before` with `out` appended, and so are the diagnostics.
spec fn emitted(
    before: Seq<Token>,
    after: Seq<Token>,
    diagnostics_before: Seq<LexDiagnostic>,
    diagnostics_after: Seq<LexDiagnostic>,
    out: Lexed,
) -> bool {
    &&& before.len() <= after.len()
    &&& after.take(before.len() as int) =~= before
    &&& lexemes(after.skip(before.len() as int)) =~= out.tokens
    &&& diagnostics_after =~= diagnostics_before + out.diagnostics
}

/// The characters of `s`, one by one.
fn chars_of(s: &str) -> (v: Vec<char>)
    ensures
        v@ == s@,
{
    let mut v: Vec<char> = Vec::new();
    for c in it: s.chars()
        invariant
            it.seq() == s@,
            v@ == it.seq().take(it.index() as int),
    {
        v.push(c);
    }
    v
}

fn letter(c: char) -> (r: bool)
    ensures
        r == is_letter(c),
{
    ('a' <= c && c <= 'z') || ('A' <= c && c <= 'Z')
}

/// The character at `pos`.
fn at(chars: &Vec<char>, pos: usize) -> (c: char)
    requires
        pos < chars.len(),
    ensures
        c == chars@[pos as int],
{
    chars[pos]
}

/// The character at `pos`, if there is one.
fn peek(chars: &Vec<char>, pos: usize) -> (c: Option<char>)
    ensures
        c == char_at(chars@, pos as int),
{
    if pos < chars.len() {
        Some(at(chars, pos))
    } else {
        None
    }
}

/// Whether the characters from `start` to `end` spell `word`.
fn spells(chars: &Vec<char>, start: usize, end: usize, word: &str) -> (r: bool)
    requires
        start <= end <= chars.len(),
    ensures
        r == (chars@.subrange(start as int, end as int) == word@),
{
    let n = word.unicode_len();
    if end - start != n {
        return false;
    }
    let mut i: usize = 0;
    while i < n
        invariant
            i <= n,
            n == word@.len(),
            n == end - start,
            end <= chars.len(),
            forall|j: int| 0 <= j < i ==> chars@[start + j] == word@[j],
        decreases n - i,
    {
        if chars[start + i] != word.get_char(i) {
            assert(chars@.subrange(start as int, end as int)[i as int] != word@[i as int]);
            return false;
        }
        i += 1;
    }
    assert(chars@.subrange(start as int, end as int) =~= word@);
    true
}

/// Emitting one thing and then another is emitting both in a row.
proof fn lemma_emitted_twice(
    t0: Seq<Token>,
    t1: Seq<Token>,
    t2: Seq<Token>,
    d0: Seq<LexDiagnostic>,
    d1: Seq<LexDiagnostic>,
    d2: Seq<LexDiagnostic>,
    first: Lexed,
    second: Lexed,
)
    requires
        emitted(t0, t1, d0, d1, first),
        emitted(t1, t2, d1, d2, second),
    ensures
        emitted(t0, t2, d0, d2, first.concat(second)),
{
    assert(t2.take(t0.len() as int) =~= t1.take(t0.len() as int));
    assert(lexemes(t2.skip(t0.len() as int)) =~= lexemes(t1.skip(t0.len() as int)) + lexemes(
        t2.skip(t1.len() as int),
    ));
    assert(d2 =~= d0 + first.concat(second).diagnostics);
}

/// Appends `token`.
fn add_token(list: &mut Vec<Token>, token: Token)
    ensures
        final(list)@ == old(list)@.push(token),
{
    list.push(token);
}

/// Lexes what starts with the `=` at `pos`.
fn add_equal(list: &mut Vec<Token>, chars: &Vec<char>, pos: usize) -> (next: usize)
    requires
        pos < chars.len(),
    ensures
        next == equal_step(chars@, pos as int).next,
        emitted(
            old(list)@,
            final(list)@,
            Seq::empty(),
            Seq::empty(),
            equal_step(chars@, pos as int).out,
        ),
{
    match peek(chars, pos + 1) {
        Some('>') => {
            add_token(list, Token::Rule);
            pos + 2
        },
        _ => {
            add_token(list, Token::Equal);
            pos + 1
        },
    }
}

/// Lexes what starts with the `:` at `pos`.
fn add_binding(
    list: &mut Vec<Token>,
    diagnostics: &mut Vec<LexDiagnostic>,
    chars: &Vec<char>,
    pos: usize,
) -> (next: usize)
    requires
        pos < chars.len(),
    ensures
        next == binding_step(chars@, pos as int).next,
        emitted(
            old(list)@,
            final(list)@,
            old(diagnostics)@,
            final(diagnostics)@,
            binding_step(chars@, pos as int).out,
        ),
{
    match peek(chars, pos + 1) {
        Some('=') => {
            add_token(list, Token::Binding);
            pos + 2
        },
        Some(other) => {
            diagnostics.push(LexDiagnostic::ExpectedEqual(Some(other)));
            pos + 2
        },
        None => {
            diagnostics.push(LexDiagnostic::ExpectedEqual(None));
            pos + 1
        },
    }
}

/// Lexes what starts with the `-` at `pos`.
fn add_arrow(
    list: &mut Vec<Token>,
    diagnostics: &mut Vec<LexDiagnostic>,
    chars: &Vec<char>,
    pos: usize,
) -> (next: usize)
    requires
        pos < chars.len(),
    ensures
        next == arrow_step(chars@, pos as int).next,
        emitted(
            old(list)@,
            final(list)@,
            old(diagnostics)@,
            final(diagnostics)@,
            arrow_step(chars@, pos as int).out,
        ),
{
    if pos + 1 < chars.len() {
        let other = at(chars, pos + 1);
        if other == '>' {
            add_token(list, Token::Arrow);
        } else {
            diagnostics.push(LexDiagnostic::UnexpectedChar(other));
        }
        pos + 2
    } else {
        diagnostics.push(LexDiagnostic::UnexpectedEnd);
        pos + 1
    }
}

/// Lexes what starts with the `<` at `pos`.
fn add_twin_arrow(
    list: &mut Vec<Token>,
    diagnostics: &mut Vec<LexDiagnostic>,
    chars: &Vec<char>,
    pos: usize,
) -> (next: usize)
    requires
        pos < chars.len(),
    ensures
        next == twin_arrow_step(chars@, pos as int).next,
        emitted(
            old(list)@,
            final(list)@,
            old(diagnostics)@,
            final(diagnostics)@,
            twin_arrow_step(chars@, pos as int).out,
        ),
{
    match peek(chars, pos + 1) {
        None => {
            diagnostics.push(LexDiagnostic::BrokenTwinArrow('-'));
            pos + 1
        },
        Some('-') => match peek(chars, pos + 2) {
            None => {
                diagnostics.push(LexDiagnostic::BrokenTwinArrow('>'));
                pos + 2
            },
            Some('>') => {
                add_token(list, Token::TwinArrow);
                pos + 3
            },
            Some(_) => {
                diagnostics.push(LexDiagnostic::BrokenTwinArrow('>'));
                pos + 3
            },
        },
        Some(_) => {
            diagnostics.push(LexDiagnostic::BrokenTwinArrow('-'));
            pos + 2
        },
    }
}

/// What `ans` stands for where the previous text is `prev`.
spec fn ans_of(prev: Option<(&str, &Vec<char>)>) -> Option<Lexed> {
    match prev {
        Some(p) => Some(scan_from(p.1@, 0, None)),
        None => None,
    }
}

/// Lexes the run of letters that starts at `pos`.
fn identifier(
    list: &mut Vec<Token>,
    diagnostics: &mut Vec<LexDiagnostic>,
    source: &str,
    chars: &Vec<char>,
    pos: usize,
    prev: Option<(&str, &Vec<char>)>,
) -> (next: usize)
    requires
        chars@ == source@,
        pos < chars.len(),
        prev matches Some(p) ==> p.1@ == p.0@,
    ensures
        next == run_end(chars@, pos as int),
        emitted(
            old(list)@,
            final(list)@,
            old(diagnostics)@,
            final(diagnostics)@,
            word_out(chars@.subrange(pos as int, next as int), ans_of(prev)),
        ),
    decreases (if prev is Some { 1nat } else { 0nat }), 0nat,
{
    let mut end = pos;
    while end < chars.len() && letter(at(chars, end))
        invariant
            pos <= end <= chars.len(),
            run_end(chars@, end as int) == run_end(chars@, pos as int),
        decreases chars.len() - end,
    {
        end += 1;
    }
    if spells(chars, pos, end, "ans") {
        if let Some((text, text_chars)) = prev {
            scan(list, diagnostics, text, text_chars, None);
            return end;
        }
    }
    if spells(chars, pos, end, "and") {
        add_token(list, Token::And);
    } else if spells(chars, pos, end, "or") {
        add_token(list, Token::Or);
    } else if spells(chars, pos, end, "not") {
        add_token(list, Token::Not);
    } else if spells(chars, pos, end, "implies") {
        add_token(list, Token::Arrow);
    } else if spells(chars, pos, end, "equiv") {
        add_token(list, Token::TwinArrow);
    } else if spells(chars, pos, end, "rule") {
        add_token(list, Token::Rule);
    } else {
        let word = source.substring_char(pos, end);
        add_token(list, Token::Identifier(word.to_owned()));
    }
    end
}

/// Lexes `source`, whose characters are `chars`, and appends what comes of
/// it to `list` and `diagnostics`.
fn scan(
    list: &mut Vec<Token>,
    diagnostics: &mut Vec<LexDiagnostic>,
    source: &str,
    chars: &Vec<char>,
    prev: Option<(&str, &Vec<char>)>,
)
    requires
        chars@ == source@,
        prev matches Some(p) ==> p.1@ == p.0@,
    ensures
        emitted(
            old(list)@,
            final(list)@,
            old(diagnostics)@,
            final(diagnostics)@,
            scan_from(chars@, 0, ans_of(prev)),
        ),
    decreases (if prev is Some { 1nat } else { 0nat }), 1nat,
{
    let ghost ans = ans_of(prev);
    let ghost list0 = list@;
    let ghost diagnostics0 = diagnostics@;
    let ghost mut done = Lexed::empty();
    proof {
        assert(list@.take(list@.len() as int) =~= list@);
        assert(lexemes(list@.skip(list@.len() as int)) =~= Seq::<Lexeme>::empty());
        assert(diagnostics@ =~= diagnostics@ + Seq::<LexDiagnostic>::empty());
        assert(done.concat(scan_from(chars@, 0, ans)).tokens =~= scan_from(chars@, 0, ans).tokens);
        assert(done.concat(scan_from(chars@, 0, ans)).diagnostics =~= scan_from(
            chars@,
            0,
            ans,
        ).diagnostics);
    }
    let mut pos: usize = 0;
    while pos < chars.len()
        invariant
            pos <= chars.len(),
            chars@ == source@,
            prev matches Some(p) ==> p.1@ == p.0@,
            ans == ans_of(prev),
            emitted(list0, list@, diagnostics0, diagnostics@, done),
            done.concat(scan_from(chars@, pos as int, ans)) == scan_from(chars@, 0, ans),
        decreases chars.len() - pos,
    {
        let ghost list1 = list@;
        let ghost diagnostics1 = diagnostics@;
        let ghost s = step(chars@, pos as int, ans);
        proof {
            lemma_step_advances(chars@, pos as int, ans);
        }
        let c = at(chars, pos);
        let next = if c == '&' {
            add_token(list, Token::And);
            pos + 1
        } else if c == '|' {
            add_token(list, Token::Or);
            pos + 1
        } else if c == '~' {
            add_token(list, Token::Not);
            pos + 1
        } else if c == '(' {
            add_token(list, Token::OpenParen);
            pos + 1
        } else if c == ')' {
            add_token(list, Token::CloseParen);
            pos + 1
        } else if c == '=' {
            add_equal(list, chars, pos)
        } else if c == ':' {
            add_binding(list, diagnostics, chars, pos)
        } else if c == '<' {
            add_twin_arrow(list, diagnostics, chars, pos)
        } else if c == '-' {
            add_arrow(list, diagnostics, chars, pos)
        } else if letter(c) {
            identifier(list, diagnostics, source, chars, pos, prev)
        } else if c == ' ' || c == '\t' || c == '\n' {
            proof {
                assert(list@.take(list@.len() as int) =~= list@);
                assert(lexemes(list@.skip(list@.len() as int)) =~= Seq::<Lexeme>::empty());
                assert(diagnostics@ =~= diagnostics@ + Seq::<LexDiagnostic>::empty());
            }
            pos + 1
        } else {
            diagnostics.push(LexDiagnostic::UnexpectedChar(c));
            pos + 1
        };
        proof {
            assert(next == s.next);
            assert(emitted(list1, list@, diagnostics1, diagnostics@, s.out));
            lemma_emitted_twice(
                list0,
                list1,
                list@,
                diagnostics0,
                diagnostics1,
                diagnostics@,
                done,
                s.out,
            );
            let rest = scan_from(chars@, next as int, ans);
            assert(scan_from(chars@, pos as int, ans) == s.out.concat(rest));
            assert(done.concat(s.out).concat(rest).tokens =~= done.concat(
                s.out.concat(rest),
            ).tokens);
            assert(done.concat(s.out).concat(rest).diagnostics =~= done.concat(
                s.out.concat(rest),
            ).diagnostics);
            done = done.concat(s.out);
        }
        pos = next;
    }
    proof {
        assert(done.concat(Lexed::empty()).tokens =~= done.tokens);
        assert(done.concat(Lexed::empty()).diagnostics =~= done.diagnostics);
    }
}

/// Lexes `input` and appends its tokens to `list`.  `prev_input` is the
/// text that the word `ans` stands for; where it is empty, `ans` is an
/// identifier like any other.
///
/// Lexing never fails: what it cannot read it skips, and says so in the
/// diagnostics it returns, in the order in which it met them.
pub fn tokenize(list: &mut Vec<Token>, input: &mut String, prev_input: &mut String) -> (diagnostics:
    Vec<LexDiagnostic>)
    ensures
        old(list)@.len() <= final(list)@.len(),
        final(list)@.take(old(list)@.len() as int) == old(list)@,
        lexemes(final(list)@.skip(old(list)@.len() as int)) == lex(
            old(input)@,
            old(prev_input)@,
        ).tokens,
        diagnostics@ == lex(old(input)@, old(prev_input)@).diagnostics,
        *final(input) == *old(input),
        *final(prev_input) == *old(prev_input),
{
    let mut diagnostics: Vec<LexDiagnostic> = Vec::new();
    let chars = chars_of(input.as_str());
    let prev_chars = chars_of(prev_input.as_str());
    if prev_chars.len() > 0 {
        let prev = Some((prev_input.as_str(), &prev_chars));
        scan(list, &mut diagnostics, input.as_str(), &chars, prev);
    } else {
        scan(list, &mut diagnostics, input.as_str(), &chars, None);
    }
    diagnostics
}

} // verus!
