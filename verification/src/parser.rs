//! Reading formulas in the DIMACS format, and writing answers and refutations.

use crate::assignment::{is_total, lit_satisfied, Assignment, Record};
use crate::formula::{
    clause_in_range, clause_views, clauses_in_range, Clause, CnfFormula, Lit, Val, Var,
};
use vstd::prelude::*;
use vstd::string::StringSliceAdditionalSpecFns;

verus! {

/// Why a text is not a formula in the DIMACS format.
#[derive(Debug, Clone, Copy, PartialEq, Eq, Structural)]
pub enum ParseError {
    /// The first four tokens are not `p`, `cnf` and two more.
    InvalidHeader,
    /// The third token is not a number of variables.
    InvalidVariableCount,
    /// The fourth token is not a number of clauses.
    InvalidClauseCount,
    /// The token at this position after the header is not a literal of the
    /// formula: not an integer, or one beyond the number of variables.
    InvalidLiteral(usize),
    /// The number of clauses is not the one that the header gives.
    WrongClauseCount,
}

impl ParseError {
    /// What went wrong, in words.
    pub fn describe(&self) -> (r: &'static str)
        ensures
            r@ == match *self {
                ParseError::InvalidHeader => "Invalid DIMACS header"@,
                ParseError::InvalidVariableCount => "Invalid number of variables"@,
                ParseError::InvalidClauseCount => "Invalid number of clauses"@,
                ParseError::InvalidLiteral(_) => "Invalid literal"@,
                ParseError::WrongClauseCount => "Incorrect number of clauses"@,
            },
    {
        match self {
            ParseError::InvalidHeader => "Invalid DIMACS header",
            ParseError::InvalidVariableCount => "Invalid number of variables",
            ParseError::InvalidClauseCount => "Invalid number of clauses",
            ParseError::InvalidLiteral(_) => "Invalid literal",
            ParseError::WrongClauseCount => "Incorrect number of clauses",
        }
    }
}

/// A blank, a tab, a line feed, a vertical tab, a form feed or a carriage return.
pub open spec fn is_space(b: u8) -> bool {
    b == 32 || 9 <= b <= 13
}

/// One of the characters `0` to `9`.
pub open spec fn is_digit(b: u8) -> bool {
    48 <= b <= 57
}

/// The position of the first line feed from `i` on, or the length of the text.
pub open spec fn line_end(text: Seq<u8>, i: int) -> int
    decreases text.len() - i,
{
    if 0 <= i < text.len() && text[i] != 10 {
        line_end(text, i + 1)
    } else {
        i
    }
}

/// The first position from `i` on, before `limit`, that holds no space, or `limit`.
pub open spec fn skip_spaces(text: Seq<u8>, i: int, limit: int) -> int
    decreases limit - i,
{
    if 0 <= i < limit && is_space(text[i]) {
        skip_spaces(text, i + 1, limit)
    } else {
        i
    }
}

/// The first position from `i` on, before `limit`, that holds a space, or `limit`.
pub open spec fn word_end(text: Seq<u8>, i: int, limit: int) -> int
    decreases limit - i,
{
    if 0 <= i < limit && !is_space(text[i]) {
        word_end(text, i + 1, limit)
    } else {
        i
    }
}

/// The end of a line lies at or after its start and within the text, at a
/// line feed or at the end, with no line feed before it.
pub proof fn lemma_line_end(text: Seq<u8>, i: int)
    requires
        0 <= i <= text.len(),
    ensures
        i <= line_end(text, i) <= text.len(),
        line_end(text, i) < text.len() ==> text[line_end(text, i)] == 10,
        forall|j: int| i <= j < line_end(text, i) ==> text[j] != 10,
    decreases text.len() - i,
{
    if i < text.len() && text[i] != 10 {
        lemma_line_end(text, i + 1);
    }
}

/// Skipping spaces ends at or after the start and within the limit, with
/// spaces only before it and none at it.
pub proof fn lemma_skip_spaces(text: Seq<u8>, i: int, limit: int)
    requires
        0 <= i <= limit <= text.len(),
    ensures
        i <= skip_spaces(text, i, limit) <= limit,
        skip_spaces(text, i, limit) < limit ==> !is_space(text[skip_spaces(text, i, limit)]),
        forall|j: int| i <= j < skip_spaces(text, i, limit) ==> is_space(text[j]),
    decreases limit - i,
{
    if i < limit && is_space(text[i]) {
        lemma_skip_spaces(text, i + 1, limit);
    }
}

/// A word ends after its first byte and within the limit, at a space or at
/// the limit, with no space before it.
pub proof fn lemma_word_end(text: Seq<u8>, i: int, limit: int)
    requires
        0 <= i <= limit <= text.len(),
    ensures
        i <= word_end(text, i, limit) <= limit,
        i < limit && !is_space(text[i]) ==> i < word_end(text, i, limit),
        word_end(text, i, limit) < limit ==> is_space(text[word_end(text, i, limit)]),
        forall|j: int| i <= j < word_end(text, i, limit) ==> !is_space(text[j]),
    decreases limit - i,
{
    if i < limit && !is_space(text[i]) {
        lemma_word_end(text, i + 1, limit);
    }
}

/// The words of the text from `i` on and before `limit`: the longest runs of
/// bytes that are not spaces.
pub open spec fn words(text: Seq<u8>, i: int, limit: int) -> Seq<Seq<u8>>
    decreases limit - i,
{
    if 0 <= i <= limit <= text.len() {
        let start = skip_spaces(text, i, limit);
        if start >= limit {
            Seq::empty()
        } else {
            let end = word_end(text, start, limit);
            proof {
                lemma_skip_spaces(text, i, limit);
                lemma_word_end(text, start, limit);
            }
            seq![text.subrange(start, end)] + words(text, end, limit)
        }
    } else {
        Seq::empty()
    }
}

/// The tokens of the lines that start at `i` or later: the words of every
/// line that does not start with the letter `c`.
pub open spec fn tokens_from(text: Seq<u8>, i: int) -> Seq<Seq<u8>>
    decreases text.len() + 1 - i,
{
    if 0 <= i < text.len() {
        let end = line_end(text, i);
        proof {
            lemma_line_end(text, i);
        }
        let here = if text[i] == 99 {
            Seq::empty()
        } else {
            words(text, i, end)
        };
        here + tokens_from(text, end + 1)
    } else {
        Seq::empty()
    }
}

/// The tokens without a final `%` and `0`, which some files end with.
pub open spec fn strip_trailer(tokens: Seq<Seq<u8>>) -> Seq<Seq<u8>> {
    if tokens.len() >= 2 && tokens[tokens.len() - 2] == seq![37u8] && tokens[tokens.len() - 1]
        == seq![48u8] {
        tokens.take(tokens.len() - 2)
    } else {
        tokens
    }
}

/// The number that decimal digits write.
pub open spec fn digits_value(digits: Seq<u8>) -> nat
    decreases digits.len(),
{
    if digits.len() == 0 {
        0
    } else {
        digits_value(digits.drop_last()) * 10 + (digits.last() - 48) as nat
    }
}

/// Every byte is a digit.
pub open spec fn all_digits(digits: Seq<u8>) -> bool {
    forall|i: int| 0 <= i < digits.len() ==> is_digit(#[trigger] digits[i])
}

/// The sign and the digits of a token: a leading `-` makes it negative, and a
/// leading `+` is passed over where `signed` does not hold either.
pub open spec fn split_sign(token: Seq<u8>, signed: bool) -> (bool, Seq<u8>) {
    if token.len() > 0 && token[0] == 45 && signed {
        (true, token.drop_first())
    } else if token.len() > 0 && token[0] == 43 {
        (false, token.drop_first())
    } else {
        (false, token)
    }
}

/// The number that the token writes, if it is an optional `+` and at least
/// one digit, and the number fits a `usize`.
pub open spec fn parse_unsigned(token: Seq<u8>) -> Option<usize> {
    let digits = split_sign(token, false).1;
    if digits.len() > 0 && all_digits(digits) && digits_value(digits) <= usize::MAX {
        Some(digits_value(digits) as usize)
    } else {
        None
    }
}

/// The integer that the token writes, if it is an optional sign and at least
/// one digit, and the integer fits an `isize`.
pub open spec fn parse_signed(token: Seq<u8>) -> Option<int> {
    let (negative, digits) = split_sign(token, true);
    if digits.len() > 0 && all_digits(digits) {
        let magnitude = digits_value(digits) as int;
        if negative && magnitude <= -(isize::MIN as int) {
            Some(-magnitude)
        } else if !negative && magnitude <= isize::MAX as int {
            Some(magnitude)
        } else {
            None
        }
    } else {
        None
    }
}

/// The integer of a body token, if it is one whose absolute value is at
/// most the number of variables.
pub open spec fn body_number(token: Seq<u8>, num_vars: usize) -> Option<int> {
    match parse_signed(token) {
        Some(number) => if -(num_vars as int) <= number <= num_vars as int {
            Some(number)
        } else {
            None
        },
        None => None,
    }
}

/// The literal that a nonzero integer stands for.
pub open spec fn lit_of(number: int) -> Lit {
    if number > 0 {
        Lit { var: Var { index: number as usize }, value: Val::True }
    } else {
        Lit { var: Var { index: (-number) as usize }, value: Val::False }
    }
}

/// The first position from `i` on that holds a token that is no literal of
/// the formula, or the number of tokens.
pub open spec fn first_invalid(tokens: Seq<Seq<u8>>, num_vars: usize, i: int) -> int
    decreases tokens.len() - i,
{
    if 0 <= i < tokens.len() && body_number(tokens[i], num_vars) is Some {
        first_invalid(tokens, num_vars, i + 1)
    } else {
        i
    }
}

/// The first position from `i` on that holds a token that stands for a
/// number other than zero, or the number of tokens.
pub open spec fn skip_zeros(tokens: Seq<Seq<u8>>, num_vars: usize, i: int) -> int
    decreases tokens.len() - i,
{
    if 0 <= i < tokens.len() && body_number(tokens[i], num_vars) == Some(0int) {
        skip_zeros(tokens, num_vars, i + 1)
    } else {
        i
    }
}

/// The first position from `i` on that holds a token that stands for zero,
/// or the number of tokens.
pub open spec fn run_end(tokens: Seq<Seq<u8>>, num_vars: usize, i: int) -> int
    decreases tokens.len() - i,
{
    if 0 <= i < tokens.len() && body_number(tokens[i], num_vars) != Some(0int) {
        run_end(tokens, num_vars, i + 1)
    } else {
        i
    }
}

/// Skipping zeros ends at or after the start, at a token that does not
/// stand for zero, or at the end.
pub proof fn lemma_skip_zeros(tokens: Seq<Seq<u8>>, num_vars: usize, i: int)
    requires
        0 <= i <= tokens.len(),
    ensures
        i <= skip_zeros(tokens, num_vars, i) <= tokens.len(),
        skip_zeros(tokens, num_vars, i) < tokens.len() ==> body_number(
            tokens[skip_zeros(tokens, num_vars, i)],
            num_vars,
        ) != Some(0int),
    decreases tokens.len() - i,
{
    if i < tokens.len() && body_number(tokens[i], num_vars) == Some(0int) {
        lemma_skip_zeros(tokens, num_vars, i + 1);
    }
}

/// A run ends after its first token, with no zero before its end.
pub proof fn lemma_run_end(tokens: Seq<Seq<u8>>, num_vars: usize, i: int)
    requires
        0 <= i <= tokens.len(),
    ensures
        i <= run_end(tokens, num_vars, i) <= tokens.len(),
        i < tokens.len() && body_number(tokens[i], num_vars) != Some(0int) ==> i < run_end(
            tokens,
            num_vars,
            i,
        ),
        forall|j: int|
            i <= j < run_end(tokens, num_vars, i) ==> body_number(
                #[trigger] tokens[j],
                num_vars,
            ) != Some(0int),
    decreases tokens.len() - i,
{
    if i < tokens.len() && body_number(tokens[i], num_vars) != Some(0int) {
        lemma_run_end(tokens, num_vars, i + 1);
    }
}

/// The literals of the tokens from `from` up to `to`.
pub open spec fn run_lits(tokens: Seq<Seq<u8>>, num_vars: usize, from: int, to: int) -> Seq<Lit> {
    Seq::new((to - from) as nat, |k: int| lit_of(body_number(tokens[from + k], num_vars)->0))
}

/// The clauses that the tokens from `i` on write: each longest run of
/// tokens that stand for numbers other than zero is one clause.
pub open spec fn clauses_from(tokens: Seq<Seq<u8>>, num_vars: usize, i: int) -> Seq<Seq<Lit>>
    decreases tokens.len() - i,
{
    if 0 <= i <= tokens.len() {
        let start = skip_zeros(tokens, num_vars, i);
        if start >= tokens.len() {
            Seq::empty()
        } else {
            let end = run_end(tokens, num_vars, start);
            proof {
                lemma_skip_zeros(tokens, num_vars, i);
                lemma_run_end(tokens, num_vars, start);
            }
            seq![run_lits(tokens, num_vars, start, end)] + clauses_from(tokens, num_vars, end)
        }
    } else {
        Seq::empty()
    }
}

/// What a text in the DIMACS format says: the number of variables and the
/// clauses, or the first thing that is wrong with it.
pub open spec fn parsed(text: Seq<u8>) -> Result<(usize, Seq<Seq<Lit>>), ParseError> {
    let tokens = strip_trailer(tokens_from(text, 0));
    if tokens.len() < 4 || tokens[0] != seq![112u8] || tokens[1] != seq![99u8, 110u8, 102u8] {
        Err(ParseError::InvalidHeader)
    } else {
        match parse_unsigned(tokens[2]) {
            None => Err(ParseError::InvalidVariableCount),
            Some(num_vars) => match parse_unsigned(tokens[3]) {
                None => Err(ParseError::InvalidClauseCount),
                Some(num_clauses) => {
                    let body = tokens.skip(4);
                    let bad = first_invalid(body, num_vars, 0);
                    if bad < body.len() {
                        Err(ParseError::InvalidLiteral(bad as usize))
                    } else {
                        let clauses = clauses_from(body, num_vars, 0);
                        if clauses.len() != num_clauses {
                            Err(ParseError::WrongClauseCount)
                        } else {
                            Ok((num_vars, clauses))
                        }
                    }
                },
            },
        }
    }
}

/// The number of clauses that the header of the text gives, if it has one.
pub open spec fn declared_clauses(text: Seq<u8>) -> Option<usize> {
    let tokens = strip_trailer(tokens_from(text, 0));
    if tokens.len() < 4 {
        None
    } else {
        parse_unsigned(tokens[3])
    }
}

/// The tokens that spans of the text cut out.
pub open spec fn span_tokens(text: Seq<u8>, spans: Seq<(usize, usize)>) -> Seq<Seq<u8>> {
    Seq::new(spans.len(), |k: int| text.subrange(spans[k].0 as int, spans[k].1 as int))
}

/// Every span lies in the text.
pub open spec fn spans_valid(text: Seq<u8>, spans: Seq<(usize, usize)>) -> bool {
    forall|k: int| 0 <= k < spans.len() ==> (#[trigger] spans[k]).0 <= spans[k].1 <= text.len()
}

fn is_space_byte(b: u8) -> (r: bool)
    ensures
        r == is_space(b),
{
    b == 32 || (9 <= b && b <= 13)
}

/// Cuts the text into its tokens.
fn tokenize(text: &[u8]) -> (spans: Vec<(usize, usize)>)
    ensures
        spans_valid(text@, spans@),
        span_tokens(text@, spans@) == tokens_from(text@, 0),
{
    let mut spans: Vec<(usize, usize)> = Vec::new();
    let mut i: usize = 0;
    assert(span_tokens(text@, spans@) + tokens_from(text@, 0) =~= tokens_from(text@, 0));
    while i < text.len()
        invariant
            i <= text.len(),
            spans_valid(text@, spans@),
            span_tokens(text@, spans@) + tokens_from(text@, i as int) == tokens_from(text@, 0),
        decreases text.len() - i,
    {
        let mut end: usize = i;
        while end < text.len() && text[end] != 10
            invariant
                i <= end <= text.len(),
                line_end(text@, end as int) == line_end(text@, i as int),
            decreases text.len() - end,
        {
            end += 1;
        }
        let ghost rest = tokens_from(text@, end as int + 1);
        let ghost done = span_tokens(text@, spans@);
        if text[i] != 99 {
            let mut at: usize = i;
            assert(span_tokens(text@, spans@) + words(text@, at as int, end as int) + rest
                =~= done + tokens_from(text@, i as int));
            while at < end
                invariant
                    i <= at <= end <= text.len(),
                    spans_valid(text@, spans@),
                    span_tokens(text@, spans@) + words(text@, at as int, end as int) + rest
                        == tokens_from(text@, 0),
                decreases end - at,
            {
                if is_space_byte(text[at]) {
                    assert(words(text@, at as int, end as int) == words(
                        text@,
                        at as int + 1,
                        end as int,
                    ));
                    at += 1;
                } else {
                    let mut stop: usize = at;
                    while stop < end && !is_space_byte(text[stop])
                        invariant
                            at <= stop <= end <= text.len(),
                            word_end(text@, stop as int, end as int) == word_end(
                                text@,
                                at as int,
                                end as int,
                            ),
                        decreases end - stop,
                    {
                        stop += 1;
                    }
                    let ghost before = span_tokens(text@, spans@);
                    spans.push((at, stop));
                    proof {
                        let word = text@.subrange(at as int, stop as int);
                        assert(span_tokens(text@, spans@) =~= before.push(word));
                        assert(words(text@, at as int, end as int) == seq![word] + words(
                            text@,
                            stop as int,
                            end as int,
                        ));
                        assert(before.push(word) + words(text@, stop as int, end as int) + rest
                            =~= before + (seq![word] + words(text@, stop as int, end as int))
                            + rest);
                    }
                    at = stop;
                }
            }
            assert(span_tokens(text@, spans@) + words(text@, at as int, end as int) + rest
                =~= span_tokens(text@, spans@) + rest);
        } else {
            assert(done + tokens_from(text@, i as int) =~= done + rest);
        }
        if end == text.len() {
            i = end;
        } else {
            i = end + 1;
        }
    }
    assert(span_tokens(text@, spans@) + tokens_from(text@, i as int) =~= span_tokens(
        text@,
        spans@,
    ));
    spans
}

/// A prefix of digits writes a number no greater than the whole.
pub proof fn lemma_digits_monotone(digits: Seq<u8>, k: int)
    requires
        0 <= k <= digits.len(),
    ensures
        digits_value(digits.take(k)) <= digits_value(digits),
    decreases digits.len() - k,
{
    if k < digits.len() {
        lemma_digits_monotone(digits, k + 1);
        assert(digits.take(k + 1).drop_last() =~= digits.take(k));
    } else {
        assert(digits.take(k) =~= digits);
    }
}

/// The number that the digits write, if there is at least one, all are
/// digits, and the number fits a `usize`.
pub open spec fn digits_number(digits: Seq<u8>) -> Option<usize> {
    if digits.len() > 0 && all_digits(digits) && digits_value(digits) <= usize::MAX {
        Some(digits_value(digits) as usize)
    } else {
        None
    }
}

fn digits_to_usize(text: &[u8], from: usize, to: usize) -> (r: Option<usize>)
    requires
        from <= to <= text.len(),
    ensures
        r == digits_number(text@.subrange(from as int, to as int)),
{
    let ghost digits = text@.subrange(from as int, to as int);
    if from == to {
        return None;
    }
    let mut acc: usize = 0;
    let mut k: usize = from;
    assert(digits.take(0) =~= Seq::<u8>::empty());
    while k < to
        invariant
            from <= k <= to <= text.len(),
            digits == text@.subrange(from as int, to as int),
            all_digits(digits.take(k - from)),
            acc == digits_value(digits.take(k - from)),
        decreases to - k,
    {
        let b = text[k];
        assert(digits[k - from] == b);
        if b < 48 || b > 57 {
            return None;
        }
        let d: usize = (b - 48) as usize;
        proof {
            assert(digits.take(k - from + 1).drop_last() =~= digits.take(k - from));
            lemma_digits_monotone(digits, k - from + 1);
        }
        if acc > (usize::MAX - d) / 10 {
            return None;
        }
        acc = acc * 10 + d;
        k += 1;
    }
    assert(digits.take(k - from) =~= digits);
    Some(acc)
}

fn parse_unsigned_token(text: &[u8], from: usize, to: usize) -> (r: Option<usize>)
    requires
        from <= to <= text.len(),
    ensures
        r == parse_unsigned(text@.subrange(from as int, to as int)),
{
    let ghost token = text@.subrange(from as int, to as int);
    if from < to && text[from] == 43 {
        assert(token.drop_first() =~= text@.subrange(from as int + 1, to as int));
        digits_to_usize(text, from + 1, to)
    } else {
        digits_to_usize(text, from, to)
    }
}

/// The absolute value of an integer.
pub open spec fn magnitude(number: int) -> int {
    if number < 0 {
        -number
    } else {
        number
    }
}

/// Whether the token has a leading `-`, and the absolute value of its integer.
fn parse_signed_token(text: &[u8], from: usize, to: usize) -> (r: Option<(bool, usize)>)
    requires
        from <= to <= text.len(),
    ensures
        match parse_signed(text@.subrange(from as int, to as int)) {
            Some(number) => r == Some(
                (
                    split_sign(text@.subrange(from as int, to as int), true).0,
                    magnitude(number) as usize,
                ),
            ),
            None => r is None,
        },
{
    let ghost token = text@.subrange(from as int, to as int);
    let negative = from < to && text[from] == 45;
    let signed = from < to && (text[from] == 45 || text[from] == 43);
    proof {
        if signed {
            assert(token.drop_first() =~= text@.subrange(from as int + 1, to as int));
        }
    }
    let found = if signed {
        digits_to_usize(text, from + 1, to)
    } else {
        digits_to_usize(text, from, to)
    };
    match found {
        Some(value) => {
            let limit: usize = isize::MAX as usize;
            if value <= limit || (negative && value - 1 == limit) {
                Some((negative, value))
            } else {
                None
            }
        },
        None => None,
    }
}

/// The integer that a sign and an absolute value stand for.
pub open spec fn signed_value(entry: (bool, usize)) -> int {
    if entry.0 {
        -(entry.1 as int)
    } else {
        entry.1 as int
    }
}

/// Entry `j` of `numbers` is the integer of token `j`, for every token.
pub open spec fn numbers_match(
    tokens: Seq<Seq<u8>>,
    num_vars: usize,
    numbers: Seq<(bool, usize)>,
) -> bool {
    &&& numbers.len() == tokens.len()
    &&& forall|j: int|
        0 <= j < tokens.len() ==> body_number(#[trigger] tokens[j], num_vars) == Some(
            signed_value(numbers[j]),
        )
}

/// Groups the integers of the body into clauses.
fn group_clauses(
    numbers: &Vec<(bool, usize)>,
    Ghost(tokens): Ghost<Seq<Seq<u8>>>,
    Ghost(num_vars): Ghost<usize>,
) -> (clauses: Vec<Clause>)
    requires
        numbers_match(tokens, num_vars, numbers@),
    ensures
        clause_views(clauses@) == clauses_from(tokens, num_vars, 0),
        clauses_in_range(clause_views(clauses@), num_vars as nat),
{
    let mut clauses: Vec<Clause> = Vec::new();
    let mut i: usize = 0;
    let ghost whole = clauses_from(tokens, num_vars, 0);
    assert(clause_views(clauses@) + whole =~= whole);
    while i < numbers.len()
        invariant
            i <= numbers.len(),
            numbers_match(tokens, num_vars, numbers@),
            whole == clauses_from(tokens, num_vars, 0),
            clause_views(clauses@) + clauses_from(tokens, num_vars, i as int)
                == whole,
            clauses_in_range(clause_views(clauses@), num_vars as nat),
        decreases numbers.len() - i,
    {
        assert(body_number(tokens[i as int], num_vars) == Some(signed_value(numbers@[i as int])));
        if numbers[i].1 == 0 {
            assert(clauses_from(tokens, num_vars, i as int) == clauses_from(
                tokens,
                num_vars,
                i as int + 1,
            ));
            i += 1;
        } else {
            let mut literals: Vec<Lit> = Vec::new();
            let mut j: usize = i;
            assert(literals@ =~= run_lits(tokens, num_vars, i as int, j as int));
            while j < numbers.len() && numbers[j].1 != 0
                invariant
                    i <= j <= numbers.len(),
                    numbers_match(tokens, num_vars, numbers@),
                    run_end(tokens, num_vars, j as int) == run_end(tokens, num_vars, i as int),
                    literals@ == run_lits(tokens, num_vars, i as int, j as int),
                    clause_in_range(literals@, num_vars as nat),
                decreases numbers.len() - j,
            {
                let (negative, index) = numbers[j];
                assert(body_number(tokens[j as int], num_vars) == Some(
                    signed_value(numbers@[j as int]),
                ));
                let lit = Lit {
                    var: Var { index },
                    value: if negative {
                        Val::False
                    } else {
                        Val::True
                    },
                };
                assert(lit == lit_of(signed_value(numbers@[j as int])));
                let ghost before = literals@;
                literals.push(lit);
                assert(literals@ =~= run_lits(tokens, num_vars, i as int, j as int + 1));
                assert forall|k: int| 0 <= k < literals@.len() implies (
                #[trigger] literals@[k]).in_range(num_vars as nat) by {
                    if k < before.len() {
                        assert(literals@[k] == before[k]);
                    }
                }
                j += 1;
            }
            proof {
                if j < numbers.len() {
                    assert(body_number(tokens[j as int], num_vars) == Some(
                        signed_value(numbers@[j as int]),
                    ));
                }
                assert(skip_zeros(tokens, num_vars, i as int) == i);
                assert(run_end(tokens, num_vars, i as int) == j);
                assert(clauses_from(tokens, num_vars, i as int) == seq![literals@] + clauses_from(
                    tokens,
                    num_vars,
                    j as int,
                ));
            }
            let ghost before = clause_views(clauses@);
            let ghost run = literals@;
            clauses.push(Clause { literals });
            proof {
                let now = clause_views(clauses@);
                assert(now =~= before.push(run));
                assert(now + clauses_from(tokens, num_vars, j as int) =~= before + (seq![run]
                    + clauses_from(tokens, num_vars, j as int)));
                assert forall|k: int| 0 <= k < now.len() implies clause_in_range(
                    #[trigger] now[k],
                    num_vars as nat,
                ) by {
                    if k < before.len() {
                        assert(now[k] == before[k]);
                    }
                }
            }
            i = j;
        }
    }
    assert(clause_views(clauses@) + clauses_from(tokens, num_vars, i as int)
        =~= clause_views(clauses@));
    clauses
}

/// Reads a formula in the DIMACS format. Tokens are separated by spaces;
/// a line that starts with `c` is a comment; a final `%` and `0` are passed
/// over. The header is `p cnf`, the number of variables and the number of
/// clauses. Each clause is a run of nonzero integers, `i` for variable `i`
/// true and `-i` for it false, and `0` ends a clause.
pub fn parse_dimacs(text: &[u8]) -> (r: Result<CnfFormula, ParseError>)
    ensures
        match r {
            Ok(formula) => parsed(text@) == Ok::<(usize, Seq<Seq<Lit>>), ParseError>(
                (formula.num_vars, formula@),
            ),
            Err(error) => parsed(text@) == Err::<(usize, Seq<Seq<Lit>>), ParseError>(error),
        },
        r matches Ok(formula) ==> formula.wf() && declared_clauses(text@) == Some(
            formula.clauses.len(),
        ),
{
    let mut spans = tokenize(text);
    let ghost all = tokens_from(text@, 0);
    let found = spans.len();
    if found >= 2 {
        let percent = spans[found - 2];
        let zero = spans[found - 1];
        assert(all[found - 2] == text@.subrange(percent.0 as int, percent.1 as int));
        assert(all[found - 1] == text@.subrange(zero.0 as int, zero.1 as int));
        if percent.1 - percent.0 == 1 && text[percent.0] == 37 && zero.1 - zero.0 == 1
            && text[zero.0] == 48 {
            assert(all[found - 2] =~= seq![37u8]);
            assert(all[found - 1] =~= seq![48u8]);
            spans.truncate(found - 2);
        } else {
            proof {
                if all[found - 2] == seq![37u8] && all[found - 1] == seq![48u8] {
                    assert(all[found - 2][0] == 37u8);
                    assert(all[found - 1][0] == 48u8);
                }
            }
        }
    }
    let ghost tokens = strip_trailer(all);
    assert(span_tokens(text@, spans@) =~= tokens);
    if spans.len() < 4 {
        return Err(ParseError::InvalidHeader);
    }
    let first = spans[0];
    let second = spans[1];
    assert(tokens[0] == text@.subrange(first.0 as int, first.1 as int));
    assert(tokens[1] == text@.subrange(second.0 as int, second.1 as int));
    if !(first.1 - first.0 == 1 && text[first.0] == 112) {
        proof {
            if tokens[0] == seq![112u8] {
                assert(tokens[0][0] == 112u8);
            }
        }
        return Err(ParseError::InvalidHeader);
    }
    if !(second.1 - second.0 == 3 && text[second.0] == 99 && text[second.0 + 1] == 110
        && text[second.0 + 2] == 102) {
        proof {
            if tokens[1] == seq![99u8, 110u8, 102u8] {
                assert(tokens[1][0] == 99u8);
                assert(tokens[1][1] == 110u8);
                assert(tokens[1][2] == 102u8);
            }
        }
        return Err(ParseError::InvalidHeader);
    }
    assert(tokens[0] =~= seq![112u8]);
    assert(tokens[1] =~= seq![99u8, 110u8, 102u8]);
    assert(tokens[2] == text@.subrange(spans@[2].0 as int, spans@[2].1 as int));
    assert(tokens[3] == text@.subrange(spans@[3].0 as int, spans@[3].1 as int));
    let num_vars = match parse_unsigned_token(text, spans[2].0, spans[2].1) {
        Some(num_vars) => num_vars,
        None => {
            return Err(ParseError::InvalidVariableCount);
        },
    };
    let num_clauses = match parse_unsigned_token(text, spans[3].0, spans[3].1) {
        Some(num_clauses) => num_clauses,
        None => {
            return Err(ParseError::InvalidClauseCount);
        },
    };
    let ghost body = tokens.skip(4);
    let mut numbers: Vec<(bool, usize)> = Vec::new();
    let mut k: usize = 4;
    while k < spans.len()
        invariant
            4 <= k <= spans.len(),
            spans_valid(text@, spans@),
            span_tokens(text@, spans@) == tokens,
            tokens == strip_trailer(tokens_from(text@, 0)),
            tokens[0] == seq![112u8],
            tokens[1] == seq![99u8, 110u8, 102u8],
            parse_unsigned(tokens[2]) == Some(num_vars),
            parse_unsigned(tokens[3]) == Some(num_clauses),
            body == tokens.skip(4),
            numbers.len() == k - 4,
            first_invalid(body, num_vars, k - 4) == first_invalid(body, num_vars, 0),
            forall|j: int|
                0 <= j < k - 4 ==> body_number(#[trigger] body[j], num_vars) == Some(
                    signed_value(numbers@[j]),
                ),
        decreases spans.len() - k,
    {
        let span = spans[k];
        assert(body[k - 4] == text@.subrange(span.0 as int, span.1 as int)) by {
            assert(tokens[k as int] == text@.subrange(span.0 as int, span.1 as int));
        }
        match parse_signed_token(text, span.0, span.1) {
            Some((negative, index)) => {
                if index > num_vars {
                    return Err(ParseError::InvalidLiteral(k - 4));
                }
                let ghost before = numbers@;
                numbers.push((negative, index));
                assert forall|j: int| 0 <= j < k - 3 implies body_number(
                    #[trigger] body[j],
                    num_vars,
                ) == Some(signed_value(numbers@[j])) by {
                    if j < k - 4 {
                        assert(numbers@[j] == before[j]);
                    }
                }
            },
            None => {
                return Err(ParseError::InvalidLiteral(k - 4));
            },
        }
        k += 1;
    }
    let clauses = group_clauses(&numbers, Ghost(body), Ghost(num_vars));
    if clauses.len() != num_clauses {
        return Err(ParseError::WrongClauseCount);
    }
    Ok(CnfFormula { num_vars, clauses })
}

/// Reads a formula in the DIMACS format from a string.
pub fn parse_dimacs_str(text: &str) -> (r: Result<CnfFormula, ParseError>)
    ensures
        match r {
            Ok(formula) => parsed(text.spec_bytes()) == Ok::<(usize, Seq<Seq<Lit>>), ParseError>(
                (formula.num_vars, formula@),
            ),
            Err(error) => parsed(text.spec_bytes()) == Err::<(usize, Seq<Seq<Lit>>), ParseError>(
                error,
            ),
        },
        r matches Ok(formula) ==> formula.wf() && declared_clauses(text.spec_bytes()) == Some(
            formula.clauses.len(),
        ),
{
    parse_dimacs(text.as_bytes())
}

/// Why an answer cannot be written.
#[derive(Debug, Clone, Copy, PartialEq, Eq, Structural)]
pub enum OutputError {
    /// The assignment leaves a variable unassigned.
    InvalidAssignment,
}

/// The decimal digits of a number.
pub open spec fn decimal(n: nat) -> Seq<u8>
    decreases n,
{
    if n < 10 {
        seq![(48 + n) as u8]
    } else {
        decimal(n / 10).push((48 + n % 10) as u8)
    }
}

/// A literal as a signed integer: the variable's number, with `-` in front
/// where the value is false.
pub open spec fn lit_bytes(lit: Lit) -> Seq<u8> {
    if lit.value == Val::False {
        seq![45u8] + decimal(lit.var.index as nat)
    } else {
        decimal(lit.var.index as nat)
    }
}

/// The literal that a total assignment makes true of variable `index`.
pub open spec fn model_lit(a: Seq<Option<Record>>, index: nat) -> Lit {
    Lit { var: Var { index: index as usize }, value: a[index - 1]->0.value }
}

/// The literals of the variables `1..=upto`, each after a blank.
pub open spec fn model_bytes(a: Seq<Option<Record>>, upto: nat) -> Seq<u8>
    decreases upto,
{
    if upto == 0 {
        Seq::empty()
    } else {
        model_bytes(a, (upto - 1) as nat) + seq![32u8] + lit_bytes(model_lit(a, upto))
    }
}

/// `s SATISFIABLE`, a line feed, and `v`.
pub open spec fn satisfiable_header() -> Seq<u8> {
    seq![115u8, 32u8, 83u8, 65u8, 84u8, 73u8, 83u8, 70u8, 73u8, 65u8, 66u8, 76u8, 69u8, 10u8, 118u8]
}

/// `s UNSATISFIABLE`.
pub open spec fn unsatisfiable_header() -> Seq<u8> {
    seq![115u8, 32u8, 85u8, 78u8, 83u8, 65u8, 84u8, 73u8, 83u8, 70u8, 73u8, 65u8, 66u8, 76u8, 69u8]
}

/// What is written for an answer: for an assignment the line
/// `s SATISFIABLE` and the line `v` with one literal for each variable in
/// order; for none the line `s UNSATISFIABLE`.
pub open spec fn dimacs_bytes(answer: Option<Seq<Option<Record>>>) -> Result<Seq<u8>, OutputError> {
    match answer {
        Some(a) => if is_total(a) {
            Ok(satisfiable_header() + model_bytes(a, a.len()) + seq![10u8])
        } else {
            Err(OutputError::InvalidAssignment)
        },
        None => Ok(unsatisfiable_header() + seq![10u8]),
    }
}

/// The literals of a clause, each followed by a blank.
pub open spec fn lits_bytes(clause: Seq<Lit>) -> Seq<u8>
    decreases clause.len(),
{
    if clause.len() == 0 {
        Seq::empty()
    } else {
        lits_bytes(clause.drop_last()) + lit_bytes(clause.last()) + seq![32u8]
    }
}

/// One line for each clause: its literals, then `0`.
pub open spec fn drat_bytes(clauses: Seq<Seq<Lit>>) -> Seq<u8>
    decreases clauses.len(),
{
    if clauses.len() == 0 {
        Seq::empty()
    } else {
        drat_bytes(clauses.drop_last()) + lits_bytes(clauses.last()) + seq![48u8, 10u8]
    }
}

fn push_decimal(out: &mut Vec<u8>, n: usize)
    ensures
        final(out)@ == old(out)@ + decimal(n as nat),
    decreases n,
{
    if n < 10 {
        out.push(48 + n as u8);
        assert(out@ =~= old(out)@ + decimal(n as nat));
    } else {
        push_decimal(out, n / 10);
        out.push(48 + (n % 10) as u8);
        assert(out@ =~= old(out)@ + decimal(n as nat));
    }
}

fn push_lit(out: &mut Vec<u8>, lit: Lit)
    ensures
        final(out)@ == old(out)@ + lit_bytes(lit),
{
    if lit.value == Val::False {
        out.push(45);
        push_decimal(out, lit.var.index);
        assert(out@ =~= old(out)@ + lit_bytes(lit));
    } else {
        push_decimal(out, lit.var.index);
    }
}

fn push_bytes(out: &mut Vec<u8>, bytes: &[u8])
    ensures
        final(out)@ == old(out)@ + bytes@,
{
    let mut i: usize = 0;
    assert(out@ =~= old(out)@ + bytes@.take(0));
    while i < bytes.len()
        invariant
            i <= bytes.len(),
            out@ == old(out)@ + bytes@.take(i as int),
        decreases bytes.len() - i,
    {
        out.push(bytes[i]);
        assert(out@ =~= old(out)@ + bytes@.take(i as int + 1));
        i += 1;
    }
    assert(bytes@.take(i as int) =~= bytes@);
}

/// Writes an answer in the DIMACS format.
pub fn output_dimacs(assignment: &Option<Assignment>) -> (r: Result<Vec<u8>, OutputError>)
    ensures
        match r {
            Ok(out) => dimacs_bytes(
                match assignment {
                    Some(a) => Some(a@),
                    None => None,
                },
            ) == Ok::<Seq<u8>, OutputError>(out@),
            Err(error) => dimacs_bytes(
                match assignment {
                    Some(a) => Some(a@),
                    None => None,
                },
            ) == Err::<Seq<u8>, OutputError>(error),
        },
{
    let mut out: Vec<u8> = Vec::new();
    match assignment {
        Some(a) => {
            let header: [u8; 15] = [115, 32, 83, 65, 84, 73, 83, 70, 73, 65, 66, 76, 69, 10, 118];
            push_bytes(&mut out, header.as_slice());
            assert(out@ =~= satisfiable_header());
            let n = a.num_vars();
            let mut i: usize = 0;
            assert(out@ =~= satisfiable_header() + model_bytes(a@, 0));
            while i < n
                invariant
                    i <= n,
                    n == a@.len(),
                    *assignment == Some(*a),
                    forall|j: int| 0 <= j < i ==> (#[trigger] a@[j]) is Some,
                    out@ == satisfiable_header() + model_bytes(a@, i as nat),
                decreases n - i,
            {
                let lit = Lit { var: Var { index: i + 1 }, value: Val::True };
                let value = match a.get(&lit) {
                    Some(true) => Val::True,
                    Some(false) => Val::False,
                    None => {
                        assert(a@[i as int] is None);
                        return Err(OutputError::InvalidAssignment);
                    },
                };
                out.push(32);
                push_lit(&mut out, Lit { var: Var { index: i + 1 }, value });
                assert(out@ =~= satisfiable_header() + model_bytes(a@, (i + 1) as nat));
                i += 1;
            }
            out.push(10);
            proof {
                assert(is_total(a@));
                assert(out@ =~= satisfiable_header() + model_bytes(a@, a@.len()) + seq![10u8]);
            }
            Ok(out)
        },
        None => {
            let header: [u8; 15] = [115, 32, 85, 78, 83, 65, 84, 73, 83, 70, 73, 65, 66, 76, 69];
            push_bytes(&mut out, header.as_slice());
            out.push(10);
            assert(out@ =~= unsatisfiable_header() + seq![10u8]);
            Ok(out)
        },
    }
}

/// Writes a refutation in the DRAT format: one line for each clause, in
/// order, so that the empty clause at the end gives a line with `0` alone.
pub fn output_drat(refutation: &Vec<Clause>) -> (out: Vec<u8>)
    ensures
        out@ == drat_bytes(clause_views(refutation@)),
{
    let ghost clauses = clause_views(refutation@);
    let mut out: Vec<u8> = Vec::new();
    let mut i: usize = 0;
    assert(clauses.take(0) =~= Seq::<Seq<Lit>>::empty());
    while i < refutation.len()
        invariant
            i <= refutation.len(),
            clauses == clause_views(refutation@),
            out@ == drat_bytes(clauses.take(i as int)),
        decreases refutation.len() - i,
    {
        let clause = &refutation[i];
        let ghost before = out@;
        let mut j: usize = 0;
        assert(clause@.take(0) =~= Seq::<Lit>::empty());
        assert(out@ =~= before + lits_bytes(clause@.take(0)));
        while j < clause.literals.len()
            invariant
                j <= clause.literals.len(),
                out@ == before + lits_bytes(clause@.take(j as int)),
            decreases clause.literals.len() - j,
        {
            let ghost here = out@;
            push_lit(&mut out, clause.literals[j]);
            out.push(32);
            proof {
                assert(clause@.take(j as int + 1).drop_last() =~= clause@.take(j as int));
                assert(out@ =~= before + lits_bytes(clause@.take(j as int + 1)));
            }
            j += 1;
        }
        out.push(48);
        out.push(10);
        proof {
            assert(clause@.take(j as int) =~= clause@);
            assert(clauses.take(i as int + 1).drop_last() =~= clauses.take(i as int));
            assert(clauses.take(i as int + 1).last() == clause@);
            assert(out@ =~= drat_bytes(clauses.take(i as int + 1)));
        }
        i += 1;
    }
    assert(clauses.take(i as int) =~= clauses);
    out
}

/// The token at a position, counting from 0 and with the header's tokens
/// counted in, so that literal `k` of the body is token `k + 4`.
pub fn token_at(text: &[u8], index: usize) -> (r: Option<Vec<u8>>)
    ensures
        match r {
            Some(token) => index < tokens_from(text@, 0).len() && token@ == tokens_from(
                text@,
                0,
            )[index as int],
            None => index >= tokens_from(text@, 0).len(),
        },
{
    let spans = tokenize(text);
    if index >= spans.len() {
        return None;
    }
    let (from, to) = spans[index];
    assert(tokens_from(text@, 0)[index as int] == text@.subrange(from as int, to as int));
    let mut token: Vec<u8> = Vec::new();
    let mut i: usize = from;
    assert(token@ =~= text@.subrange(from as int, i as int));
    while i < to
        invariant
            from <= i <= to <= text.len(),
            token@ == text@.subrange(from as int, i as int),
        decreases to - i,
    {
        token.push(text[i]);
        assert(token@ =~= text@.subrange(from as int, i as int + 1));
        i += 1;
    }
    Some(token)
}

/// The decimal digits of a number are digits, at least one, and write the number.
pub proof fn lemma_decimal(n: nat)
    ensures
        decimal(n).len() >= 1,
        all_digits(decimal(n)),
        digits_value(decimal(n)) == n,
        forall|i: int| 0 <= i < decimal(n).len() ==> !is_space(#[trigger] decimal(n)[i]),
    decreases n,
{
    if n < 10 {
        assert(decimal(n).drop_last() =~= Seq::<u8>::empty());
        assert(digits_value(decimal(n).drop_last()) == 0);
        assert(decimal(n).last() == (48 + n) as u8);
    } else {
        lemma_decimal(n / 10);
        let shorter = decimal(n / 10);
        assert(decimal(n).drop_last() =~= shorter);
        assert(decimal(n).last() == (48 + n % 10) as u8);
        assert(digits_value(decimal(n)) == digits_value(shorter) * 10 + (n % 10));
        assert forall|i: int| 0 <= i < decimal(n).len() implies is_digit(
            #[trigger] decimal(n)[i],
        ) by {
            if i < shorter.len() {
                assert(decimal(n)[i] == shorter[i]);
            }
        }
        assert forall|i: int| 0 <= i < decimal(n).len() implies !is_space(
            #[trigger] decimal(n)[i],
        ) by {
            assert(is_digit(decimal(n)[i]));
        }
    }
}

/// The text of a literal holds no space and reads back as the literal.
pub proof fn lemma_lit_bytes(lit: Lit, num_vars: usize)
    requires
        1 <= lit.var.index <= num_vars,
        lit.var.index <= isize::MAX,
    ensures
        lit_bytes(lit).len() >= 1,
        forall|i: int| 0 <= i < lit_bytes(lit).len() ==> !is_space(#[trigger] lit_bytes(lit)[i]),
        body_number(lit_bytes(lit), num_vars) matches Some(number) && number != 0 && lit_of(number)
            == lit,
{
    let digits = decimal(lit.var.index as nat);
    lemma_decimal(lit.var.index as nat);
    let token = lit_bytes(lit);
    if lit.value == Val::False {
        assert(token.drop_first() =~= digits);
        assert forall|i: int| 0 <= i < token.len() implies !is_space(#[trigger] token[i]) by {
            if i > 0 {
                assert(token[i] == digits[i - 1]);
            }
        }
    } else {
        assert(is_digit(digits[0]));
    }
}

/// The position that `skip_spaces` gives is the one with spaces before it
/// and none at it.
pub proof fn lemma_skip_spaces_is(text: Seq<u8>, i: int, limit: int, r: int)
    requires
        0 <= i <= r <= limit <= text.len(),
        forall|j: int| i <= j < r ==> is_space(#[trigger] text[j]),
        r == limit || !is_space(text[r]),
    ensures
        skip_spaces(text, i, limit) == r,
    decreases r - i,
{
    if i < r {
        lemma_skip_spaces_is(text, i + 1, limit, r);
    }
}

/// The position that `word_end` gives is the one with no space before it
/// and one at it.
pub proof fn lemma_word_end_is(text: Seq<u8>, i: int, limit: int, r: int)
    requires
        0 <= i <= r <= limit <= text.len(),
        forall|j: int| i <= j < r ==> !is_space(#[trigger] text[j]),
        r == limit || is_space(text[r]),
    ensures
        word_end(text, i, limit) == r,
    decreases r - i,
{
    if i < r {
        lemma_word_end_is(text, i + 1, limit, r);
    }
}

/// A text followed by a blank and a word has the words of the text and then
/// that word.
pub proof fn lemma_words_append(text: Seq<u8>, word: Seq<u8>, i: int)
    requires
        0 <= i <= text.len(),
        word.len() >= 1,
        forall|j: int| 0 <= j < word.len() ==> !is_space(#[trigger] word[j]),
    ensures
        words(text + seq![32u8] + word, i, (text.len() + 1 + word.len()) as int) == words(
            text,
            i,
            text.len() as int,
        ) + seq![word],
    decreases text.len() - i,
{
    let longer = text + seq![32u8] + word;
    let len = text.len() as int;
    let total = len + 1 + word.len();
    lemma_skip_spaces(text, i, len);
    let start = skip_spaces(text, i, len);
    if start < len {
        lemma_word_end(text, start, len);
        let end = word_end(text, start, len);
        assert forall|j: int| i <= j < start implies is_space(#[trigger] longer[j]) by {
            assert(longer[j] == text[j]);
        }
        assert(longer[start] == text[start]);
        lemma_skip_spaces_is(longer, i, total, start);
        assert forall|j: int| start <= j < end implies !is_space(#[trigger] longer[j]) by {
            assert(longer[j] == text[j]);
        }
        if end < len {
            assert(longer[end] == text[end]);
        } else {
            assert(longer[end] == 32u8);
        }
        lemma_word_end_is(longer, start, total, end);
        lemma_words_append(text, word, end);
        assert(longer.subrange(start, end) =~= text.subrange(start, end));
        assert(seq![text.subrange(start, end)] + (words(text, end, len) + seq![word]) =~= (
        seq![text.subrange(start, end)] + words(text, end, len)) + seq![word]);
    } else {
        assert forall|j: int| i <= j < len + 1 implies is_space(#[trigger] longer[j]) by {
            if j < len {
                assert(longer[j] == text[j]);
            } else {
                assert(longer[j] == 32u8);
            }
        }
        assert(longer[len + 1] == word[0]);
        lemma_skip_spaces_is(longer, i, total, len + 1);
        assert forall|j: int| len + 1 <= j < total implies !is_space(#[trigger] longer[j]) by {
            assert(longer[j] == word[j - len - 1]);
        }
        lemma_word_end_is(longer, len + 1, total, total);
        assert(longer.subrange(len + 1, total) =~= word);
        assert(words(longer, total, total) =~= Seq::<Seq<u8>>::empty());
        assert(words(text, i, len) =~= Seq::<Seq<u8>>::empty());
        assert(seq![word] + Seq::<Seq<u8>>::empty() =~= Seq::<Seq<u8>>::empty() + seq![word]);
    }
}

/// The literals that the answer line lists: the one of each variable up to `upto`.
pub open spec fn model_tokens(a: Seq<Option<Record>>, upto: nat) -> Seq<Seq<u8>> {
    Seq::new(upto, |i: int| lit_bytes(model_lit(a, (i + 1) as nat)))
}

/// The words of the answer line are the literals of the variables in order.
pub proof fn lemma_model_words(a: Seq<Option<Record>>, upto: nat)
    requires
        upto <= a.len(),
        a.len() <= isize::MAX,
    ensures
        words(model_bytes(a, upto), 0, model_bytes(a, upto).len() as int) == model_tokens(a, upto),
    decreases upto,
{
    if upto == 0 {
        assert(words(model_bytes(a, 0), 0, 0) =~= model_tokens(a, 0));
    } else {
        let shorter = model_bytes(a, (upto - 1) as nat);
        let token = lit_bytes(model_lit(a, upto));
        lemma_model_words(a, (upto - 1) as nat);
        lemma_lit_bytes(model_lit(a, upto), a.len() as usize);
        lemma_words_append(shorter, token, 0);
        assert(model_bytes(a, upto).len() == shorter.len() + 1 + token.len());
        assert(model_tokens(a, (upto - 1) as nat) + seq![token] =~= model_tokens(a, upto));
    }
}

/// Output then parse: read again, the answer line of a total assignment
/// gives one literal for each variable, in order, and each is the literal
/// that the assignment makes true.
pub proof fn lemma_model_line_round_trip(a: Seq<Option<Record>>)
    requires
        is_total(a),
        a.len() <= isize::MAX,
    ensures
        words(model_bytes(a, a.len()), 0, model_bytes(a, a.len()).len() as int).len() == a.len(),
        forall|i: int|
            0 <= i < a.len() ==> {
                &&& body_number(
                    #[trigger] words(
                        model_bytes(a, a.len()),
                        0,
                        model_bytes(a, a.len()).len() as int,
                    )[i],
                    a.len() as usize,
                ) matches Some(number)
                &&& number != 0
                &&& lit_of(number).var.index == i + 1
                &&& lit_satisfied(a, lit_of(number))
            },
{
    lemma_model_words(a, a.len());
    let tokens = model_tokens(a, a.len());
    assert forall|i: int| 0 <= i < a.len() implies {
        &&& body_number(#[trigger] tokens[i], a.len() as usize) matches Some(number)
        &&& number != 0
        &&& lit_of(number).var.index == i + 1
        &&& lit_satisfied(a, lit_of(number))
    } by {
        lemma_lit_bytes(model_lit(a, (i + 1) as nat), a.len() as usize);
        assert(a[i] is Some);
    }
}

} // verus!
