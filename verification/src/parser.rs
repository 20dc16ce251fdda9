//! Reading a formula in the DIMACS CNF format.
//!
//! The format: comment lines that start with `c`; a problem line
//! `p cnf <variables> <clauses>`; then the clauses, each a list of signed
//! numbers that ends with `0`, where `k` stands for the variable `k` and
//! `-k` for its negation. A clause holds at least one literal. What follows
//! the last clause is not read.

use crate::clause::{has_complement, strictly_ascending, Clause};
use crate::lit::{Lit, MAX_VARS};
use crate::problem::{no_empty_clause, storable, Problem, ProblemBuilder};
use crate::store::MAX_LITS_PER_CLAUSE;
use crate::utils::{append_decimal, decimal};
use vstd::prelude::*;
use vstd::string::StringExecFns;

verus! {

/// Why a text is not a formula that can be read.
#[derive(Debug, Clone, Copy, PartialEq, Eq, Structural)]
pub enum ParseError {
    /// The text ends, or goes on with something else, where the problem
    /// line should start.
    MissingProblemLine,
    /// The problem line does not name the format `cnf`.
    ExpectedCnf,
    /// The problem line lacks the number of variables.
    ExpectedNumVars,
    /// The problem line lacks the number of clauses.
    ExpectedNumClauses,
    /// A clause goes on with something that is no number.
    ExpectedLiteral,
    /// A clause names this variable, but the problem line declares only so
    /// many.
    UnknownVariable(usize, usize),
    /// A clause has no literal.
    EmptyClause,
    /// A clause has more literals than a clause can hold.
    ClauseTooLong,
    /// The formula is too large for the library: more variables than a
    /// literal can name, or a variable in more clauses than an index entry
    /// holds.
    TooLarge,
}

/// The bytes that separate words: blank, tab, line feed, form feed,
/// carriage return.
pub open spec fn is_space(b: u8) -> bool {
    b == 32 || b == 9 || b == 10 || b == 12 || b == 13
}

/// A decimal digit.
pub open spec fn is_digit(b: u8) -> bool {
    48 <= b <= 57
}

/// The first place at or behind `pos` that holds no space.
pub open spec fn skip_spaces(data: Seq<u8>, pos: int) -> int
    decreases data.len() - pos,
{
    if 0 <= pos < data.len() && is_space(data[pos]) {
        skip_spaces(data, pos + 1)
    } else {
        pos
    }
}

/// The place behind the next line feed at or behind `pos`, or the end.
pub open spec fn skip_line(data: Seq<u8>, pos: int) -> int
    decreases data.len() - pos,
{
    if 0 <= pos < data.len() {
        if data[pos] == 10 {
            pos + 1
        } else {
            skip_line(data, pos + 1)
        }
    } else {
        pos
    }
}

/// The first place at or behind `pos` that holds no digit.
pub open spec fn digits_end(data: Seq<u8>, pos: int) -> int
    decreases data.len() - pos,
{
    if 0 <= pos < data.len() && is_digit(data[pos]) {
        digits_end(data, pos + 1)
    } else {
        pos
    }
}

/// The number that the digits from `from` to `to` spell.
pub open spec fn digits_value(data: Seq<u8>, from: int, to: int) -> nat
    decreases to - from,
{
    if to <= from {
        0
    } else {
        digits_value(data, from, to - 1) * 10 + (data[to - 1] - 48) as nat
    }
}

/// The number at `pos`, if digits start there and spell a number that the
/// machine can hold.
pub open spec fn number_at(data: Seq<u8>, pos: int) -> Option<usize> {
    let end = digits_end(data, pos);
    if end > pos && digits_value(data, pos, end) <= usize::MAX {
        Some(digits_value(data, pos, end) as usize)
    } else {
        None
    }
}

/// The place behind the `p` of the problem line, if the text from `pos` on
/// holds nothing but spaces and comment lines before it.
pub open spec fn problem_line(data: Seq<u8>, pos: int) -> Option<int>
    decreases data.len() - pos,
{
    let start = skip_spaces(data, pos);
    if 0 <= pos <= start < data.len() {
        if data[start] == 99 {
            proof {
                lemma_skip_line(data, start);
            }
            problem_line(data, skip_line(data, start))
        } else if data[start] == 112 {
            Some(start + 1)
        } else {
            None
        }
    } else {
        None
    }
}

/// The places keep inside the text and never go back.
pub proof fn lemma_skip_spaces(data: Seq<u8>, pos: int)
    requires
        0 <= pos <= data.len(),
    ensures
        pos <= skip_spaces(data, pos) <= data.len(),
        skip_spaces(data, pos) < data.len() ==> !is_space(data[skip_spaces(data, pos)]),
        forall|i: int| pos <= i < skip_spaces(data, pos) ==> is_space(data[i]),
    decreases data.len() - pos,
{
    if pos < data.len() && is_space(data[pos]) {
        lemma_skip_spaces(data, pos + 1);
    }
}

/// Skipping a line moves on, and stays within the data.
pub proof fn lemma_skip_line(data: Seq<u8>, pos: int)
    requires
        0 <= pos < data.len(),
    ensures
        pos < skip_line(data, pos) <= data.len(),
    decreases data.len() - pos,
{
    if data[pos] != 10 {
        if pos + 1 < data.len() {
            lemma_skip_line(data, pos + 1);
        } else {
            assert(skip_line(data, pos + 1) == pos + 1);
        }
    }
}

/// A run of digits ends within the data.
pub proof fn lemma_digits_end(data: Seq<u8>, pos: int)
    requires
        0 <= pos <= data.len(),
    ensures
        pos <= digits_end(data, pos) <= data.len(),
        digits_end(data, pos) < data.len() ==> !is_digit(data[digits_end(data, pos)]),
        forall|i: int| pos <= i < digits_end(data, pos) ==> is_digit(data[i]),
        pos < data.len() && is_digit(data[pos]) ==> digits_end(data, pos) > pos,
    decreases data.len() - pos,
{
    if pos < data.len() && is_digit(data[pos]) {
        lemma_digits_end(data, pos + 1);
    }
}

/// More digits spell no smaller a number.
pub proof fn lemma_digits_value_grows(data: Seq<u8>, from: int, mid: int, to: int)
    requires
        from <= mid <= to,
        forall|i: int| from <= i < to ==> is_digit(data[i]),
    ensures
        digits_value(data, from, mid) <= digits_value(data, from, to),
    decreases to - mid,
{
    if mid < to {
        lemma_digits_value_grows(data, from, mid, to - 1);
    }
}

/// What the problem line says, and where the clauses start.
pub struct Header {
    pub num_vars: usize,
    pub num_clauses: usize,
    pub clauses_start: int,
}

/// The problem line of the text.
pub open spec fn header_of(data: Seq<u8>) -> Result<Header, ParseError> {
    match problem_line(data, 0) {
        None => Err(ParseError::MissingProblemLine),
        Some(behind_p) => {
            let format = skip_spaces(data, behind_p);
            if !(format + 3 <= data.len() && data[format] == 99 && data[format + 1] == 110
                && data[format + 2] == 102) {
                Err(ParseError::ExpectedCnf)
            } else {
                let vars_at = skip_spaces(data, format + 3);
                match number_at(data, vars_at) {
                    None => Err(ParseError::ExpectedNumVars),
                    Some(num_vars) => {
                        let clauses_at = skip_spaces(data, digits_end(data, vars_at));
                        match number_at(data, clauses_at) {
                            None => Err(ParseError::ExpectedNumClauses),
                            Some(num_clauses) => Ok(
                                Header {
                                    num_vars,
                                    num_clauses,
                                    clauses_start: digits_end(data, clauses_at),
                                },
                            ),
                        }
                    },
                }
            }
        },
    }
}

/// The clause that starts at `pos`, behind the literals `read` that were
/// read of it already: its literals in the order of the text, and the place
/// behind its closing zero.
pub open spec fn clause_at(data: Seq<u8>, pos: int, num_vars: usize, read: Seq<Lit>) -> Result<
    (Seq<Lit>, int),
    ParseError,
>
    decreases data.len() - pos,
{
    let start = skip_spaces(data, pos);
    let negated = 0 <= start < data.len() && data[start] == 45;
    let digits = if negated {
        start + 1
    } else {
        start
    };
    if 0 <= pos <= start <= data.len() {
        proof {
            lemma_digits_end(data, digits);
        }
        match number_at(data, digits) {
            None => Err(ParseError::ExpectedLiteral),
            Some(number) => if number == 0 {
                if read.len() == 0 {
                    Err(ParseError::EmptyClause)
                } else {
                    Ok((read, digits_end(data, digits)))
                }
            } else if number > num_vars {
                Err(ParseError::UnknownVariable(number, num_vars))
            } else if number > MAX_VARS {
                Err(ParseError::TooLarge)
            } else if read.len() >= MAX_LITS_PER_CLAUSE {
                Err(ParseError::ClauseTooLong)
            } else {
                clause_at(
                    data,
                    digits_end(data, digits),
                    num_vars,
                    read.push(Lit::spec_new((number - 1) as usize, !negated)),
                )
            },
        }
    } else {
        Err(ParseError::ExpectedLiteral)
    }
}

/// The clause in normal form: the same literals, in strictly ascending
/// order.
pub open spec fn normal_form(clause: Seq<Lit>) -> Seq<Lit> {
    choose|normal: Seq<Lit>|
        strictly_ascending(normal) && forall|lit: Lit|
            normal.contains(lit) <==> clause.contains(lit)
}

/// The clauses as a builder stores them: each in normal form, tautologies
/// left out.
pub open spec fn built(raw: Seq<Seq<Lit>>) -> Seq<Seq<Lit>>
    decreases raw.len(),
{
    if raw.len() == 0 {
        Seq::empty()
    } else if has_complement(normal_form(raw.last())) {
        built(raw.drop_last())
    } else {
        built(raw.drop_last()).push(normal_form(raw.last()))
    }
}

/// The `remaining` clauses that start at `pos`, behind the clauses `read`.
pub open spec fn clauses_at(
    data: Seq<u8>,
    pos: int,
    remaining: nat,
    num_vars: usize,
    read: Seq<Seq<Lit>>,
) -> Result<Seq<Seq<Lit>>, ParseError>
    decreases remaining,
{
    if remaining == 0 {
        Ok(read)
    } else {
        match clause_at(data, pos, num_vars, Seq::empty()) {
            Err(error) => Err(error),
            Ok((clause, next)) => clauses_at(
                data,
                next,
                (remaining - 1) as nat,
                num_vars,
                read.push(clause),
            ),
        }
    }
}

/// What the text says: the number of variables and the clauses as written,
/// or the first thing that is wrong with it.
pub open spec fn dimacs(data: Seq<u8>) -> Result<(usize, Seq<Seq<Lit>>), ParseError> {
    match header_of(data) {
        Err(error) => Err(error),
        Ok(header) => match clauses_at(
            data,
            header.clauses_start,
            header.num_clauses as nat,
            header.num_vars,
            Seq::empty(),
        ) {
            Err(error) => Err(error),
            Ok(clauses) => Ok((header.num_vars, clauses)),
        },
    }
}

/// Two strictly ascending clauses with the same literals are the same.
pub proof fn lemma_normal_form_unique(one: Seq<Lit>, other: Seq<Lit>)
    requires
        strictly_ascending(one),
        strictly_ascending(other),
        forall|lit: Lit| one.contains(lit) <==> other.contains(lit),
    ensures
        one == other,
    decreases one.len(),
{
    if one.len() == 0 {
        if other.len() > 0 {
            assert(other.contains(other[0]));
        }
        assert(one =~= other);
    } else {
        assert(one.contains(one.last()));
        if other.len() == 0 {
            assert(other.contains(one.last()));
        }
        assert(other.contains(other.last()));
        let a = one.last();
        let b = other.last();
        // The last literal of each is its largest, and each holds the last
        // literal of the other.
        let i = choose|i: int| 0 <= i < other.len() && other[i] == a;
        let j = choose|j: int| 0 <= j < one.len() && one[j] == b;
        if i < other.len() - 1 {
            assert(other[i].0 < other[other.len() - 1].0);
        }
        if j < one.len() - 1 {
            assert(one[j].0 < one[one.len() - 1].0);
        }
        assert(a.0 == b.0);
        assert(a == b);
        let one_front = one.drop_last();
        let other_front = other.drop_last();
        assert forall|lit: Lit| one_front.contains(lit) <==> other_front.contains(lit) by {
            if one_front.contains(lit) {
                let k = choose|k: int| 0 <= k < one_front.len() && one_front[k] == lit;
                assert(one[k] == lit);
                assert(one[k].0 < one[one.len() - 1].0);
                assert(one.contains(lit));
                let m = choose|m: int| 0 <= m < other.len() && other[m] == lit;
                assert(m < other.len() - 1);
                assert(other_front[m] == lit);
            }
            if other_front.contains(lit) {
                let k = choose|k: int| 0 <= k < other_front.len() && other_front[k] == lit;
                assert(other[k] == lit);
                assert(other[k].0 < other[other.len() - 1].0);
                assert(other.contains(lit));
                let m = choose|m: int| 0 <= m < one.len() && one[m] == lit;
                assert(m < one.len() - 1);
                assert(one_front[m] == lit);
            }
        }
        assert forall|x: int, y: int| 0 <= x < y < one_front.len() implies one_front[x].0
            < one_front[y].0 by {
            assert(one[x].0 < one[y].0);
        }
        assert forall|x: int, y: int| 0 <= x < y < other_front.len() implies other_front[x].0
            < other_front[y].0 by {
            assert(other[x].0 < other[y].0);
        }
        lemma_normal_form_unique(one_front, other_front);
        assert(one =~= one_front.push(a));
        assert(other =~= other_front.push(b));
    }
}

/// A cursor over the bytes of a text.
pub struct ByteArrayIterator<'a> {
    data: &'a [u8],
    pos: usize,
}

impl<'a> ByteArrayIterator<'a> {
    /// The text.
    pub closed spec fn text(&self) -> Seq<u8> {
        self.data@
    }

    /// The place of the cursor.
    pub closed spec fn position(&self) -> int {
        self.pos as int
    }

    /// The cursor is inside the text or at its end.
    pub closed spec fn wf(&self) -> bool {
        self.pos <= self.data@.len()
    }

    /// A cursor at the start of the text.
    pub fn new(data: &'a [u8]) -> (cursor: ByteArrayIterator<'a>)
        ensures
            cursor.wf(),
            cursor.text() == data@,
            cursor.position() == 0,
    {
        ByteArrayIterator { data, pos: 0 }
    }

    /// Steps over the byte at the cursor if it is `byte`.
    pub fn advance_if(&mut self, byte: u8) -> (advanced: bool)
        requires
            old(self).wf(),
        ensures
            final(self).wf(),
            final(self).text() == old(self).text(),
            advanced == (old(self).position() < old(self).text().len() && old(self).text()[old(self).position()] == byte),
            final(self).position() == if advanced {
                old(self).position() + 1
            } else {
                old(self).position()
            },
    {
        if self.pos < self.data.len() && self.data[self.pos] == byte {
            self.pos = self.pos + 1;
            true
        } else {
            false
        }
    }

    /// Steps over spaces and comment lines to the problem line and over its
    /// `p`. Tells whether the problem line was found.
    pub fn skip_until_problem_line(&mut self) -> (found: bool)
        requires
            old(self).wf(),
        ensures
            final(self).wf(),
            final(self).text() == old(self).text(),
            found == (problem_line(old(self).text(), old(self).position()) is Some),
            found ==> problem_line(old(self).text(), old(self).position()) == Some(
                final(self).position(),
            ),
    {
        loop
            invariant
                self.wf(),
                self.data == old(self).data,
                problem_line(self.data@, self.pos as int) == problem_line(
                    old(self).data@,
                    old(self).pos as int,
                ),
            decreases self.data@.len() - self.pos,
        {
            let ghost line_start = self.pos as int;
            self.skip_ascii_whitespace();
            proof {
                lemma_skip_spaces(self.data@, line_start);
            }
            if self.pos >= self.data.len() {
                return false;
            }
            let byte = self.data[self.pos];
            if byte == 112 {
                self.pos = self.pos + 1;
                return true;
            }
            if byte != 99 {
                return false;
            }
            let ghost comment = self.pos as int;
            proof {
                lemma_skip_line(self.data@, comment);
                lemma_skip_spaces(self.data@, skip_line(self.data@, comment));
            }
            while self.pos < self.data.len() && self.data[self.pos] != 10
                invariant
                    self.wf(),
                    self.data == old(self).data,
                    comment <= self.pos,
                    skip_line(self.data@, self.pos as int) == skip_line(self.data@, comment),
                decreases self.data@.len() - self.pos,
            {
                self.pos = self.pos + 1;
            }
            if self.pos < self.data.len() {
                self.pos = self.pos + 1;
            }
        }
    }

    /// Steps over the spaces at the cursor.
    pub fn skip_ascii_whitespace(&mut self)
        requires
            old(self).wf(),
        ensures
            final(self).wf(),
            final(self).text() == old(self).text(),
            final(self).position() == skip_spaces(old(self).text(), old(self).position()),
    {
        while self.pos < self.data.len() && Self::is_ascii_whitespace(self.data[self.pos])
            invariant
                self.wf(),
                self.data == old(self).data,
                skip_spaces(self.data@, self.pos as int) == skip_spaces(
                    old(self).data@,
                    old(self).pos as int,
                ),
            decreases self.data@.len() - self.pos,
        {
            self.pos = self.pos + 1;
        }
    }

    /// Whether the byte is white space.
    fn is_ascii_whitespace(byte: u8) -> (space: bool)
        ensures
            space == is_space(byte),
    {
        byte == 32 || byte == 9 || byte == 10 || byte == 12 || byte == 13
    }

    /// Steps over `expected` if the text goes on with it.
    pub fn skip_expected(&mut self, expected: &[u8]) -> (matched: bool)
        requires
            old(self).wf(),
        ensures
            final(self).wf(),
            final(self).text() == old(self).text(),
            matched == (old(self).position() + expected@.len() <= old(self).text().len()
                && old(self).text().subrange(
                old(self).position(),
                old(self).position() + expected@.len(),
            ) == expected@),
            final(self).position() == if matched {
                old(self).position() + expected@.len()
            } else {
                old(self).position()
            },
    {
        let start = self.pos;
        if expected.len() > self.data.len() - start {
            return false;
        }
        let mut i: usize = 0;
        while i < expected.len()
            invariant
                self.wf(),
                self.data == old(self).data,
                self.pos == start,
                start + expected@.len() <= self.data@.len(),
                self.data@.len() <= usize::MAX,
                i <= expected@.len(),
                forall|k: int| 0 <= k < i ==> self.data@[start + k] == expected@[k],
            decreases expected@.len() - i,
        {
            if self.data[start + i] != expected[i] {
                proof {
                    let window = self.data@.subrange(start as int, start + expected@.len());
                    assert(window[i as int] != expected@[i as int]);
                }
                return false;
            }
            i = i + 1;
        }
        proof {
            assert(self.data@.subrange(start as int, start + expected@.len()) =~= expected@);
        }
        self.pos = start + expected.len();
        true
    }

    /// Reads the number at the cursor and steps over its digits. Without a
    /// digit at the cursor, or with a number beyond what the machine holds,
    /// there is no number and the cursor stays.
    pub fn parse_usize(&mut self) -> (number: Option<usize>)
        requires
            old(self).wf(),
        ensures
            final(self).wf(),
            final(self).text() == old(self).text(),
            number == number_at(old(self).text(), old(self).position()),
            final(self).position() == if number is Some {
                digits_end(old(self).text(), old(self).position())
            } else {
                old(self).position()
            },
    {
        let start = self.pos;
        let mut at = start;
        let mut num: usize = 0;
        proof {
            lemma_digits_end(self.data@, start as int);
        }
        while at < self.data.len() && self.data[at] >= 48 && self.data[at] <= 57
            invariant
                self.wf(),
                self.data == old(self).data,
                self.pos == start,
                start <= at <= self.data@.len(),
                forall|i: int| start <= i < at ==> is_digit(self.data@[i]),
                digits_end(self.data@, at as int) == digits_end(self.data@, start as int),
                num == digits_value(self.data@, start as int, at as int),
            decreases self.data@.len() - at,
        {
            let digit = (self.data[at] - 48) as usize;
            let grown = match num.checked_mul(10) {
                Some(tenfold) => tenfold.checked_add(digit),
                None => None,
            };
            match grown {
                Some(value) => {
                    num = value;
                },
                None => {
                    proof {
                        let end = digits_end(self.data@, start as int);
                        lemma_digits_end(self.data@, at as int);
                        lemma_digits_value_grows(self.data@, start as int, at + 1, end);
                    }
                    return None;
                },
            }
            at = at + 1;
        }
        if at == start {
            return None;
        }
        self.pos = at;
        Some(num)
    }
}

/// Reads a formula in the DIMACS CNF format.
///
/// The formula has the variables that the problem line declares and the
/// clauses that follow it, as many as it declares, each in normal form and
/// without the tautologies. The error is the first thing that is wrong
/// with the text, or the finding that the formula is too large.
pub fn parse_dimacs(data: &[u8]) -> (parsed: Result<Problem, ParseError>)
    ensures
        match dimacs(data@) {
            Err(error) => parsed == Err::<Problem, ParseError>(error),
            Ok((num_vars, clauses)) => if storable(num_vars as nat, built(clauses)) {
                parsed matches Ok(problem) && problem.wf() && problem.spec_num_vars() == num_vars
                    && problem.spec_clauses() == built(clauses) && no_empty_clause(
                    problem.spec_clauses(),
                )
            } else {
                parsed == Err::<Problem, ParseError>(ParseError::TooLarge)
            },
        },
{
    let ghost text = data@;
    let mut iter = ByteArrayIterator::new(data);
    if !iter.skip_until_problem_line() {
        return Err(ParseError::MissingProblemLine);
    }
    let ghost behind_p = iter.position();
    iter.skip_ascii_whitespace();
    let cnf: [u8; 3] = [99, 110, 102];
    let ghost format = iter.position();
    let matched = iter.skip_expected(cnf.as_slice());
    proof {
        assert(cnf@.len() == 3 && cnf@[0] == 99 && cnf@[1] == 110 && cnf@[2] == 102);
        if format + 3 <= text.len() {
            let window = text.subrange(format, format + 3);
            assert(window[0] == text[format] && window[1] == text[format + 1] && window[2]
                == text[format + 2]);
            if text[format] == 99 && text[format + 1] == 110 && text[format + 2] == 102 {
                assert(window =~= cnf@);
            }
        }
    }
    if !matched {
        return Err(ParseError::ExpectedCnf);
    }
    iter.skip_ascii_whitespace();
    let ghost vars_at = iter.position();
    let num_vars = match iter.parse_usize() {
        Some(n) => n,
        None => {
            return Err(ParseError::ExpectedNumVars);
        },
    };
    iter.skip_ascii_whitespace();
    let ghost clauses_at_place = iter.position();
    let num_clauses = match iter.parse_usize() {
        Some(n) => n,
        None => {
            return Err(ParseError::ExpectedNumClauses);
        },
    };
    let ghost header = Header { num_vars, num_clauses, clauses_start: iter.position() };
    assert(header_of(text) == Ok::<Header, ParseError>(header));

    let mut problem_builder = ProblemBuilder::new(num_vars, num_clauses);
    let mut clause_buffer = Clause::new();
    let ghost mut raw: Seq<Seq<Lit>> = Seq::empty();
    let mut done: usize = 0;
    while done < num_clauses
        invariant
            text == data@,
            iter.wf(),
            iter.text() == text,
            done <= num_clauses,
            problem_builder.spec_num_vars() == num_vars,
            problem_builder.spec_clauses() == built(raw),
            no_empty_clause(built(raw)),
            clauses_at(text, header.clauses_start, num_clauses as nat, num_vars, Seq::empty())
                == clauses_at(text, iter.position(), (num_clauses - done) as nat, num_vars, raw),
            header_of(text) == Ok::<Header, ParseError>(header),
            header.num_vars == num_vars,
            header.num_clauses == num_clauses,
        decreases num_clauses - done,
    {
        clause_buffer.clear();
        let ghost clause_start = iter.position();
        let ghost rest = (num_clauses - done) as nat;
        assert(clauses_at(text, clause_start, rest, num_vars, raw) == match clause_at(
            text,
            clause_start,
            num_vars,
            Seq::empty(),
        ) {
            Err(error) => Err::<Seq<Seq<Lit>>, ParseError>(error),
            Ok((clause, next)) => clauses_at(
                text,
                next,
                (rest - 1) as nat,
                num_vars,
                raw.push(clause),
            ),
        });
        loop
            invariant_except_break
                clause_at(text, clause_start, num_vars, Seq::empty()) == clause_at(
                    text,
                    iter.position(),
                    num_vars,
                    clause_buffer@,
                ),
            invariant
                text == data@,
                iter.wf(),
                iter.text() == text,
                clause_buffer@.len() <= MAX_LITS_PER_CLAUSE,
                header_of(text) == Ok::<Header, ParseError>(header),
                header.num_vars == num_vars,
                header.num_clauses == num_clauses,
                clauses_at(text, header.clauses_start, num_clauses as nat, num_vars, Seq::empty())
                    == clauses_at(text, clause_start, rest, num_vars, raw),
                clauses_at(text, clause_start, rest, num_vars, raw) == match clause_at(
                    text,
                    clause_start,
                    num_vars,
                    Seq::empty(),
                ) {
                    Err(error) => Err::<Seq<Seq<Lit>>, ParseError>(error),
                    Ok((clause, next)) => clauses_at(
                        text,
                        next,
                        (rest - 1) as nat,
                        num_vars,
                        raw.push(clause),
                    ),
                },
            ensures
                clause_at(text, clause_start, num_vars, Seq::empty()) == Ok::<
                    (Seq<Lit>, int),
                    ParseError,
                >((clause_buffer@, iter.position())),
                clause_buffer@.len() > 0,
            decreases text.len() - iter.position(),
        {
            let ghost here = iter.position();
            let ghost read = clause_buffer@;
            iter.skip_ascii_whitespace();
            let ghost start = iter.position();
            let is_negated = iter.advance_if(45);
            let ghost digits = iter.position();
            proof {
                lemma_skip_spaces(text, here);
                lemma_digits_end(text, digits);
                assert(start == skip_spaces(text, here));
                assert(is_negated == (0 <= start < text.len() && text[start] == 45));
                assert(digits == if is_negated { start + 1 } else { start });
            }
            let parsed_number = iter.parse_usize();
            let literal = match parsed_number {
                Some(n) => n,
                None => {
                    assert(clause_at(text, here, num_vars, read) == Err::<
                        (Seq<Lit>, int),
                        ParseError,
                    >(ParseError::ExpectedLiteral));
                    return Err(ParseError::ExpectedLiteral);
                },
            };
            if literal == 0 {
                if clause_buffer.len() == 0 {
                    assert(clause_at(text, here, num_vars, read) == Err::<
                        (Seq<Lit>, int),
                        ParseError,
                    >(ParseError::EmptyClause));
                    return Err(ParseError::EmptyClause);
                }
                assert(clause_at(text, here, num_vars, read) == Ok::<(Seq<Lit>, int), ParseError>(
                    (read, iter.position()),
                ));
                break ;
            }
            if literal > num_vars {
                assert(clause_at(text, here, num_vars, read) == Err::<
                    (Seq<Lit>, int),
                    ParseError,
                >(ParseError::UnknownVariable(literal, num_vars)));
                return Err(ParseError::UnknownVariable(literal, num_vars));
            }
            if literal > MAX_VARS {
                assert(clause_at(text, here, num_vars, read) == Err::<
                    (Seq<Lit>, int),
                    ParseError,
                >(ParseError::TooLarge));
                return Err(ParseError::TooLarge);
            }
            if clause_buffer.len() >= MAX_LITS_PER_CLAUSE {
                assert(clause_at(text, here, num_vars, read) == Err::<
                    (Seq<Lit>, int),
                    ParseError,
                >(ParseError::ClauseTooLong));
                return Err(ParseError::ClauseTooLong);
            }
            let var_idx = literal - 1;
            clause_buffer.push(Lit::new(var_idx, !is_negated));
            assert(clause_at(text, here, num_vars, read) == clause_at(
                text,
                iter.position(),
                num_vars,
                clause_buffer@,
            ));
        }
        let ghost written = clause_buffer@;
        let ghost stored_before = problem_builder.spec_clauses();
        problem_builder.add_clause(&mut clause_buffer);
        proof {
            let stored = clause_buffer@;
            assert(stored.len() > 0) by {
                assert(written.contains(written[0]));
                assert(stored.contains(written[0]));
            }
            assert forall|c: int|
                0 <= c < problem_builder.spec_clauses().len() implies (
            #[trigger] problem_builder.spec_clauses()[c]).len() > 0 by {
                if c < stored_before.len() {
                    assert(problem_builder.spec_clauses()[c] == stored_before[c]);
                }
            }
            assert(strictly_ascending(normal_form(written)) && forall|lit: Lit|
                normal_form(written).contains(lit) <==> written.contains(lit)) by {
                assert(strictly_ascending(stored) && forall|lit: Lit|
                    stored.contains(lit) <==> written.contains(lit));
            }
            lemma_normal_form_unique(stored, normal_form(written));
            assert(raw.push(written).drop_last() =~= raw);
            raw = raw.push(written);
        }
        done = done + 1;
    }
    match problem_builder.try_build() {
        Some(problem) => Ok(problem),
        None => Err(ParseError::TooLarge),
    }
}

/// The message that a clause names a variable which the problem line does
/// not declare.
pub open spec fn unknown_variable_message(literal: usize, num_vars: usize) -> Seq<char> {
    "Unexpected variable "@ + decimal(literal as nat) + ". The problem only declares "@ + decimal(
        num_vars as nat,
    ) + " variables."@
}

/// The message that a clause names a variable which the problem line does
/// not declare.
fn describe_unknown_variable(literal: usize, num_vars: usize) -> (message: String)
    ensures
        message@ == unknown_variable_message(literal, num_vars),
{
    let mut message = String::from_str("Unexpected variable ");
    append_decimal(&mut message, literal);
    message.append(". The problem only declares ");
    append_decimal(&mut message, num_vars);
    message.append(" variables.");
    message
}

impl ParseError {
    /// The message of the error, as a sequence of characters.
    pub open spec fn spec_message(self) -> Seq<char> {
        match self {
            ParseError::MissingProblemLine => "Unexpected EOF while searching for problem line"@,
            ParseError::ExpectedCnf => "Expected problem format 'cnf'"@,
            ParseError::ExpectedNumVars => "Expected number of variables"@,
            ParseError::ExpectedNumClauses => "Expected number of clauses"@,
            ParseError::ExpectedLiteral => "Expected literal in clause"@,
            ParseError::UnknownVariable(literal, num_vars) => unknown_variable_message(
                literal,
                num_vars,
            ),
            ParseError::EmptyClause => "Clause holds no literal"@,
            ParseError::ClauseTooLong => "Clause holds more literals than a clause can hold"@,
            ParseError::TooLarge => "Formula is too large"@,
        }
    }

    /// The message of the error.
    pub fn message(&self) -> (message: String)
        ensures
            message@ == self.spec_message(),
    {
        match self {
            ParseError::MissingProblemLine => String::from_str(
                "Unexpected EOF while searching for problem line",
            ),
            ParseError::ExpectedCnf => String::from_str("Expected problem format 'cnf'"),
            ParseError::ExpectedNumVars => String::from_str("Expected number of variables"),
            ParseError::ExpectedNumClauses => String::from_str("Expected number of clauses"),
            ParseError::ExpectedLiteral => String::from_str("Expected literal in clause"),
            ParseError::UnknownVariable(literal, num_vars) => describe_unknown_variable(
                *literal,
                *num_vars,
            ),
            ParseError::EmptyClause => String::from_str("Clause holds no literal"),
            ParseError::ClauseTooLong => String::from_str(
                "Clause holds more literals than a clause can hold",
            ),
            ParseError::TooLarge => String::from_str("Formula is too large"),
        }
    }
}

/// Reads a formula in the DIMACS CNF format. An error is reported by its
/// message.
pub fn parse_dimacs_cnf(data: &[u8]) -> (parsed: Result<Problem, String>)
    ensures
        match dimacs(data@) {
            Err(error) => parsed matches Err(message) && message@ == error.spec_message(),
            Ok((num_vars, clauses)) => if storable(num_vars as nat, built(clauses)) {
                parsed matches Ok(problem) && problem.wf() && problem.spec_num_vars() == num_vars
                    && problem.spec_clauses() == built(clauses) && no_empty_clause(
                    problem.spec_clauses(),
                )
            } else {
                parsed matches Err(message) && message@ == ParseError::TooLarge.spec_message()
            },
        },
{
    match parse_dimacs(data) {
        Ok(problem) => Ok(problem),
        Err(error) => Err(error.message()),
    }
}

} // verus!
