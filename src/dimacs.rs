use vstd::prelude::*;
use vstd::string::StringSliceAdditionalSpecFns;
use crate::solver::Solver;
use crate::types::{Lit, MAX_VAR, clause_in_range};

verus! {

/// Why a DIMACS text was refused.
#[derive(Clone, Copy, Debug, PartialEq, Eq, Structural)]
pub enum ParseError {
    /// The text does not start with `p cnf <num_vars> <num_clauses>`.
    BadHeader,
    /// A word after the header is not an integer in `-(2^31-1) ..= 2^31-1`.
    BadLiteral,
    /// The last clause has no terminating `0`.
    UnterminatedClause,
    /// A literal names variable 0 or one above the header's count, or the
    /// count is too large for a literal.
    VarOutOfRange,
}

/// A parsed CNF: the header's counts and the clauses as DIMACS integers.
pub struct Cnf {
    pub num_vars: u32,
    pub num_clauses: usize,
    pub clauses: Vec<Vec<i32>>,
}

pub open spec fn is_space(b: u8) -> bool {
    b == 32 || b == 9 || b == 10 || b == 13
}

/// What the lexer knows after a prefix of the text.
pub struct LexState {
    pub words: Seq<Seq<u8>>,
    pub cur: Seq<u8>,
    pub line_start: bool,
    pub comment: bool,
}

pub open spec fn lex_init() -> LexState {
    LexState { words: Seq::empty(), cur: Seq::empty(), line_start: true, comment: false }
}

/// One byte of lexing: whitespace ends a word; a line whose first byte is
/// `c` is a comment and is skipped up to its newline.
pub open spec fn lex_step(st: LexState, b: u8) -> LexState {
    if st.comment {
        if b == 10 {
            LexState { comment: false, line_start: true, ..st }
        } else {
            st
        }
    } else if is_space(b) {
        LexState {
            words: if st.cur.len() > 0 { st.words.push(st.cur) } else { st.words },
            cur: Seq::empty(),
            line_start: b == 10,
            comment: false,
        }
    } else if st.line_start && b == 99 {
        LexState { comment: true, line_start: false, ..st }
    } else {
        LexState { cur: st.cur.push(b), line_start: false, ..st }
    }
}

pub open spec fn lex_prefix(t: Seq<u8>) -> LexState
    decreases t.len(),
{
    if t.len() == 0 {
        lex_init()
    } else {
        lex_step(lex_prefix(t.drop_last()), t.last())
    }
}

/// The words of a text outside comment lines.
pub open spec fn words_of(t: Seq<u8>) -> Seq<Seq<u8>> {
    let st = lex_prefix(t);
    if st.cur.len() > 0 {
        st.words.push(st.cur)
    } else {
        st.words
    }
}

pub open spec fn is_digit(b: u8) -> bool {
    48 <= b <= 57
}

/// The value of a run of decimal digits.
pub open spec fn digits_value(w: Seq<u8>) -> nat
    decreases w.len(),
{
    if w.len() == 0 {
        0
    } else {
        digits_value(w.drop_last()) * 10 + (w.last() - 48) as nat
    }
}

pub open spec fn all_digits(w: Seq<u8>) -> bool {
    w.len() > 0 && forall|i: int| 0 <= i < w.len() ==> is_digit(#[trigger] w[i])
}

/// The unsigned number that a word writes, if it is one.
pub open spec fn nat_word(w: Seq<u8>) -> Option<nat> {
    if all_digits(w) {
        Some(digits_value(w))
    } else {
        None
    }
}

/// Largest magnitude of a DIMACS integer.
pub const MAX_MAGNITUDE: u64 = 0x7fff_ffff;

/// The integer that a word writes (an optional `-` then digits), if it is
/// one of magnitude at most `MAX_MAGNITUDE`.
pub open spec fn int_word(w: Seq<u8>) -> Option<int> {
    if w.len() > 0 && w[0] == 45 {
        let d = w.subrange(1, w.len() as int);
        if all_digits(d) && digits_value(d) <= MAX_MAGNITUDE {
            Some(-(digits_value(d) as int))
        } else {
            None
        }
    } else if all_digits(w) && digits_value(w) <= MAX_MAGNITUDE {
        Some(digits_value(w) as int)
    } else {
        None
    }
}

/// Clauses read from the body words: finished clauses and the clause under
/// way, or an error.
pub open spec fn body_prefix(ws: Seq<Seq<u8>>) -> Result<(Seq<Seq<i32>>, Seq<i32>), ParseError>
    decreases ws.len(),
{
    if ws.len() == 0 {
        Ok((Seq::empty(), Seq::empty()))
    } else {
        match body_prefix(ws.drop_last()) {
            Err(e) => Err(e),
            Ok((done, cur)) => match int_word(ws.last()) {
                None => Err(ParseError::BadLiteral),
                Some(x) => if x == 0 {
                    Ok((done.push(cur), Seq::empty()))
                } else {
                    Ok((done, cur.push(x as i32)))
                },
            },
        }
    }
}

/// The header's counts, or why it is refused.
pub open spec fn header_of(ws: Seq<Seq<u8>>) -> Option<(nat, nat)> {
    if ws.len() >= 4 && ws[0] == seq![112u8] && ws[1] == seq![99u8, 110u8, 102u8] {
        match (nat_word(ws[2]), nat_word(ws[3])) {
            (Some(n), Some(m)) => if n <= u32::MAX && m <= usize::MAX && m <= MAX_COUNT {
                Some((n, m))
            } else {
                None
            },
            _ => None,
        }
    } else {
        None
    }
}

/// The parse of a DIMACS text: its header's counts and its clauses.
pub open spec fn parse_spec(t: Seq<u8>) -> Result<(nat, nat, Seq<Seq<i32>>), ParseError> {
    let ws = words_of(t);
    match header_of(ws) {
        None => Err(ParseError::BadHeader),
        Some((n, m)) => match body_prefix(ws.subrange(4, ws.len() as int)) {
            Err(e) => Err(e),
            Ok((done, cur)) => if cur.len() > 0 {
                Err(ParseError::UnterminatedClause)
            } else {
                Ok((n, m, done))
            },
        },
    }
}


pub open spec fn view_words(ws: Seq<Vec<u8>>) -> Seq<Seq<u8>> {
    ws.map_values(|w: Vec<u8>| w@)
}

pub open spec fn view_clauses(cs: Seq<Vec<i32>>) -> Seq<Seq<i32>> {
    cs.map_values(|c: Vec<i32>| c@)
}

/// Splits a text into its words, skipping comment lines.
pub fn lex(t: &[u8]) -> (ws: Vec<Vec<u8>>)
    ensures
        view_words(ws@) == words_of(t@),
{
    let mut words: Vec<Vec<u8>> = Vec::new();
    let mut cur: Vec<u8> = Vec::new();
    let mut line_start = true;
    let mut comment = false;
    let mut i: usize = 0;
    while i < t.len()
        invariant
            i <= t@.len(),
            ({
                let st = lex_prefix(t@.take(i as int));
                &&& view_words(words@) == st.words
                &&& cur@ == st.cur
                &&& line_start == st.line_start
                &&& comment == st.comment
            }),
        decreases t@.len() - i,
    {
        let b = t[i];
        proof {
            assert(t@.take(i + 1).drop_last() =~= t@.take(i as int));
            assert(t@.take(i + 1).last() == b);
        }
        if comment {
            if b == 10 {
                comment = false;
                line_start = true;
            }
        } else if b == 32 || b == 9 || b == 10 || b == 13 {
            if cur.len() > 0 {
                let ghost old_words = words@;
                let w = cur;
                let ghost wv = w@;
                words.push(w);
                cur = Vec::new();
                proof {
                    assert(view_words(words@) =~= view_words(old_words).push(wv));
                }
            } else {
                assert(cur@ =~= Seq::<u8>::empty());
            }
            line_start = b == 10;
        } else if line_start && b == 99 {
            comment = true;
            line_start = false;
        } else {
            cur.push(b);
            line_start = false;
        }
        i = i + 1;
    }
    proof {
        assert(t@.take(t@.len() as int) =~= t@);
    }
    if cur.len() > 0 {
        let ghost old_words = words@;
        let ghost wv = cur@;
        words.push(cur);
        proof {
            assert(view_words(words@) =~= view_words(old_words).push(wv));
        }
    }
    words
}

proof fn lemma_digits_monotone(w: Seq<u8>, k: int)
    requires
        0 <= k <= w.len(),
        forall|i: int| 0 <= i < w.len() ==> is_digit(#[trigger] w[i]),
    ensures
        digits_value(w.take(k)) <= digits_value(w),
    decreases w.len() - k,
{
    if k < w.len() {
        lemma_digits_monotone(w, k + 1);
        assert(w.take(k + 1).drop_last() =~= w.take(k));
    } else {
        assert(w.take(k) =~= w);
    }
}

/// The value of the digits `w[start..]`, when they are all digits, at least
/// one, and the value is at most `limit`.
fn digits_upto(w: &Vec<u8>, start: usize, limit: u64) -> (r: Option<u64>)
    requires
        start <= w@.len(),
        9 <= limit <= u64::MAX / 16,
    ensures
        ({
            let d = w@.subrange(start as int, w@.len() as int);
            match r {
                Some(v) => all_digits(d) && digits_value(d) <= limit && v == digits_value(d),
                None => !(all_digits(d) && digits_value(d) <= limit),
            }
        }),
{
    let ghost d = w@.subrange(start as int, w@.len() as int);
    if start == w.len() {
        return None;
    }
    let mut value: u64 = 0;
    let mut i: usize = start;
    while i < w.len()
        invariant
            start <= i <= w@.len(),
            start < w@.len(),
            d == w@.subrange(start as int, w@.len() as int),
            9 <= limit <= u64::MAX / 16,
            forall|k: int| 0 <= k < i - start ==> is_digit(#[trigger] d[k]),
            value == digits_value(d.take(i - start)),
            value <= limit,
        decreases w@.len() - i,
    {
        let b = w[i];
        assert(b == d[i - start]);
        if b < 48 || b > 57 {
            return None;
        }
        let digit = (b - 48) as u64;
        proof {
            assert(d.take(i - start + 1).drop_last() =~= d.take(i - start));
        }
        if value > (limit - digit) / 10 {
            proof {
                assert(value * 10 + digit > limit) by (nonlinear_arith)
                    requires
                        value > (limit - digit) / 10,
                        digit <= 9,
                        9 <= limit,
                ;
                if all_digits(d) {
                    lemma_digits_monotone(d, i - start + 1);
                }
            }
            return None;
        }
        proof {
            assert(value * 10 + digit <= limit) by (nonlinear_arith)
                requires
                    value <= (limit - digit) / 10,
                    digit <= limit,
            ;
        }
        value = value * 10 + digit;
        i = i + 1;
    }
    proof {
        assert(d.take(d.len() as int) =~= d);
    }
    Some(value)
}

/// The integer that the word `w` writes, as `int_word` says.
fn int_of_word(w: &Vec<u8>) -> (r: Option<i32>)
    ensures
        match r {
            Some(x) => int_word(w@) == Some(x as int),
            None => int_word(w@) is None,
        },
{
    if w.len() > 0 && w[0] == 45 {
        match digits_upto(w, 1, MAX_MAGNITUDE) {
            Some(v) => Some(-(v as i32)),
            None => None,
        }
    } else {
        proof {
            assert(w@.subrange(0, w@.len() as int) =~= w@);
        }
        match digits_upto(w, 0, MAX_MAGNITUDE) {
            Some(v) => Some(v as i32),
            None => None,
        }
    }
}

proof fn lemma_body_error_prefix(ws: Seq<Seq<u8>>, k: int)
    requires
        0 <= k <= ws.len(),
        body_prefix(ws.take(k)) is Err,
    ensures
        body_prefix(ws) == body_prefix(ws.take(k)),
    decreases ws.len() - k,
{
    if k < ws.len() {
        assert(ws.take(k + 1).drop_last() =~= ws.take(k));
        lemma_body_error_prefix(ws, k + 1);
    } else {
        assert(ws.take(k) =~= ws);
    }
}

/// Largest clause count that a header may announce.
pub const MAX_COUNT: u64 = 0x0fff_ffff_ffff_ffff;

/// Parses a DIMACS CNF text: comment lines start with `c`; the first words
/// are `p cnf <num_vars> <num_clauses>`; every later word is a literal, and
/// `0` ends a clause.
pub fn parse_cnf(t: &[u8]) -> (r: Result<Cnf, ParseError>)
    ensures
        match r {
            Ok(c) => parse_spec(t@) == Ok::<(nat, nat, Seq<Seq<i32>>), ParseError>((c.num_vars as nat, c.num_clauses as nat, view_clauses(c.clauses@))),
            Err(e) => parse_spec(t@) == Err::<(nat, nat, Seq<Seq<i32>>), ParseError>(e),
        },
{
    let ws = lex(t);
    let ghost wv = view_words(ws@);
    assert(wv == words_of(t@));
    if ws.len() < 4 || ws[0].len() != 1 || ws[0][0] != 112 || ws[1].len() != 3 || ws[1][0] != 99
        || ws[1][1] != 110 || ws[1][2] != 102 {
        proof {
            if wv.len() >= 4 {
                assert(wv[0] == ws@[0]@ && wv[1] == ws@[1]@);
                if wv[0] == seq![112u8] {
                    assert(ws@[0]@.len() == 1 && ws@[0]@[0] == 112);
                }
                if wv[1] == seq![99u8, 110u8, 102u8] {
                    assert(ws@[1]@.len() == 3 && ws@[1]@[0] == 99 && ws@[1]@[1] == 110 && ws@[1]@[2] == 102);
                }
            }
        }
        return Err(ParseError::BadHeader);
    }
    proof {
        assert(wv[0] =~= seq![112u8]);
        assert(wv[1] =~= seq![99u8, 110u8, 102u8]);
        assert(ws@[2]@.subrange(0, ws@[2]@.len() as int) =~= ws@[2]@);
        assert(ws@[3]@.subrange(0, ws@[3]@.len() as int) =~= ws@[3]@);
    }
    let num_vars = match digits_upto(&ws[2], 0, 0xffff_ffff) {
        Some(v) => v as u32,
        None => {
            return Err(ParseError::BadHeader);
        },
    };
    let count_limit: u64 = if (usize::MAX as u64) < MAX_COUNT {
        usize::MAX as u64
    } else {
        MAX_COUNT
    };
    let num_clauses = match digits_upto(&ws[3], 0, count_limit) {
        Some(v) => v as usize,
        None => {
            return Err(ParseError::BadHeader);
        },
    };
    let ghost body = wv.subrange(4, wv.len() as int);
    let mut done: Vec<Vec<i32>> = Vec::new();
    let mut cur: Vec<i32> = Vec::new();
    proof {
        assert(body.take(0) =~= Seq::<Seq<u8>>::empty());
        assert(view_clauses(done@) =~= Seq::<Seq<i32>>::empty());
        assert(header_of(wv) == Some((num_vars as nat, num_clauses as nat)));
    }
    let mut k: usize = 4;
    while k < ws.len()
        invariant
            4 <= k <= ws@.len(),
            wv == view_words(ws@),
            wv == words_of(t@),
            header_of(wv) == Some((num_vars as nat, num_clauses as nat)),
            body == wv.subrange(4, wv.len() as int),
            body_prefix(body.take(k - 4)) == Ok::<(Seq<Seq<i32>>, Seq<i32>), ParseError>((view_clauses(done@), cur@)),
        decreases ws@.len() - k,
    {
        proof {
            assert(body.take(k - 3).drop_last() =~= body.take(k - 4));
            assert(body.take(k - 3).last() == ws@[k as int]@);
        }
        match int_of_word(&ws[k]) {
            None => {
                proof {
                    lemma_body_error_prefix(body, k - 3);
                }
                return Err(ParseError::BadLiteral);
            },
            Some(x) => {
                if x == 0 {
                    let ghost old_done = done@;
                    let c = cur;
                    let ghost cv = c@;
                    done.push(c);
                    cur = Vec::new();
                    proof {
                        assert(view_clauses(done@) =~= view_clauses(old_done).push(cv));
                        assert(cur@ =~= Seq::<i32>::empty());
                    }
                } else {
                    cur.push(x);
                }
            },
        }
        k = k + 1;
    }
    proof {
        assert(body.take(body.len() as int) =~= body);
    }
    if cur.len() > 0 {
        return Err(ParseError::UnterminatedClause);
    }
    Ok(Cnf { num_vars, num_clauses, clauses: done })
}

/// Parses a proof: whitespace-separated DIMACS integers, each one literal;
/// zeros are skipped.
pub fn parse_proof(t: &[u8]) -> (r: Result<Vec<i32>, ParseError>)
    ensures
        match r {
            Ok(lits) => proof_spec(words_of(t@)) == Ok::<Seq<i32>, ParseError>(lits@),
            Err(e) => proof_spec(words_of(t@)) == Err::<Seq<i32>, ParseError>(e),
        },
{
    let ws = lex(t);
    let ghost wv = view_words(ws@);
    let mut lits: Vec<i32> = Vec::new();
    let mut k: usize = 0;
    while k < ws.len()
        invariant
            k <= ws@.len(),
            wv == view_words(ws@),
            wv == words_of(t@),
            proof_spec(wv.take(k as int)) == Ok::<Seq<i32>, ParseError>(lits@),
        decreases ws@.len() - k,
    {
        proof {
            assert(wv.take(k + 1).drop_last() =~= wv.take(k as int));
            assert(wv.take(k + 1).last() == ws@[k as int]@);
        }
        match int_of_word(&ws[k]) {
            None => {
                proof {
                    lemma_proof_error_prefix(wv, k + 1);
                }
                return Err(ParseError::BadLiteral);
            },
            Some(x) => {
                if x != 0 {
                    lits.push(x);
                }
            },
        }
        k = k + 1;
    }
    proof {
        assert(wv.take(wv.len() as int) =~= wv);
    }
    Ok(lits)
}

/// The literals that the words of a proof write, zeros left out.
pub open spec fn proof_spec(ws: Seq<Seq<u8>>) -> Result<Seq<i32>, ParseError>
    decreases ws.len(),
{
    if ws.len() == 0 {
        Ok(Seq::empty())
    } else {
        match proof_spec(ws.drop_last()) {
            Err(e) => Err(e),
            Ok(lits) => match int_word(ws.last()) {
                None => Err(ParseError::BadLiteral),
                Some(x) => if x == 0 {
                    Ok(lits)
                } else {
                    Ok(lits.push(x as i32))
                },
            },
        }
    }
}

proof fn lemma_proof_error_prefix(ws: Seq<Seq<u8>>, k: int)
    requires
        0 <= k <= ws.len(),
        proof_spec(ws.take(k)) is Err,
    ensures
        proof_spec(ws) == proof_spec(ws.take(k)),
    decreases ws.len() - k,
{
    if k < ws.len() {
        assert(ws.take(k + 1).drop_last() =~= ws.take(k));
        lemma_proof_error_prefix(ws, k + 1);
    } else {
        assert(ws.take(k) =~= ws);
    }
}


/// The clauses of a parse, as solver literals, when every variable is in
/// `1..=n` and `n` fits a literal.
pub open spec fn dimacs_spec(t: Seq<u8>) -> Result<(nat, Seq<Seq<i32>>), ParseError> {
    match parse_spec(t) {
        Err(e) => Err(e),
        Ok((n, m, cs)) => if n <= MAX_VAR && forall|i: int, j: int|
            0 <= i < cs.len() && 0 <= j < cs[i].len() ==> -n <= #[trigger] cs[i][j] <= n && cs[i][j] != 0 {
            Ok((n, cs))
        } else {
            Err(ParseError::VarOutOfRange)
        },
    }
}

/// Reads a DIMACS text into a fresh solver holding its clauses, in order.
pub fn parse_dimacs(text: &str) -> (r: Result<Solver, ParseError>)
    ensures
        match r {
            Ok(s) => {
                &&& s.pristine()
                &&& dimacs_spec(text.spec_bytes()) matches Ok((n, cs))
                &&& s.num_vars_spec() == n
                &&& s.formula().len() == cs.len()
                &&& forall|i: int| 0 <= i < cs.len() ==> (#[trigger] s.formula()[i]).len() == cs[i].len()
                &&& forall|i: int, j: int| 0 <= i < cs.len() && 0 <= j < cs[i].len() ==> (#[trigger] s.formula()[i][j])@ == Lit::code_of_dimacs(cs[i][j] as int)
            },
            Err(e) => dimacs_spec(text.spec_bytes()) == Err::<(nat, Seq<Seq<i32>>), ParseError>(e),
        },
{
    let cnf = match parse_cnf(text.as_bytes()) {
        Ok(c) => c,
        Err(e) => {
            return Err(e);
        },
    };
    let ghost cs = view_clauses(cnf.clauses@);
    if cnf.num_vars > MAX_VAR {
        return Err(ParseError::VarOutOfRange);
    }
    let n = cnf.num_vars;
    let mut solver = Solver::new(n);
    let mut i: usize = 0;
    while i < cnf.clauses.len()
        invariant
            i <= cnf.clauses@.len(),
            cs == view_clauses(cnf.clauses@),
            n == cnf.num_vars,
            n <= MAX_VAR,
            solver.pristine(),
            solver.num_vars_spec() == n,
            solver.formula().len() == i,
            forall|a: int, j: int| 0 <= a < i && 0 <= j < cs[a].len() ==> -n <= #[trigger] cs[a][j] <= n && cs[a][j] != 0,
            parse_spec(text.spec_bytes()) == Ok::<(nat, nat, Seq<Seq<i32>>), ParseError>((n as nat, cnf.num_clauses as nat, cs)),
            forall|a: int| 0 <= a < i ==> (#[trigger] solver.formula()[a]).len() == cs[a].len(),
            forall|a: int, j: int| 0 <= a < i && 0 <= j < cs[a].len() ==> (#[trigger] solver.formula()[a][j])@ == Lit::code_of_dimacs(cs[a][j] as int),
        decreases cnf.clauses@.len() - i,
    {
        let clause = &cnf.clauses[i];
        assert(clause@ == cs[i as int]);
        let mut lits: Vec<Lit> = Vec::new();
        let mut j: usize = 0;
        while j < clause.len()
            invariant
                j <= clause@.len(),
                n <= MAX_VAR,
                lits@.len() == j,
                clause@ == cs[i as int],
                i < cs.len(),
                parse_spec(text.spec_bytes()) == Ok::<(nat, nat, Seq<Seq<i32>>), ParseError>((n as nat, cnf.num_clauses as nat, cs)),
                forall|k: int| 0 <= k < j ==> -n <= #[trigger] clause@[k] <= n && clause@[k] != 0,
                forall|k: int| 0 <= k < j ==> (#[trigger] lits@[k])@ == Lit::code_of_dimacs(clause@[k] as int),
                clause_in_range(lits@, n as nat),
            decreases clause@.len() - j,
        {
            let x = clause[j];
            if x == 0 || (x as i64) < -(n as i64) || (x as i64) > (n as i64) {
                proof {
                    assert(cs[i as int][j as int] == x);
                }
                return Err(ParseError::VarOutOfRange);
            }
            let l = Lit::from_dimacs(x);
            lits.push(l);
            j = j + 1;
        }
        proof {
            assert(lits@.len() == clause@.len());
        }
        solver.add_clause(&lits);
        proof {
            assert forall|j: int| 0 <= j < cs[i as int].len() implies -n <= #[trigger] cs[i as int][j] <= n && cs[i as int][j] != 0 by {
                assert(clause@[j] == cs[i as int][j]);
            }
        }
        i = i + 1;
    }
    Ok(solver)
}

} // verus!
