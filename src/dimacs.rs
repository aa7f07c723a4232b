//! Reading formulas in the DIMACS CNF format.
//!
//! The text is cut into words: runs of bytes between blanks (space, tab,
//! carriage return, newline), where a line whose first byte is `c` is a
//! comment and yields no word. The words must read `p cnf <variables>
//! <clauses>` followed by integers, each clause closed by `0`.
use vstd::prelude::*;
use crate::data::{Clause, Cnf, formula_of};
use crate::search::clauses_ready;
use crate::model::{abs_sum, var_of};

verus! {

/// Why a text is not a formula.
#[derive(Debug, Clone, Copy, PartialEq, Eq, Structural)]
pub enum ParseError {
    /// the words do not start with `p cnf <variables> <clauses>`
    Header,
    /// more variables than a literal can name
    Variables,
    /// a word after the header is not an integer
    Number,
    /// a literal names a variable above the declared number
    Range,
    /// the last clause is not closed by `0`
    Terminator,
    /// the number of clauses differs from the header
    Count,
    /// the literals of a clause sum beyond what its counter holds
    ClauseSize,
}

pub open spec fn is_blank(b: u8) -> bool {
    b == 32 || b == 9 || b == 13 || b == 10
}

/// Between words.
pub const GAP: u8 = 0;

/// Inside a word.
pub const WORD: u8 = 1;

/// Inside a comment line.
pub const COMMENT: u8 = 2;

/// The words of `s` from position `i` on, given the words already found,
/// the word being read, the lexer mode and whether `i` starts a line.
pub open spec fn lex(s: Seq<u8>, i: int, mode: u8, bol: bool, words: Seq<Seq<u8>>, cur: Seq<u8>) -> Seq<Seq<u8>>
    decreases s.len() - i,
{
    if i >= s.len() {
        if mode == WORD {
            words.push(cur)
        } else {
            words
        }
    } else {
        let b = s[i];
        if mode == COMMENT {
            if b == 10 {
                lex(s, i + 1, GAP, true, words, cur)
            } else {
                lex(s, i + 1, COMMENT, false, words, cur)
            }
        } else if mode == WORD {
            if is_blank(b) {
                lex(s, i + 1, GAP, b == 10, words.push(cur), Seq::empty())
            } else {
                lex(s, i + 1, WORD, false, words, cur.push(b))
            }
        } else if is_blank(b) {
            lex(s, i + 1, GAP, b == 10, words, cur)
        } else if b == 99 && bol {
            lex(s, i + 1, COMMENT, false, words, cur)
        } else {
            lex(s, i + 1, WORD, false, words, seq![b])
        }
    }
}

/// The words of `s`.
pub open spec fn words_of(s: Seq<u8>) -> Seq<Seq<u8>> {
    lex(s, 0, GAP, true, Seq::empty(), Seq::empty())
}

/// Cuts `content` into its words.
pub fn words(content: &[u8]) -> (r: Vec<Vec<u8>>)
    ensures
        r@.map_values(|w: Vec<u8>| w@) == words_of(content@),
{
    let mut out: Vec<Vec<u8>> = Vec::new();
    let mut cur: Vec<u8> = Vec::new();
    let mut mode: u8 = GAP;
    let mut bol: bool = true;
    let mut i: usize = 0;
    proof {
        assert(out@.map_values(|w: Vec<u8>| w@) =~= Seq::<Seq<u8>>::empty());
        assert(cur@ =~= Seq::<u8>::empty());
    }
    while i < content.len()
        invariant
            i <= content@.len(),
            mode == GAP || mode == WORD || mode == COMMENT,
            lex(content@, i as int, mode, bol, out@.map_values(|w: Vec<u8>| w@), cur@) == words_of(content@),
        decreases content@.len() - i,
    {
        let b = content[i];
        let ghost ws = out@.map_values(|w: Vec<u8>| w@);
        if mode == COMMENT {
            if b == 10 {
                mode = GAP;
                bol = true;
            } else {
                bol = false;
            }
        } else if mode == WORD {
            if b == 32 || b == 9 || b == 13 || b == 10 {
                let w = cur;
                out.push(w);
                cur = Vec::new();
                mode = GAP;
                bol = b == 10;
                proof {
                    assert(out@.map_values(|w: Vec<u8>| w@) =~= ws.push(w@));
                    assert(cur@ =~= Seq::<u8>::empty());
                }
            } else {
                cur.push(b);
                bol = false;
            }
        } else if b == 32 || b == 9 || b == 13 || b == 10 {
            bol = b == 10;
        } else if b == 99 && bol {
            mode = COMMENT;
            bol = false;
        } else {
            cur = Vec::new();
            cur.push(b);
            mode = WORD;
            bol = false;
            proof {
                assert(cur@ =~= seq![b]);
            }
        }
        i += 1;
    }
    if mode == WORD {
        let ghost ws = out@.map_values(|w: Vec<u8>| w@);
        let w = cur;
        out.push(w);
        proof {
            assert(out@.map_values(|w: Vec<u8>| w@) =~= ws.push(w@));
        }
    }
    out
}

pub open spec fn is_digit(b: u8) -> bool {
    48 <= b <= 57
}

/// Every byte of `w` is a decimal digit.
pub open spec fn all_digits(w: Seq<u8>) -> bool {
    forall|k: int| 0 <= k < w.len() ==> is_digit(#[trigger] w[k])
}

/// The value of the decimal digits `w`.
pub open spec fn digits_value(w: Seq<u8>) -> int
    decreases w.len(),
{
    if w.len() == 0 {
        0
    } else {
        digits_value(w.drop_last()) * 10 + (w.last() - 48)
    }
}

/// The natural number `w` spells, when it fits a `usize`.
pub open spec fn natural_of(w: Seq<u8>) -> Option<int> {
    if w.len() >= 1 && all_digits(w) && digits_value(w) <= usize::MAX {
        Some(digits_value(w))
    } else {
        None
    }
}

/// The integer `w` spells, an optional `-` before the digits, when its
/// magnitude fits a `usize`.
pub open spec fn integer_of(w: Seq<u8>) -> Option<int> {
    if w.len() >= 1 && w[0] == 45 {
        match natural_of(w.skip(1)) {
            Some(v) => Some(-v),
            None => None,
        }
    } else {
        natural_of(w)
    }
}

proof fn lemma_digits_grow(w: Seq<u8>, k: int)
    requires
        all_digits(w),
        0 <= k <= w.len(),
    ensures
        digits_value(w.take(k)) <= digits_value(w),
        digits_value(w.take(k)) >= 0,
    decreases w.len(),
{
    if k < w.len() {
        let d = w.drop_last();
        assert(d.take(k) =~= w.take(k));
        assert forall|j: int| 0 <= j < d.len() implies is_digit(#[trigger] d[j]) by {
            assert(d[j] == w[j]);
        }
        lemma_digits_grow(d, k);
        assert(is_digit(w[w.len() - 1]));
    } else {
        assert(w.take(k) =~= w);
        if w.len() > 0 {
            let d = w.drop_last();
            assert forall|j: int| 0 <= j < d.len() implies is_digit(#[trigger] d[j]) by {
                assert(d[j] == w[j]);
            }
            lemma_digits_grow(d, d.len() as int);
            assert(d.take(d.len() as int) =~= d);
            assert(is_digit(w[w.len() - 1]));
        }
    }
}

/// Reads the natural number spelled by `w[start..]`.
fn natural(w: &Vec<u8>, start: usize) -> (r: Option<usize>)
    requires
        start <= w@.len(),
    ensures
        match r {
            Some(v) => natural_of(w@.skip(start as int)) == Some(v as int),
            None => natural_of(w@.skip(start as int)) is None,
        },
{
    let ghost s = w@.skip(start as int);
    if start >= w.len() {
        return None;
    }
    let mut v: usize = 0;
    let mut k: usize = start;
    while k < w.len()
        invariant
            start <= k <= w@.len(),
            s == w@.skip(start as int),
            start < w@.len(),
            forall|j: int| 0 <= j < k - start ==> is_digit(#[trigger] s[j]),
            v == digits_value(s.take(k - start)),
        decreases w@.len() - k,
    {
        let b = w[k];
        let ghost p = s.take(k - start + 1);
        proof {
            assert(p.drop_last() =~= s.take(k - start));
            assert(s[k - start] == b);
        }
        if b < 48 || b > 57 {
            proof {
                assert(!is_digit(s[k - start]));
            }
            return None;
        }
        let d = (b - 48) as usize;
        if v > (usize::MAX - d) / 10 {
            proof {
                assert(v * 10 + d > usize::MAX) by (nonlinear_arith)
                    requires
                        v > (usize::MAX - d) / 10,
                        0 <= d <= 9,
                ;
                assert(digits_value(p) == v * 10 + d);
                if all_digits(s) {
                    lemma_digits_grow(s, k - start + 1);
                }
            }
            return None;
        }
        proof {
            assert(v * 10 + d <= usize::MAX) by (nonlinear_arith)
                requires
                    v <= (usize::MAX - d) / 10,
                    0 <= d <= 9,
            ;
        }
        v = v * 10 + d;
        k += 1;
    }
    proof {
        assert(s.take(k - start) =~= s);
    }
    Some(v)
}

/// Reads the integer spelled by `w` as a sign (true for `-`) and a magnitude.
fn integer(w: &Vec<u8>) -> (r: Option<(bool, usize)>)
    ensures
        match r {
            Some((neg, v)) => integer_of(w@) == Some(if neg { -(v as int) } else { v as int }),
            None => integer_of(w@) is None,
        },
{
    if w.len() >= 1 && w[0] == 45 {
        match natural(w, 1) {
            Some(v) => Some((true, v)),
            None => None,
        }
    } else {
        proof {
            assert(w@.skip(0) =~= w@);
        }
        match natural(w, 0) {
            Some(v) => Some((false, v)),
            None => None,
        }
    }
}

/// The numbers of variables and clauses the header declares.
pub open spec fn header_of(ws: Seq<Seq<u8>>) -> Option<(int, int)> {
    if ws.len() >= 4 && ws[0] == seq![112u8] && ws[1] == seq![99u8, 110u8, 102u8] && natural_of(
        ws[2],
    ) is Some && natural_of(ws[3]) is Some {
        Some((natural_of(ws[2])->0, natural_of(ws[3])->0))
    } else {
        None
    }
}

/// Reads the words `ws` as literals over `n` variables: the clauses closed
/// by `0` and the literals of the clause still open, or the error of the
/// first word that does not fit.
pub open spec fn scan(ws: Seq<Seq<u8>>, n: int) -> Result<(Seq<Seq<isize>>, Seq<isize>), ParseError>
    decreases ws.len(),
{
    if ws.len() == 0 {
        Ok((Seq::empty(), Seq::empty()))
    } else {
        match scan(ws.drop_last(), n) {
            Err(e) => Err(e),
            Ok((cs, cur)) => match integer_of(ws.last()) {
                None => Err(ParseError::Number),
                Some(v) => if v == 0 {
                    Ok((cs.push(cur), Seq::empty()))
                } else if var_of(v) > n {
                    Err(ParseError::Range)
                } else if abs_sum(cur.push(v as isize)) > isize::MAX {
                    Err(ParseError::ClauseSize)
                } else {
                    Ok((cs, cur.push(v as isize)))
                },
            },
        }
    }
}

/// Once reading a prefix of the words fails, reading all of them fails the
/// same way.
proof fn lemma_scan_error(ws: Seq<Seq<u8>>, n: int, j: int)
    requires
        0 <= j <= ws.len(),
        scan(ws.take(j), n) is Err,
    ensures
        scan(ws, n) == scan(ws.take(j), n),
    decreases ws.len(),
{
    if j < ws.len() {
        assert(ws.drop_last().take(j) =~= ws.take(j));
        lemma_scan_error(ws.drop_last(), n, j);
    } else {
        assert(ws.take(j) =~= ws);
    }
}

/// What the text `s` holds: the numbers of variables and clauses and the
/// literals of every clause, or why it is no formula.
pub open spec fn parse_spec(s: Seq<u8>) -> Result<(int, int, Seq<Seq<isize>>), ParseError> {
    let ws = words_of(s);
    match header_of(ws) {
        None => Err(ParseError::Header),
        Some((n, m)) => if n >= isize::MAX {
            Err(ParseError::Variables)
        } else {
            match scan(ws.skip(4), n) {
                Err(e) => Err(e),
                Ok((cs, cur)) => if cur.len() > 0 {
                    Err(ParseError::Terminator)
                } else if cs.len() != m {
                    Err(ParseError::Count)
                } else {
                    Ok((n, m, cs))
                },
            }
        },
    }
}

/// Parses a formula in DIMACS CNF: the numbers of variables and clauses the
/// header declares and the clauses, or why the text is no formula.
pub fn parse(content: &[u8]) -> (r: Result<(usize, usize, Vec<Clause>), ParseError>)
    ensures
        match r {
            Ok((n, m, cs)) => {
                &&& parse_spec(content@) == Ok::<(int, int, Seq<Seq<isize>>), ParseError>((n as int, m as int, formula_of(cs@)))
                &&& n < isize::MAX
                &&& clauses_ready(cs@, n as int)
            },
            Err(e) => parse_spec(content@) == Err::<(int, int, Seq<Seq<isize>>), ParseError>(e),
        },
{
    let ws = words(content);
    let ghost wv = ws@.map_values(|w: Vec<u8>| w@);
    assert(wv == words_of(content@));
    if ws.len() < 4 {
        return Err(ParseError::Header);
    }
    assert(wv[0] == ws@[0]@ && wv[1] == ws@[1]@ && wv[2] == ws@[2]@ && wv[3] == ws@[3]@);
    let p_ok = ws[0].len() == 1 && ws[0][0] == 112;
    let cnf_ok = ws[1].len() == 3 && ws[1][0] == 99 && ws[1][1] == 110 && ws[1][2] == 102;
    proof {
        if p_ok {
            assert(wv[0] =~= seq![112u8]);
        }
        if cnf_ok {
            assert(wv[1] =~= seq![99u8, 110u8, 102u8]);
        }
        if wv[0] == seq![112u8] {
            assert(wv[0][0] == 112u8);
        }
        if wv[1] == seq![99u8, 110u8, 102u8] {
            assert(wv[1][0] == 99u8 && wv[1][1] == 110u8 && wv[1][2] == 102u8);
        }
        assert(ws@[2]@.skip(0) =~= ws@[2]@);
        assert(ws@[3]@.skip(0) =~= ws@[3]@);
    }
    if !p_ok || !cnf_ok {
        return Err(ParseError::Header);
    }
    let n = match natural(&ws[2], 0) {
        Some(v) => v,
        None => {
            return Err(ParseError::Header);
        },
    };
    let m = match natural(&ws[3], 0) {
        Some(v) => v,
        None => {
            return Err(ParseError::Header);
        },
    };
    if n >= isize::MAX as usize {
        return Err(ParseError::Variables);
    }
    let ghost body = wv.skip(4);
    let mut clauses: Vec<Clause> = Vec::new();
    let mut cur: Vec<isize> = Vec::new();
    let mut cur_abs: usize = 0;
    let mut k: usize = 4;
    proof {
        assert(body.take(0) =~= Seq::<Seq<u8>>::empty());
        assert(formula_of(clauses@) =~= Seq::<Seq<isize>>::empty());
        assert(cur@ =~= Seq::<isize>::empty());
    }
    while k < ws.len()
        invariant
            4 <= k <= ws@.len(),
            wv == ws@.map_values(|w: Vec<u8>| w@),
            wv == words_of(content@),
            header_of(wv) == Some((n as int, m as int)),
            body == wv.skip(4),
            n < isize::MAX,
            scan(body.take(k - 4), n as int) == Ok::<(Seq<Seq<isize>>, Seq<isize>), ParseError>((formula_of(clauses@), cur@)),
            clauses_ready(clauses@, n as int),
            forall|j: int| 0 <= j < cur@.len() ==> crate::model::is_lit(#[trigger] cur@[j] as int, n as int),
            cur_abs == abs_sum(cur@),
            cur_abs <= isize::MAX,
        decreases ws@.len() - k,
    {
        let ghost pre = body.take(k - 4);
        proof {
            assert(body.take(k - 4 + 1).drop_last() =~= pre);
            assert(body.take(k - 4 + 1).last() == ws@[k as int]@);
        }
        let v = match integer(&ws[k]) {
            Some(v) => v,
            None => {
                proof {
                    lemma_scan_error(body, n as int, k - 4 + 1);
                }
                return Err(ParseError::Number);
            },
        };
        let (neg, mag) = v;
        if mag == 0 {
            let ghost cs0 = clauses@;
            proof {
                crate::model::lemma_counts_bounded(cur@, Seq::empty());
            }
            let c = Clause::new(cur);
            clauses.push(c);
            cur = Vec::new();
            cur_abs = 0;
            proof {
                assert(formula_of(clauses@) =~= formula_of(cs0).push(c.literals@));
                assert(cur@ =~= Seq::<isize>::empty());
                assert forall|i: int, j: int|
                    0 <= i < formula_of(clauses@).len() && 0 <= j < formula_of(clauses@)[i].len() implies crate::model::is_lit(
                    #[trigger] formula_of(clauses@)[i][j] as int,
                    n as int,
                ) by {
                    if i < cs0.len() {
                        assert(formula_of(clauses@)[i] == formula_of(cs0)[i]);
                    }
                }
                assert forall|i: int| 0 <= i < clauses@.len() implies (#[trigger] clauses@[i]).fits() && clauses@[i].counts_match(Seq::empty()) by {
                    if i < cs0.len() {
                        assert(clauses@[i] == cs0[i]);
                    }
                }
            }
        } else {
            if mag > n {
                proof {
                    lemma_scan_error(body, n as int, k - 4 + 1);
                }
                return Err(ParseError::Range);
            }
            if cur_abs + mag > isize::MAX as usize {
                proof {
                    let lit: isize = if neg { -(mag as int) } else { mag as int } as isize;
                    assert(cur@.push(lit).drop_last() =~= cur@);
                    lemma_scan_error(body, n as int, k - 4 + 1);
                }
                return Err(ParseError::ClauseSize);
            }
            let lit: isize = if neg { -(mag as isize) } else { mag as isize };
            let ghost c0 = cur@;
            cur.push(lit);
            cur_abs = cur_abs + mag;
            proof {
                assert(cur@.drop_last() =~= c0);
                assert forall|j: int| 0 <= j < cur@.len() implies crate::model::is_lit(#[trigger] cur@[j] as int, n as int) by {
                    if j < c0.len() {
                        assert(cur@[j] == c0[j]);
                    }
                }
            }
        }
        k += 1;
    }
    proof {
        assert(body.take(k - 4) =~= body);
    }
    if cur.len() > 0 {
        return Err(ParseError::Terminator);
    }
    if clauses.len() != m {
        return Err(ParseError::Count);
    }
    Ok((n, m, clauses))
}

/// Parses a formula in DIMACS CNF and names it `filename`.
pub fn parse_cnf(filename: String, content: &[u8]) -> (r: Result<Cnf, ParseError>)
    ensures
        match r {
            Ok(cnf) => {
                &&& parse_spec(content@) == Ok::<(int, int, Seq<Seq<isize>>), ParseError>((cnf.num_variables as int, cnf.num_clauses as int, cnf.formula()))
                &&& cnf.filename@ == filename@
                &&& cnf.num_variables < isize::MAX
                &&& clauses_ready(cnf.clauses@, cnf.num_variables as int)
            },
            Err(e) => parse_spec(content@) == Err::<(int, int, Seq<Seq<isize>>), ParseError>(e),
        },
{
    match parse(content) {
        Ok((n, m, clauses)) => Ok(Cnf::new(filename, clauses, n, m)),
        Err(e) => Err(e),
    }
}

} // verus!
