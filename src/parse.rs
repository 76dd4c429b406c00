use crate::lex::{
    bytes_view, is_word, isize_token, lines_of, parse_isize, parse_usize, split_lines,
    split_tokens, starts_with, line_starts_with, token_is, tokens_of, usize_token,
};
use crate::literal::Lit;
use crate::qbf::{abs_of, signed_lit, Clause, QBFLiteral};
use crate::rules::AllExpResRule;
use crate::translate::clause_sets;
use vstd::prelude::*;

verus! {

/// Which part of an input text is malformed.
#[derive(Debug, Clone, Copy, PartialEq, Eq, Structural)]
pub enum ParseError {
    /// Comment lines, or the problem line `p cnf <variables> <clauses>`.
    Preamble,
    /// A quantifier line `e ... 0` or `a ... 0`.
    Quantifier,
    /// A clause line.
    Clause,
    /// An annotation line `x ... 0 ... 0`.
    Annotation,
    /// A rule line `<id> <literals> 0 <antecedent> <antecedent>`.
    Rule,
}

/// The index of the first line at or after `i` that is not a comment.
pub open spec fn skip_comments(lines: Seq<Seq<u8>>, i: int) -> int
    decreases lines.len() - i,
{
    if 0 <= i < lines.len() && starts_with(lines[i], 99u8) {
        skip_comments(lines, i + 1)
    } else {
        i
    }
}

/// The variable and clause counts of a problem line `p cnf <m> <n>`.
pub open spec fn problem_line(toks: Seq<Seq<u8>>) -> Option<(usize, usize)> {
    if toks.len() >= 4 && is_word(toks[0], 112u8) && toks[1] == seq![99u8, 110u8, 102u8] {
        match (usize_token(toks[2]), usize_token(toks[3])) {
            (Some(m), Some(n)) => if m < usize::MAX {
                Some((m, n))
            } else {
                None
            },
            _ => None,
        }
    } else {
        None
    }
}

/// Sets the block of each variable listed from token `j` up to the closing `0`.
pub open spec fn quantified_vars(vars: Seq<usize>, toks: Seq<Seq<u8>>, j: int, block: usize) -> Option<
    Seq<usize>,
>
    decreases toks.len() - j,
{
    if j < 0 || j >= toks.len() {
        None
    } else if is_word(toks[j], 48u8) {
        Some(vars)
    } else {
        match usize_token(toks[j]) {
            Some(v) => if v < vars.len() {
                quantified_vars(vars.update(v as int, block), toks, j + 1, block)
            } else {
                None
            },
            None => None,
        }
    }
}

/// The block of a quantifier line: existential lines open an even block and
/// universal lines an odd one; a line of the same kind as the one before
/// stays in its block.
pub open spec fn next_block(last: Option<bool>, block: usize, existential: bool) -> usize {
    match last {
        None => if existential {
            0
        } else {
            1
        },
        Some(k) => if k == existential {
            block
        } else {
            (block + 1) as usize
        },
    }
}

/// The quantifier prefix from line `i` on: the blocks, and the first line
/// after the prefix.
pub open spec fn quantifier_lines(
    lines: Seq<Seq<u8>>,
    i: int,
    vars: Seq<usize>,
    block: usize,
    last: Option<bool>,
) -> Result<(Seq<usize>, int), ParseError>
    decreases lines.len() - i,
{
    if 0 <= i < lines.len() && (starts_with(lines[i], 101u8) || starts_with(lines[i], 97u8)) {
        let toks = tokens_of(lines[i]);
        if toks.len() == 0 || !(is_word(toks[0], 101u8) || is_word(toks[0], 97u8)) {
            Err(ParseError::Quantifier)
        } else {
            let e = is_word(toks[0], 101u8);
            let b = next_block(last, block, e);
            match quantified_vars(vars, toks, 1, b) {
                Some(v) => quantifier_lines(lines, i + 1, v, b, Some(e)),
                None => Err(ParseError::Quantifier),
            }
        }
    } else {
        Ok((vars, i))
    }
}

/// The literals from token `j` up to the closing `0`, after `acc`; each
/// variable at most `m`.
pub open spec fn clause_tokens(toks: Seq<Seq<u8>>, j: int, m: nat, acc: Seq<Lit>) -> Option<
    Seq<Lit>,
>
    decreases toks.len() - j,
{
    if j < 0 || j >= toks.len() {
        None
    } else if is_word(toks[j], 48u8) {
        Some(acc)
    } else {
        match isize_token(toks[j]) {
            Some(x) => if abs_of(x) <= m {
                clause_tokens(toks, j + 1, m, acc.push(signed_lit(x)))
            } else {
                None
            },
            None => None,
        }
    }
}

/// `count` clause lines from line `i` on, after `acc`.
pub open spec fn clause_lines(
    lines: Seq<Seq<u8>>,
    i: int,
    count: nat,
    m: nat,
    acc: Seq<Set<Lit>>,
) -> Option<Seq<Set<Lit>>>
    decreases count,
{
    if count == 0 {
        Some(acc)
    } else if i < 0 || i >= lines.len() {
        None
    } else {
        match clause_tokens(tokens_of(lines[i]), 0, m, Seq::empty()) {
            Some(c) => clause_lines(lines, i + 1, (count - 1) as nat, m, acc.push(c.to_set())),
            None => None,
        }
    }
}

/// What a QDIMACS text denotes: its clauses, and the block of each variable
/// (block 0 for a variable that no quantifier line names).
pub open spec fn qdimacs_of(text: Seq<u8>) -> Result<(Seq<Set<Lit>>, Seq<usize>), ParseError> {
    let lines = lines_of(text);
    let i = skip_comments(lines, 0);
    if i >= lines.len() {
        Err(ParseError::Preamble)
    } else {
        match problem_line(tokens_of(lines[i])) {
            None => Err(ParseError::Preamble),
            Some((m, n)) => match quantifier_lines(
                lines,
                i + 1,
                Seq::new((m + 1) as nat, |k: int| 0usize),
                0,
                None,
            ) {
                Err(e) => Err(e),
                Ok((vars, k)) => clauses_part(lines, k, n as nat, m as nat, vars),
            },
        }
    }
}

/// The clause lines from line `k` on, with the blocks `vars` read before them.
pub open spec fn clauses_part(lines: Seq<Seq<u8>>, k: int, n: nat, m: nat, vars: Seq<usize>) -> Result<
    (Seq<Set<Lit>>, Seq<usize>),
    ParseError,
> {
    match clause_lines(lines, k, n, m, Seq::empty()) {
        Some(cs) => Ok((cs, vars)),
        None => Err(ParseError::Clause),
    }
}

fn quantified_vars_exec(vars: &mut Vec<usize>, toks: &Vec<Vec<u8>>, block: usize) -> (ok: bool)
    ensures
        ok <==> quantified_vars(old(vars)@, bytes_view(toks@), 1, block) is Some,
        ok ==> quantified_vars(old(vars)@, bytes_view(toks@), 1, block) == Some(final(vars)@),
{
    let ghost tv = bytes_view(toks@);
    let mut j: usize = 1;
    while j < toks.len()
        invariant
            tv == bytes_view(toks@),
            1 <= j,
            quantified_vars(old(vars)@, tv, 1, block) == quantified_vars(vars@, tv, j as int, block),
        decreases toks@.len() - j,
    {
        assert(tv[j as int] == toks@[j as int]@);
        if token_is(&toks[j], 48u8) {
            return true;
        }
        match parse_usize(&toks[j]) {
            Some(v) => {
                if v < vars.len() {
                    vars.set(v, block);
                } else {
                    return false;
                }
            },
            None => {
                return false;
            },
        }
        j = j + 1;
    }
    false
}

fn clause_tokens_exec(toks: &Vec<Vec<u8>>, m: usize) -> (r: Option<Clause>)
    ensures
        r is Some <==> clause_tokens(bytes_view(toks@), 0, m as nat, Seq::empty()) is Some,
        r matches Some(c) ==> c.wf() && clause_tokens(bytes_view(toks@), 0, m as nat, Seq::empty())->Some_0.to_set()
            == c@.to_set(),
{
    let ghost tv = bytes_view(toks@);
    let ghost mut acc: Seq<Lit> = Seq::empty();
    let mut c = Clause::new();
    let mut j: usize = 0;
    assert(c@.to_set() =~= acc.to_set());
    while j < toks.len()
        invariant
            tv == bytes_view(toks@),
            clause_tokens(tv, 0, m as nat, Seq::empty()) == clause_tokens(tv, j as int, m as nat, acc),
            c.wf(),
            c@.to_set() == acc.to_set(),
        decreases toks@.len() - j,
    {
        assert(tv[j as int] == toks@[j as int]@);
        if token_is(&toks[j], 48u8) {
            return Some(c);
        }
        match parse_isize(&toks[j]) {
            Some(x) => {
                let q = QBFLiteral(x);
                if q.variable() <= m {
                    let l = q.to_literal();
                    let ghost lv = l@;
                    c.insert(l);
                    proof {
                        crate::qbf::lemma_push_to_set(acc, lv);
                        acc = acc.push(lv);
                    }
                } else {
                    return None;
                }
            },
            None => {
                return None;
            },
        }
        j = j + 1;
    }
    None
}

/// Reads a QDIMACS text: comment lines, the problem line `p cnf <m> <n>`,
/// the quantifier lines, then `n` clause lines. Returns the clauses in order
/// and the quantifier block of each variable `0 ..= m`.
pub fn parse_qdimacs(qdimacs_string: String) -> (r: Result<(Vec<Clause>, Vec<usize>), ParseError>)
    ensures
        r is Ok <==> qdimacs_of(vstd::utf8::encode_utf8(qdimacs_string@)) is Ok,
        r matches Err(e) ==> qdimacs_of(vstd::utf8::encode_utf8(qdimacs_string@)) == Err::<
            (Seq<Set<Lit>>, Seq<usize>),
            ParseError,
        >(e),
        r matches Ok(res) ==> qdimacs_of(vstd::utf8::encode_utf8(qdimacs_string@)) == Ok::<
            (Seq<Set<Lit>>, Seq<usize>),
            ParseError,
        >((clause_sets(res.0@), res.1@)),
        r matches Ok(res) ==> forall|i: int| 0 <= i < res.0@.len() ==> (#[trigger] res.0@[i]).wf(),
{
    let ghost text = vstd::utf8::encode_utf8(qdimacs_string@);
    let bytes = qdimacs_string.as_str().as_bytes();
    let lines = split_lines(bytes);
    let ghost lv = bytes_view(lines@);
    assert(lv == lines_of(vstd::utf8::encode_utf8(qdimacs_string@)));
    let mut i: usize = 0;
    while i < lines.len() && line_starts_with(&lines[i], 99u8)
        invariant
            lv == bytes_view(lines@),
            i <= lines@.len(),
            skip_comments(lv, 0) == skip_comments(lv, i as int),
        decreases lines@.len() - i,
    {
        assert(lv[i as int] == lines@[i as int]@);
        i = i + 1;
    }
    if i >= lines.len() {
        return Err(ParseError::Preamble);
    }
    assert(lv[i as int] == lines@[i as int]@);
    let toks = split_tokens(&lines[i]);
    let ghost tv = bytes_view(toks@);
    if toks.len() < 4 || !token_is(&toks[0], 112u8) || !(toks[1].len() == 3 && toks[1][0] == 99u8
        && toks[1][1] == 110u8 && toks[1][2] == 102u8) {
        proof {
            if toks@.len() >= 4 {
                assert(tv[0] == toks@[0]@);
                assert(tv[1] == toks@[1]@);
                if tv[1] == seq![99u8, 110u8, 102u8] {
                    assert(toks@[1]@.len() == 3);
                }
            }
        }
        return Err(ParseError::Preamble);
    }
    assert(tv[0] == toks@[0]@);
    assert(tv[1] =~= seq![99u8, 110u8, 102u8]);
    assert(tv[2] == toks@[2]@);
    assert(tv[3] == toks@[3]@);
    let m = match parse_usize(&toks[2]) {
        Some(m) => m,
        None => {
            return Err(ParseError::Preamble);
        },
    };
    let n = match parse_usize(&toks[3]) {
        Some(n) => n,
        None => {
            return Err(ParseError::Preamble);
        },
    };
    if m == usize::MAX {
        return Err(ParseError::Preamble);
    }
    let mut vars: Vec<usize> = Vec::new();
    let mut k: usize = 0;
    while k <= m
        invariant
            m < usize::MAX,
            k <= m + 1,
            vars@ == Seq::new(k as nat, |x: int| 0usize),
        decreases m + 1 - k,
    {
        vars.push(0);
        k = k + 1;
        assert(vars@ =~= Seq::new(k as nat, |x: int| 0usize));
    }
    assert(qdimacs_of(text) == match quantifier_lines(lv, i + 1, vars@, 0, None) {
        Err(e) => Err(e),
        Ok((v, k)) => clauses_part(lv, k, n as nat, m as nat, v),
    });
    i = i + 1;
    let mut block: usize = 0;
    let mut last: Option<bool> = None;
    while i < lines.len() && (line_starts_with(&lines[i], 101u8) || line_starts_with(&lines[i], 97u8))
        invariant
            lv == bytes_view(lines@),
            1 <= i <= lines@.len(),
            block <= i,
            text == vstd::utf8::encode_utf8(qdimacs_string@),
            qdimacs_of(text) == match quantifier_lines(lv, i as int, vars@, block, last) {
                Err(e) => Err(e),
                Ok((v, k)) => clauses_part(lv, k, n as nat, m as nat, v),
            },
        decreases lines@.len() - i,
    {
        assert(lv[i as int] == lines@[i as int]@);
        let qt = split_tokens(&lines[i]);
        let ghost qv = bytes_view(qt@);
        if qt.len() == 0 || !(token_is(&qt[0], 101u8) || token_is(&qt[0], 97u8)) {
            proof {
                if qt@.len() > 0 {
                    assert(qv[0] == qt@[0]@);
                }
            }
            return Err(ParseError::Quantifier);
        }
        assert(qv[0] == qt@[0]@);
        let e = token_is(&qt[0], 101u8);
        let b = match last {
            None => if e {
                0
            } else {
                1
            },
            Some(k) => if k == e {
                block
            } else {
                block + 1
            },
        };
        assert(b == next_block(last, block, e));
        if !quantified_vars_exec(&mut vars, &qt, b) {
            return Err(ParseError::Quantifier);
        }
        block = b;
        last = Some(e);
        i = i + 1;
    }
    assert(quantifier_lines(lv, i as int, vars@, block, last) == Ok::<(Seq<usize>, int), ParseError>(
        (vars@, i as int),
    ));
    // clauses
    let ghost k0 = i as int;
    let mut clauses: Vec<Clause> = Vec::new();
    let mut count: usize = 0;
    let ghost mut acc: Seq<Set<Lit>> = Seq::empty();
    assert(clause_sets(clauses@) =~= acc);
    while count < n
        invariant
            lv == bytes_view(lines@),
            k0 <= i,
            i - k0 == count,
            count <= n,
            text == vstd::utf8::encode_utf8(qdimacs_string@),
            qdimacs_of(text) == match clause_lines(lv, i as int, (n - count) as nat, m as nat, acc) {
                Some(cs) => Ok((cs, vars@)),
                None => Err(ParseError::Clause),
            },
            clause_sets(clauses@) == acc,
            forall|x: int| 0 <= x < clauses@.len() ==> (#[trigger] clauses@[x]).wf(),
        decreases n - count,
    {
        if i >= lines.len() {
            return Err(ParseError::Clause);
        }
        assert(lv[i as int] == lines@[i as int]@);
        let ct = split_tokens(&lines[i]);
        match clause_tokens_exec(&ct, m) {
            Some(c) => {
                let ghost cs = c@.to_set();
                proof {
                    let ls = clause_tokens(bytes_view(ct@), 0, m as nat, Seq::empty())->Some_0;
                    assert(ls.to_set() == cs);
                }
                let ghost pre = clause_sets(clauses@);
                clauses.push(c);
                proof {
                    assert(clause_sets(clauses@) =~= pre.push(cs));
                    acc = acc.push(cs);
                }
            },
            None => {
                return Err(ParseError::Clause);
            },
        }
        i = i + 1;
        count = count + 1;
    }
    Ok((clauses, vars))
}

/// Checks that the tokens from `j` are numbers up to a closing `0`; gives
/// the position of that `0`.
pub open spec fn number_run(toks: Seq<Seq<u8>>, j: int) -> Option<int>
    decreases toks.len() - j,
{
    if j < 0 || j >= toks.len() {
        None
    } else if is_word(toks[j], 48u8) {
        Some(j)
    } else if usize_token(toks[j]) is Some {
        number_run(toks, j + 1)
    } else {
        None
    }
}

/// The numbers from token `j` up to a closing `0`, after `acc`.
pub open spec fn number_list(toks: Seq<Seq<u8>>, j: int, acc: Seq<usize>) -> Option<Seq<usize>>
    decreases toks.len() - j,
{
    if j < 0 || j >= toks.len() {
        None
    } else if is_word(toks[j], 48u8) {
        Some(acc)
    } else {
        match usize_token(toks[j]) {
            Some(v) => number_list(toks, j + 1, acc.push(v)),
            None => None,
        }
    }
}

/// The annotation lines from line `i` on: each `x <numbers> 0 <numbers> 0`
/// appends its second list to the expansion table. Some line must follow.
pub open spec fn annotation_lines(lines: Seq<Seq<u8>>, i: int, table: Seq<usize>) -> Result<
    (Seq<usize>, int),
    ParseError,
>
    decreases lines.len() - i,
{
    if i < 0 || i >= lines.len() {
        Err(ParseError::Annotation)
    } else if starts_with(lines[i], 120u8) {
        let toks = tokens_of(lines[i]);
        match number_run(toks, 1) {
            None => Err(ParseError::Annotation),
            Some(z) => match number_list(toks, z + 1, table) {
                None => Err(ParseError::Annotation),
                Some(t) => annotation_lines(lines, i + 1, t),
            },
        }
    } else {
        Ok((table, i))
    }
}

/// The literals from token `j` up to a closing `0`, after `acc`, and the
/// position of that `0`.
pub open spec fn rule_literals(toks: Seq<Seq<u8>>, j: int, acc: Seq<Lit>) -> Option<
    (Seq<Lit>, int),
>
    decreases toks.len() - j,
{
    if j < 0 || j >= toks.len() {
        None
    } else if is_word(toks[j], 48u8) {
        Some((acc, j))
    } else {
        match isize_token(toks[j]) {
            Some(x) => rule_literals(toks, j + 1, acc.push(signed_lit(x))),
            None => None,
        }
    }
}

/// A rule line `<id> <literals> 0 <antecedent> <antecedent>`: its clause
/// and antecedents.
pub open spec fn rule_line(toks: Seq<Seq<u8>>) -> Option<(Set<Lit>, usize, usize)> {
    if toks.len() == 0 || usize_token(toks[0]) is None {
        None
    } else {
        match rule_literals(toks, 1, Seq::empty()) {
            None => None,
            Some((ls, z)) => if z + 2 < toks.len() {
                match (usize_token(toks[z + 1]), usize_token(toks[z + 2])) {
                    (Some(a1), Some(a2)) => Some((ls.to_set(), a1, a2)),
                    _ => None,
                }
            } else {
                None
            },
        }
    }
}

/// The rule lines from line `i` to the end, after `acc`.
pub open spec fn rule_lines(lines: Seq<Seq<u8>>, i: int, acc: Seq<(Set<Lit>, usize, usize)>) -> Option<
    Seq<(Set<Lit>, usize, usize)>,
>
    decreases lines.len() - i,
{
    if i < 0 || i >= lines.len() {
        Some(acc)
    } else {
        match rule_line(tokens_of(lines[i])) {
            None => None,
            Some(r) => rule_lines(lines, i + 1, acc.push(r)),
        }
    }
}

/// What a proof text denotes: the expansion table (entry 0 unused) and each
/// rule as its clause and antecedents, the second antecedent 0 for an
/// expansion step.
pub open spec fn proof_of(text: Seq<u8>) -> Result<
    (Seq<usize>, Seq<(Set<Lit>, usize, usize)>),
    ParseError,
> {
    let lines = lines_of(text);
    match annotation_lines(lines, 0, seq![0usize]) {
        Err(e) => Err(e),
        Ok((table, k)) => match rule_lines(lines, k, Seq::empty()) {
            Some(rs) => Ok((table, rs)),
            None => Err(ParseError::Rule),
        },
    }
}

/// A step as its clause and antecedents, the second 0 for an expansion step.
pub open spec fn rule_model(r: AllExpResRule) -> (Set<Lit>, usize, usize) {
    match r {
        AllExpResRule::Axiom(c, a) => (c@.to_set(), a, 0),
        AllExpResRule::Resolution(c, a1, a2) => (c@.to_set(), a1, a2),
    }
}

/// The steps of a list of rules.
pub open spec fn rules_model(v: Seq<AllExpResRule>) -> Seq<(Set<Lit>, usize, usize)> {
    v.map_values(|r: AllExpResRule| rule_model(r))
}

fn number_run_exec(toks: &Vec<Vec<u8>>, start: usize) -> (r: Option<usize>)
    ensures
        r matches Some(z) ==> number_run(bytes_view(toks@), start as int) == Some(z as int) && z
            < toks@.len(),
        r is None ==> number_run(bytes_view(toks@), start as int) is None,
{
    let ghost tv = bytes_view(toks@);
    let mut j: usize = start;
    while j < toks.len()
        invariant
            tv == bytes_view(toks@),
            start <= j,
            number_run(tv, start as int) == number_run(tv, j as int),
        decreases toks@.len() - j,
    {
        assert(tv[j as int] == toks@[j as int]@);
        if token_is(&toks[j], 48u8) {
            return Some(j);
        }
        if parse_usize(&toks[j]).is_none() {
            return None;
        }
        j = j + 1;
    }
    None
}

fn number_list_exec(toks: &Vec<Vec<u8>>, start: usize, table: &mut Vec<usize>) -> (ok: bool)
    ensures
        ok <==> number_list(bytes_view(toks@), start as int, old(table)@) is Some,
        ok ==> number_list(bytes_view(toks@), start as int, old(table)@) == Some(final(table)@),
{
    let ghost tv = bytes_view(toks@);
    let mut j: usize = start;
    while j < toks.len()
        invariant
            tv == bytes_view(toks@),
            start <= j,
            number_list(tv, start as int, old(table)@) == number_list(tv, j as int, table@),
        decreases toks@.len() - j,
    {
        assert(tv[j as int] == toks@[j as int]@);
        if token_is(&toks[j], 48u8) {
            return true;
        }
        match parse_usize(&toks[j]) {
            Some(v) => {
                table.push(v);
            },
            None => {
                return false;
            },
        }
        j = j + 1;
    }
    false
}

fn rule_line_exec(toks: &Vec<Vec<u8>>) -> (r: Option<AllExpResRule>)
    ensures
        r is Some <==> rule_line(bytes_view(toks@)) is Some,
        r matches Some(rule) ==> rule_line(bytes_view(toks@)) == Some(rule_model(rule))
            && crate::translate::rule_wf(rule) && (rule matches AllExpResRule::Resolution(_, _, a2)
            ==> a2 != 0),
{
    let ghost tv = bytes_view(toks@);
    if toks.len() == 0 {
        return None;
    }
    assert(tv[0] == toks@[0]@);
    if parse_usize(&toks[0]).is_none() {
        return None;
    }
    let ghost mut acc: Seq<Lit> = Seq::empty();
    let mut c = Clause::new();
    let mut j: usize = 1;
    assert(c@.to_set() =~= acc.to_set());
    while j < toks.len() && !token_is(&toks[j], 48u8)
        invariant
            tv == bytes_view(toks@),
            1 <= j,
            rule_literals(tv, 1, Seq::empty()) == rule_literals(tv, j as int, acc),
            c.wf(),
            c@.to_set() == acc.to_set(),
        decreases toks@.len() - j,
    {
        assert(tv[j as int] == toks@[j as int]@);
        match parse_isize(&toks[j]) {
            Some(x) => {
                let l = QBFLiteral(x).to_literal();
                let ghost lv = l@;
                c.insert(l);
                proof {
                    crate::qbf::lemma_push_to_set(acc, lv);
                    acc = acc.push(lv);
                }
            },
            None => {
                return None;
            },
        }
        j = j + 1;
    }
    if j >= toks.len() {
        return None;
    }
    assert(tv[j as int] == toks@[j as int]@);
    assert(rule_literals(tv, 1, Seq::empty()) == Some((acc, j as int)));
    if toks.len() - j <= 2 {
        return None;
    }
    assert(tv[j + 1] == toks@[j + 1]@);
    assert(tv[j + 2] == toks@[j + 2]@);
    let a1 = match parse_usize(&toks[j + 1]) {
        Some(v) => v,
        None => {
            return None;
        },
    };
    let a2 = match parse_usize(&toks[j + 2]) {
        Some(v) => v,
        None => {
            return None;
        },
    };
    if a2 == 0 {
        Some(AllExpResRule::Axiom(c, a1))
    } else {
        Some(AllExpResRule::Resolution(c, a1, a2))
    }
}

/// Reads a ∀-Exp+Res proof: annotation lines `x <numbers> 0 <numbers> 0`,
/// whose second lists form the expansion table (after an unused entry 0),
/// then one rule per line. A rule whose second antecedent is 0 is an
/// expansion step.
pub fn parse_proof(proof_string: String) -> (r: Result<(Vec<usize>, Vec<AllExpResRule>), ParseError>)
    ensures
        r is Ok <==> proof_of(vstd::utf8::encode_utf8(proof_string@)) is Ok,
        r matches Err(e) ==> proof_of(vstd::utf8::encode_utf8(proof_string@)) == Err::<
            (Seq<usize>, Seq<(Set<Lit>, usize, usize)>),
            ParseError,
        >(e),
        r matches Ok(res) ==> proof_of(vstd::utf8::encode_utf8(proof_string@)) == Ok::<
            (Seq<usize>, Seq<(Set<Lit>, usize, usize)>),
            ParseError,
        >((res.0@, rules_model(res.1@))),
        r matches Ok(res) ==> forall|i: int|
            0 <= i < res.1@.len() ==> crate::translate::rule_wf(#[trigger] res.1@[i]) && (
            res.1@[i] matches AllExpResRule::Resolution(_, _, a2) ==> a2 != 0),
{
    let ghost text = vstd::utf8::encode_utf8(proof_string@);
    let bytes = proof_string.as_str().as_bytes();
    let lines = split_lines(bytes);
    let ghost lv = bytes_view(lines@);
    let mut table: Vec<usize> = Vec::new();
    table.push(0);
    assert(table@ =~= seq![0usize]);
    let mut i: usize = 0;
    loop
        invariant
            lv == bytes_view(lines@),
            text == vstd::utf8::encode_utf8(proof_string@),
            lv == lines_of(text),
            i <= lines@.len(),
            proof_of(text) == match annotation_lines(lv, i as int, table@) {
                Err(e) => Err(e),
                Ok((t, k)) => match rule_lines(lv, k, Seq::empty()) {
                    Some(rs) => Ok((t, rs)),
                    None => Err(ParseError::Rule),
                },
            },
        ensures
            i < lines@.len(),
            !starts_with(lv[i as int], 120u8),
            proof_of(text) == match annotation_lines(lv, i as int, table@) {
                Err(e) => Err(e),
                Ok((t, k)) => match rule_lines(lv, k, Seq::empty()) {
                    Some(rs) => Ok((t, rs)),
                    None => Err(ParseError::Rule),
                },
            },
        decreases lines@.len() - i,
    {
        if i >= lines.len() {
            return Err(ParseError::Annotation);
        }
        assert(lv[i as int] == lines@[i as int]@);
        if !line_starts_with(&lines[i], 120u8) {
            break;
        }
        let toks = split_tokens(&lines[i]);
        match number_run_exec(&toks, 1) {
            None => {
                return Err(ParseError::Annotation);
            },
            Some(z) => {
                if !number_list_exec(&toks, z + 1, &mut table) {
                    return Err(ParseError::Annotation);
                }
            },
        }
        i = i + 1;
    }
    assert(annotation_lines(lv, i as int, table@) == Ok::<(Seq<usize>, int), ParseError>(
        (table@, i as int),
    ));
    let ghost t_final = table@;
    let mut rules: Vec<AllExpResRule> = Vec::new();
    let ghost mut acc: Seq<(Set<Lit>, usize, usize)> = Seq::empty();
    assert(rules_model(rules@) =~= acc);
    while i < lines.len()
        invariant
            lv == bytes_view(lines@),
            text == vstd::utf8::encode_utf8(proof_string@),
            table@ == t_final,
            i <= lines@.len(),
            proof_of(text) == match rule_lines(lv, i as int, acc) {
                Some(rs) => Ok((t_final, rs)),
                None => Err(ParseError::Rule),
            },
            rules_model(rules@) == acc,
            forall|x: int|
                0 <= x < rules@.len() ==> crate::translate::rule_wf(#[trigger] rules@[x]) && (
                rules@[x] matches AllExpResRule::Resolution(_, _, a2) ==> a2 != 0),
        decreases lines@.len() - i,
    {
        assert(lv[i as int] == lines@[i as int]@);
        let toks = split_tokens(&lines[i]);
        match rule_line_exec(&toks) {
            None => {
                return Err(ParseError::Rule);
            },
            Some(rule) => {
                let ghost m = rule_model(rule);
                let ghost pre = rules_model(rules@);
                rules.push(rule);
                proof {
                    assert(rules_model(rules@) =~= pre.push(m));
                    acc = acc.push(m);
                }
            },
        }
        i = i + 1;
    }
    Ok((table, rules))
}

} // verus!
