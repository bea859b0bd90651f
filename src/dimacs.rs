//! The DIMACS CNF text format, read and written as bytes.
//!
//! Reading follows these rules: surrounding whitespace of the whole text is
//! ignored; the text is split into lines at `\n`; a leading run of lines
//! that start with `c` is skipped; the next line is the header
//! `p cnf <variables> <clauses>`, with both counts unsigned decimal
//! integers; exactly the next `<clauses>` lines are the clauses. A clause
//! line is a run of whitespace-separated signed decimal integers, read up to
//! (and not including) the first one equal to zero. Whitespace is ASCII
//! whitespace: space, `\t`, `\n`, vertical tab, form feed, `\r`.
use crate::clause::{all_valid, Clause};
use crate::literal::valid_value;
use vstd::prelude::*;

verus! {

/// The error returned for text that is not well-formed DIMACS CNF.
#[derive(Debug, Clone, Copy, PartialEq, Eq, Structural)]
pub struct FormatError;

/// ASCII whitespace.
pub open spec fn is_space(b: u8) -> bool {
    b == 32 || (9 <= b && b <= 13)
}

/// An ASCII decimal digit.
pub open spec fn is_digit(b: u8) -> bool {
    48 <= b && b <= 57
}

/// `s` without leading whitespace.
pub open spec fn trim_start(s: Seq<u8>) -> Seq<u8>
    decreases s.len(),
{
    if s.len() > 0 && is_space(s[0]) {
        trim_start(s.drop_first())
    } else {
        s
    }
}

/// `s` without trailing whitespace.
pub open spec fn trim_end(s: Seq<u8>) -> Seq<u8>
    decreases s.len(),
{
    if s.len() > 0 && is_space(s.last()) {
        trim_end(s.drop_last())
    } else {
        s
    }
}

/// `s` without leading and trailing whitespace.
pub open spec fn trim(s: Seq<u8>) -> Seq<u8> {
    trim_end(trim_start(s))
}

/// The number of bytes from `i` up to the next newline or the end.
pub open spec fn line_len(s: Seq<u8>, i: int) -> nat
    decreases s.len() - i,
{
    if i < 0 || i >= s.len() || s[i] == 10 {
        0
    } else {
        1 + line_len(s, i + 1)
    }
}

/// The lines of `s` from position `i` on. A final newline ends the last
/// line and does not start another.
pub open spec fn lines_from(s: Seq<u8>, i: int) -> Seq<Seq<u8>>
    decreases s.len() + 1 - i,
    via lines_from_decreases
{
    if i < 0 || i >= s.len() {
        Seq::empty()
    } else {
        seq![s.subrange(i, i + line_len(s, i))] + lines_from(s, i + line_len(s, i) + 1)
    }
}

/// The number of bytes from `i` up to the next whitespace or the end.
pub open spec fn token_len(s: Seq<u8>, i: int) -> nat
    decreases s.len() - i,
{
    if i < 0 || i >= s.len() || is_space(s[i]) {
        0
    } else {
        1 + token_len(s, i + 1)
    }
}

/// The whitespace-separated tokens of `s` from position `i` on.
pub open spec fn tokens_from(s: Seq<u8>, i: int) -> Seq<Seq<u8>>
    decreases s.len() - i,
    via tokens_from_decreases
{
    if i < 0 || i >= s.len() {
        Seq::empty()
    } else if is_space(s[i]) {
        tokens_from(s, i + 1)
    } else {
        seq![s.subrange(i, i + token_len(s, i))] + tokens_from(s, i + token_len(s, i))
    }
}

proof fn lemma_line_len_bound(s: Seq<u8>, i: int)
    requires
        0 <= i < s.len(),
    ensures
        i + line_len(s, i) <= s.len(),
    decreases s.len() - i,
{
    if i + 1 < s.len() {
        lemma_line_len_bound(s, i + 1);
    } else {
        assert(line_len(s, i + 1) == 0);
    }
}

proof fn lemma_token_len_bound(s: Seq<u8>, i: int)
    requires
        0 <= i < s.len(),
    ensures
        i + token_len(s, i) <= s.len(),
    decreases s.len() - i,
{
    if i + 1 < s.len() {
        lemma_token_len_bound(s, i + 1);
    } else {
        assert(token_len(s, i + 1) == 0);
    }
}

#[via_fn]
proof fn lines_from_decreases(s: Seq<u8>, i: int) {
    if 0 <= i < s.len() {
        lemma_line_len_bound(s, i);
    }
}

#[via_fn]
proof fn tokens_from_decreases(s: Seq<u8>, i: int) {
    if 0 <= i < s.len() {
        lemma_token_len_bound(s, i);
    }
}

/// The whitespace-separated tokens of `s`.
pub open spec fn tokens(s: Seq<u8>) -> Seq<Seq<u8>> {
    tokens_from(s, 0)
}

/// The value of a string of decimal digits.
pub open spec fn digits_value(s: Seq<u8>) -> nat
    decreases s.len(),
{
    if s.len() == 0 {
        0
    } else {
        digits_value(s.drop_last()) * 10 + (s.last() - 48) as nat
    }
}

/// Whether every byte of `s` is a decimal digit.
pub open spec fn all_digits(s: Seq<u8>) -> bool {
    forall|i: int| 0 <= i < s.len() ==> is_digit(#[trigger] s[i])
}

/// The value of a nonempty string of digits, if it is at most `limit`.
pub open spec fn bounded_value(s: Seq<u8>, limit: int) -> Option<int> {
    if s.len() > 0 && all_digits(s) && digits_value(s) <= limit {
        Some(digits_value(s) as int)
    } else {
        None
    }
}

/// An unsigned decimal integer that fits in `usize`, with an optional `+`.
pub open spec fn unsigned_value(t: Seq<u8>) -> Option<int> {
    if t.len() > 0 && t[0] == 43 {
        bounded_value(t.drop_first(), usize::MAX as int)
    } else {
        bounded_value(t, usize::MAX as int)
    }
}

/// A signed decimal integer whose magnitude is at most `isize::MAX`, with
/// an optional sign.
pub open spec fn signed_value(t: Seq<u8>) -> Option<int> {
    if t.len() > 0 && t[0] == 45 {
        match bounded_value(t.drop_first(), isize::MAX as int) {
            Some(m) => Some(-m),
            None => None,
        }
    } else if t.len() > 0 && t[0] == 43 {
        bounded_value(t.drop_first(), isize::MAX as int)
    } else {
        bounded_value(t, isize::MAX as int)
    }
}

/// `p` followed by `r`, or `None` if `r` is `None`.
pub open spec fn prefixed<A>(p: Seq<A>, r: Option<Seq<A>>) -> Option<Seq<A>> {
    match r {
        Some(s) => Some(p + s),
        None => None,
    }
}

/// The literals of a clause line whose tokens are `t`, from token `i` up to
/// the first zero; `None` if a token before it is not an integer.
pub open spec fn clause_from(t: Seq<Seq<u8>>, i: int) -> Option<Seq<int>>
    decreases t.len() - i,
{
    if i < 0 || i >= t.len() {
        Some(Seq::empty())
    } else {
        match signed_value(t[i]) {
            None => None,
            Some(v) => if v == 0 {
                Some(Seq::empty())
            } else {
                prefixed(seq![v], clause_from(t, i + 1))
            },
        }
    }
}

/// The literals of one clause line.
pub open spec fn clause_line(l: Seq<u8>) -> Option<Seq<int>> {
    clause_from(tokens(l), 0)
}

/// The clauses of lines `i` up to `end`; `None` if one of them is malformed.
pub open spec fn clauses_from(ls: Seq<Seq<u8>>, i: int, end: int) -> Option<Seq<Seq<int>>>
    decreases end - i,
{
    if i >= end {
        Some(Seq::empty())
    } else {
        match clause_line(ls[i]) {
            None => None,
            Some(c) => prefixed(seq![c], clauses_from(ls, i + 1, end)),
        }
    }
}

/// Whether a line is a comment: it starts with `c`.
pub open spec fn is_comment(l: Seq<u8>) -> bool {
    l.len() > 0 && l[0] == 99
}

/// The number of comment lines in the run that starts at line `k`.
pub open spec fn comments_from(ls: Seq<Seq<u8>>, k: int) -> nat
    decreases ls.len() - k,
{
    if 0 <= k < ls.len() && is_comment(ls[k]) {
        1 + comments_from(ls, k + 1)
    } else {
        0
    }
}

/// The variable and clause counts of a header line `p cnf <n> <m>`.
pub open spec fn header_counts(l: Seq<u8>) -> Option<(int, int)> {
    let t = tokens(l);
    if t.len() >= 4 && t[0] == seq![112u8] && t[1] == seq![99u8, 110u8, 102u8]
        && unsigned_value(t[2]) is Some && unsigned_value(t[3]) is Some {
        Some((unsigned_value(t[2])->0, unsigned_value(t[3])->0))
    } else {
        None
    }
}

/// What a DIMACS CNF text holds: the variable count and the clauses, in
/// file order; `None` if the text is malformed.
pub open spec fn cnf_of(text: Seq<u8>) -> Option<(int, Seq<Seq<int>>)> {
    let ls = lines_from(trim(text), 0);
    let k = comments_from(ls, 0) as int;
    if k >= ls.len() {
        None
    } else {
        match header_counts(ls[k]) {
            None => None,
            Some(nm) => if ls.len() - (k + 1) < nm.1 {
                None
            } else {
                match clauses_from(ls, k + 1, k + 1 + nm.1) {
                    None => None,
                    Some(cs) => Some((nm.0, cs)),
                }
            },
        }
    }
}

/// The views of a sequence of byte vectors.
pub open spec fn views(v: Seq<Vec<u8>>) -> Seq<Seq<u8>> {
    Seq::new(v.len(), |i: int| v[i]@)
}

/// The views of a sequence of clauses.
pub open spec fn clause_views(v: Seq<Clause>) -> Seq<Seq<int>> {
    Seq::new(v.len(), |i: int| v[i]@)
}

proof fn lemma_views_push(v: Seq<Vec<u8>>, x: Vec<u8>)
    ensures
        views(v.push(x)) == views(v).push(x@),
{
    assert(views(v.push(x)) =~= views(v).push(x@));
}

proof fn lemma_clause_views_push(v: Seq<Clause>, x: Clause)
    ensures
        clause_views(v.push(x)) == clause_views(v).push(x@),
{
    assert(clause_views(v.push(x)) =~= clause_views(v).push(x@));
}

/// Copies `s[lo..hi]` into a new vector.
fn copy_range(s: &[u8], lo: usize, hi: usize) -> (r: Vec<u8>)
    requires
        lo <= hi <= s@.len(),
    ensures
        r@ == s@.subrange(lo as int, hi as int),
{
    let mut out: Vec<u8> = Vec::new();
    let mut i: usize = lo;
    while i < hi
        invariant
            lo <= i <= hi <= s@.len(),
            out@ == s@.subrange(lo as int, i as int),
        decreases hi - i,
    {
        out.push(s[i]);
        i = i + 1;
        assert(out@ =~= s@.subrange(lo as int, i as int));
    }
    out
}

/// `s` without leading and trailing whitespace.
pub fn trimmed(s: &[u8]) -> (r: Vec<u8>)
    ensures
        r@ == trim(s@),
{
    let mut lo: usize = 0;
    assert(s@.subrange(0, s@.len() as int) =~= s@);
    while lo < s.len() && (s[lo] == 32 || (9 <= s[lo] && s[lo] <= 13))
        invariant
            lo <= s@.len(),
            trim_start(s@) == trim_start(s@.subrange(lo as int, s@.len() as int)),
        decreases s.len() - lo,
    {
        assert(s@.subrange(lo as int, s@.len() as int).drop_first() =~= s@.subrange(lo + 1, s@.len() as int));
        lo = lo + 1;
    }
    assert(s@.subrange(0, s@.len() as int) =~= s@);
    let mut hi: usize = s.len();
    while hi > lo && (s[hi - 1] == 32 || (9 <= s[hi - 1] && s[hi - 1] <= 13))
        invariant
            lo <= hi <= s@.len(),
            trim_start(s@) == s@.subrange(lo as int, s@.len() as int),
            trim(s@) == trim_end(s@.subrange(lo as int, hi as int)),
        decreases hi - lo,
    {
        assert(s@.subrange(lo as int, hi as int).drop_last() =~= s@.subrange(lo as int, hi - 1));
        hi = hi - 1;
    }
    copy_range(s, lo, hi)
}


/// The lines of `t`, split at `\n`.
pub fn split_lines(t: &Vec<u8>) -> (r: Vec<Vec<u8>>)
    ensures
        views(r@) == lines_from(t@, 0),
{
    let mut out: Vec<Vec<u8>> = Vec::new();
    let mut pos: usize = 0;
    assert(views(out@) + lines_from(t@, 0) =~= lines_from(t@, 0));
    while pos < t.len()
        invariant
            pos <= t.len(),
            lines_from(t@, 0) == views(out@) + lines_from(t@, pos as int),
        decreases t.len() - pos,
    {
        let mut line: Vec<u8> = Vec::new();
        let mut j: usize = pos;
        while j < t.len() && t[j] != 10
            invariant
                pos <= j <= t.len(),
                line@ == t@.subrange(pos as int, j as int),
                line_len(t@, pos as int) == (j - pos) + line_len(t@, j as int),
            decreases t.len() - j,
        {
            line.push(t[j]);
            j = j + 1;
            assert(line@ =~= t@.subrange(pos as int, j as int));
        }
        let ghost rest = lines_from(t@, pos as int);
        assert(rest == seq![line@] + lines_from(t@, j + 1));
        proof {
            lemma_views_push(out@, line);
        }
        out.push(line);
        assert(lines_from(t@, 0) =~= views(out@) + lines_from(t@, j + 1));
        if j == t.len() {
            assert(lines_from(t@, j + 1) =~= lines_from(t@, j as int));
            pos = j;
        } else {
            pos = j + 1;
        }
    }
    assert(views(out@) + lines_from(t@, pos as int) =~= views(out@));
    out
}

/// The whitespace-separated tokens of `l`.
pub fn split_tokens(l: &Vec<u8>) -> (r: Vec<Vec<u8>>)
    ensures
        views(r@) == tokens(l@),
{
    let mut out: Vec<Vec<u8>> = Vec::new();
    let mut pos: usize = 0;
    assert(views(out@) + tokens_from(l@, 0) =~= tokens_from(l@, 0));
    while pos < l.len()
        invariant
            pos <= l.len(),
            tokens(l@) == views(out@) + tokens_from(l@, pos as int),
        decreases l.len() - pos,
    {
        if l[pos] == 32 || (9 <= l[pos] && l[pos] <= 13) {
            pos = pos + 1;
        } else {
            let mut tok: Vec<u8> = Vec::new();
            let mut j: usize = pos;
            while j < l.len() && !(l[j] == 32 || (9 <= l[j] && l[j] <= 13))
                invariant
                    pos <= j <= l.len(),
                    tok@ == l@.subrange(pos as int, j as int),
                    token_len(l@, pos as int) == (j - pos) + token_len(l@, j as int),
                decreases l.len() - j,
            {
                tok.push(l[j]);
                j = j + 1;
                assert(tok@ =~= l@.subrange(pos as int, j as int));
            }
            assert(tokens_from(l@, pos as int) == seq![tok@] + tokens_from(l@, j as int));
            proof {
                lemma_views_push(out@, tok);
            }
            out.push(tok);
            assert(tokens(l@) =~= views(out@) + tokens_from(l@, j as int));
            pos = j;
        }
    }
    assert(views(out@) + tokens_from(l@, pos as int) =~= views(out@));
    out
}

/// A string of digits is worth at least as much as each of its prefixes.
proof fn lemma_prefix_value(s: Seq<u8>, k: int)
    requires
        0 <= k <= s.len(),
        all_digits(s),
    ensures
        digits_value(s.subrange(0, k)) <= digits_value(s),
    decreases s.len(),
{
    if k == s.len() {
        assert(s.subrange(0, k) =~= s);
    } else {
        let d = s.drop_last();
        assert(all_digits(d));
        lemma_prefix_value(d, k);
        assert(d.subrange(0, k) =~= s.subrange(0, k));
    }
}

/// The value of the digits `tok[start..]`, if they are all digits, at
/// least one, and worth at most `limit`.
fn parse_digits(tok: &Vec<u8>, start: usize, limit: usize) -> (r: Option<usize>)
    requires
        start <= tok@.len(),
    ensures
        r matches Some(v) ==> bounded_value(tok@.subrange(start as int, tok@.len() as int), limit as int) == Some(v as int),
        r is None ==> bounded_value(tok@.subrange(start as int, tok@.len() as int), limit as int) is None,
{
    let ghost body = tok@.subrange(start as int, tok@.len() as int);
    if start >= tok.len() {
        return None;
    }
    let mut v: usize = 0;
    let mut i: usize = start;
    assert(tok@.subrange(start as int, start as int) =~= Seq::<u8>::empty());
    while i < tok.len()
        invariant
            start <= i <= tok@.len(),
            body == tok@.subrange(start as int, tok@.len() as int),
            all_digits(tok@.subrange(start as int, i as int)),
            v as int == digits_value(tok@.subrange(start as int, i as int)),
            v <= limit,
        decreases tok.len() - i,
    {
        let b = tok[i];
        if b < 48 || b > 57 {
            assert(!is_digit(body[i - start]));
            return None;
        }
        let ghost next = tok@.subrange(start as int, i + 1);
        assert(next.drop_last() =~= tok@.subrange(start as int, i as int));
        assert(all_digits(next));
        let w: u128 = (v as u128) * 10 + ((b - 48) as u128);
        if w > limit as u128 {
            proof {
                if all_digits(body) {
                    lemma_prefix_value(body, i + 1 - start);
                    assert(body.subrange(0, i + 1 - start) =~= next);
                }
            }
            return None;
        }
        v = w as usize;
        i = i + 1;
    }
    Some(v)
}

/// An unsigned decimal integer, as `usize` parses it.
pub fn parse_unsigned(tok: &Vec<u8>) -> (r: Option<usize>)
    ensures
        r matches Some(v) ==> unsigned_value(tok@) == Some(v as int),
        r is None ==> unsigned_value(tok@) is None,
{
    assert(tok@.subrange(0, tok@.len() as int) =~= tok@);
    if tok.len() > 0 && tok[0] == 43 {
        assert(tok@.subrange(1, tok@.len() as int) =~= tok@.drop_first());
        parse_digits(tok, 1, usize::MAX)
    } else {
        parse_digits(tok, 0, usize::MAX)
    }
}

/// A signed decimal integer whose magnitude is at most `isize::MAX`.
pub fn parse_signed(tok: &Vec<u8>) -> (r: Option<isize>)
    ensures
        r matches Some(v) ==> signed_value(tok@) == Some(v as int),
        r is None ==> signed_value(tok@) is None,
{
    assert(tok@.subrange(0, tok@.len() as int) =~= tok@);
    if tok.len() > 0 && (tok[0] == 45 || tok[0] == 43) {
        assert(tok@.subrange(1, tok@.len() as int) =~= tok@.drop_first());
        match parse_digits(tok, 1, isize::MAX as usize) {
            Some(m) => {
                if tok[0] == 45 {
                    Some(-(m as isize))
                } else {
                    Some(m as isize)
                }
            },
            None => None,
        }
    } else {
        match parse_digits(tok, 0, isize::MAX as usize) {
            Some(m) => Some(m as isize),
            None => None,
        }
    }
}

/// Reads one clause line: its literals up to the first zero.
pub fn parse_clause(line: &Vec<u8>) -> (r: Option<Clause>)
    ensures
        r matches Some(c) ==> clause_line(line@) == Some(c@) && c.wf(),
        r is None ==> clause_line(line@) is None,
{
    let toks = split_tokens(line);
    let ghost t = views(toks@);
    let mut vals: Vec<isize> = Vec::new();
    let mut i: usize = 0;
    assert(vals@.map_values(|v: isize| v as int) =~= Seq::<int>::empty());
    assert(prefixed(Seq::<int>::empty(), clause_from(t, 0)) =~= clause_from(t, 0));
    while i < toks.len()
        invariant
            i <= toks@.len(),
            t == views(toks@),
            t == tokens(line@),
            forall|j: int| 0 <= j < vals@.len() ==> valid_value(#[trigger] vals@[j] as int),
            clause_from(t, 0) == prefixed(vals@.map_values(|v: isize| v as int), clause_from(t, i as int)),
        decreases toks.len() - i,
    {
        let ghost vs = vals@.map_values(|v: isize| v as int);
        assert(t[i as int] == toks@[i as int]@);
        match parse_signed(&toks[i]) {
            None => {
                return None;
            },
            Some(v) => {
                if v == 0 {
                    assert(vs + Seq::<int>::empty() =~= vs);
                    let c = Clause::from_cnf(vals);
                    return Some(c);
                }
                vals.push(v);
                assert(vals@.map_values(|v: isize| v as int) =~= vs + seq![v as int]);
                proof {
                    match clause_from(t, i + 1) {
                        Some(rest) => {
                            assert(vs + (seq![v as int] + rest) =~= (vs + seq![v as int]) + rest);
                        },
                        None => {},
                    }
                }
                i = i + 1;
            },
        }
    }
    assert(vals@.map_values(|v: isize| v as int) + Seq::<int>::empty() =~= vals@.map_values(|v: isize| v as int));
    Some(Clause::from_cnf(vals))
}

/// Whether `t` is the single byte `b`.
fn is_byte(t: &Vec<u8>, b: u8) -> (r: bool)
    ensures
        r == (t@ == seq![b]),
{
    if t.len() == 1 && t[0] == b {
        assert(t@ =~= seq![b]);
        true
    } else {
        false
    }
}

/// Whether `t` is the text `cnf`.
fn is_cnf_word(t: &Vec<u8>) -> (r: bool)
    ensures
        r == (t@ == seq![99u8, 110u8, 102u8]),
{
    if t.len() == 3 && t[0] == 99 && t[1] == 110 && t[2] == 102 {
        assert(t@ =~= seq![99u8, 110u8, 102u8]);
        true
    } else {
        false
    }
}

/// Reads the header line: the variable and clause counts.
fn parse_header(line: &Vec<u8>) -> (r: Option<(usize, usize)>)
    ensures
        r matches Some(nm) ==> header_counts(line@) == Some((nm.0 as int, nm.1 as int)),
        r is None ==> header_counts(line@) is None,
{
    let toks = split_tokens(line);
    let ghost t = views(toks@);
    if toks.len() < 4 {
        return None;
    }
    assert(t[0] == toks@[0]@ && t[1] == toks@[1]@ && t[2] == toks@[2]@ && t[3] == toks@[3]@);
    if !is_byte(&toks[0], 112) || !is_cnf_word(&toks[1]) {
        return None;
    }
    match (parse_unsigned(&toks[2]), parse_unsigned(&toks[3])) {
        (Some(n), Some(m)) => Some((n, m)),
        _ => None,
    }
}

/// Reads a DIMACS CNF text: the variable count and the clauses, in order.
pub fn parse_cnf(text: &[u8]) -> (r: Result<(usize, Vec<Clause>), FormatError>)
    ensures
        r is Err <==> cnf_of(text@) is None,
        r matches Ok(p) ==> cnf_of(text@) == Some((p.0 as int, clause_views(p.1@)))
            && forall|i: int| 0 <= i < p.1@.len() ==> (#[trigger] p.1@[i]).wf(),
{
    let t = trimmed(text);
    let lines = split_lines(&t);
    let ghost ls = views(lines@);
    let mut k: usize = 0;
    while k < lines.len() && lines[k].len() > 0 && lines[k][0] == 99
        invariant
            k <= lines@.len(),
            ls == views(lines@),
            comments_from(ls, 0) == k + comments_from(ls, k as int),
        decreases lines.len() - k,
    {
        assert(ls[k as int] == lines@[k as int]@);
        k = k + 1;
    }
    if k >= lines.len() {
        return Err(FormatError);
    }
    assert(ls[k as int] == lines@[k as int]@);
    assert(!is_comment(ls[k as int]));
    let (n, m) = match parse_header(&lines[k]) {
        Some(nm) => nm,
        None => {
            return Err(FormatError);
        },
    };
    if m > lines.len() - (k + 1) {
        return Err(FormatError);
    }
    let end = k + 1 + m;
    assert(header_counts(ls[k as int]) == Some((n as int, m as int)));
    let mut clauses: Vec<Clause> = Vec::new();
    let mut j: usize = k + 1;
    assert(prefixed(Seq::<Seq<int>>::empty(), clauses_from(ls, (k + 1) as int, end as int))
        =~= clauses_from(ls, (k + 1) as int, end as int));
    assert(clause_views(clauses@) =~= Seq::<Seq<int>>::empty());
    while j < end
        invariant
            k + 1 <= j <= end <= lines@.len(),
            end == k + 1 + m,
            ls == views(lines@),
            ls == lines_from(trim(text@), 0),
            comments_from(ls, 0) == k,
            header_counts(ls[k as int]) == Some((n as int, m as int)),
            forall|i: int| 0 <= i < clauses@.len() ==> (#[trigger] clauses@[i]).wf(),
            clauses_from(ls, (k + 1) as int, end as int)
                == prefixed(clause_views(clauses@), clauses_from(ls, j as int, end as int)),
        decreases end - j,
    {
        assert(ls[j as int] == lines@[j as int]@);
        match parse_clause(&lines[j]) {
            None => {
                assert(clauses_from(ls, j as int, end as int) is None);
                assert(clauses_from(ls, (k + 1) as int, end as int) is None);
                return Err(FormatError);
            },
            Some(c) => {
                let ghost before = clause_views(clauses@);
                proof {
                    lemma_clause_views_push(clauses@, c);
                    match clauses_from(ls, j + 1, end as int) {
                        Some(rest) => {
                            assert(before + (seq![c@] + rest) =~= before.push(c@) + rest);
                        },
                        None => {},
                    }
                }
                clauses.push(c);
                j = j + 1;
            },
        }
    }
    assert(clause_views(clauses@) + Seq::<Seq<int>>::empty() =~= clause_views(clauses@));
    Ok((n, clauses))
}

/// The decimal digits of `v`.
pub open spec fn decimal(v: nat) -> Seq<u8>
    decreases v,
{
    if v < 10 {
        seq![(48 + v) as u8]
    } else {
        decimal(v / 10).push((48 + v % 10) as u8)
    }
}

/// `v` in decimal, with a `-` when negative.
pub open spec fn signed_decimal(v: int) -> Seq<u8> {
    if v < 0 {
        seq![45u8] + decimal((-v) as nat)
    } else {
        decimal(v as nat)
    }
}

/// Each literal of `c` in decimal, followed by a space.
pub open spec fn literals_text(c: Seq<int>) -> Seq<u8>
    decreases c.len(),
{
    if c.len() == 0 {
        Seq::empty()
    } else {
        literals_text(c.drop_last()) + signed_decimal(c.last()) + seq![32u8]
    }
}

/// One clause line: its literals, then the terminating `0` and a newline.
pub open spec fn clause_text(c: Seq<int>) -> Seq<u8> {
    literals_text(c) + seq![48u8, 10u8]
}

/// The clause lines of `cs`, in order.
pub open spec fn clauses_text(cs: Seq<Seq<int>>) -> Seq<u8>
    decreases cs.len(),
{
    if cs.len() == 0 {
        Seq::empty()
    } else {
        clauses_text(cs.drop_last()) + clause_text(cs.last())
    }
}

/// The header line `p cnf <n> <m>` and its newline.
pub open spec fn header_text(n: nat, m: nat) -> Seq<u8> {
    seq![112u8, 32u8, 99u8, 110u8, 102u8, 32u8] + decimal(n) + seq![32u8] + decimal(m) + seq![10u8]
}

/// The DIMACS CNF text of `n` variables and the clauses `cs`.
pub open spec fn cnf_text(n: nat, cs: Seq<Seq<int>>) -> Seq<u8> {
    header_text(n, cs.len()) + clauses_text(cs)
}

/// Appends the decimal digits of `v`.
fn push_decimal(out: &mut Vec<u8>, v: usize)
    ensures
        final(out)@ == old(out)@ + decimal(v as nat),
    decreases v,
{
    if v >= 10 {
        push_decimal(out, v / 10);
    }
    out.push((48 + v % 10) as u8);
    if v >= 10 {
        assert(old(out)@ + decimal(v as nat) =~= old(out)@ + decimal((v / 10) as nat) + seq![(48 + v % 10) as u8]);
    } else {
        assert(old(out)@ + decimal(v as nat) =~= old(out)@.push((48 + v % 10) as u8));
    }
}

/// Appends `v` in decimal.
fn push_signed(out: &mut Vec<u8>, v: isize)
    requires
        v > isize::MIN,
    ensures
        final(out)@ == old(out)@ + signed_decimal(v as int),
{
    if v < 0 {
        out.push(45);
        push_decimal(out, (-v) as usize);
        assert(final(out)@ =~= old(out)@ + signed_decimal(v as int));
    } else {
        push_decimal(out, v as usize);
    }
}

/// Writes `n` variables and the clauses as DIMACS CNF text.
pub fn write_cnf(n: usize, clauses: &Vec<Clause>) -> (r: Vec<u8>)
    requires
        forall|i: int| 0 <= i < clauses@.len() ==> (#[trigger] clauses@[i]).wf(),
    ensures
        r@ == cnf_text(n as nat, clause_views(clauses@)),
{
    let mut out: Vec<u8> = Vec::new();
    out.push(112);
    out.push(32);
    out.push(99);
    out.push(110);
    out.push(102);
    out.push(32);
    push_decimal(&mut out, n);
    out.push(32);
    push_decimal(&mut out, clauses.len());
    out.push(10);
    let ghost cs = clause_views(clauses@);
    assert(out@ =~= header_text(n as nat, cs.len()));
    let mut i: usize = 0;
    assert(cs.subrange(0, 0) =~= Seq::<Seq<int>>::empty());
    while i < clauses.len()
        invariant
            i <= clauses@.len(),
            cs == clause_views(clauses@),
            forall|a: int| 0 <= a < clauses@.len() ==> (#[trigger] clauses@[a]).wf(),
            out@ == header_text(n as nat, cs.len()) + clauses_text(cs.subrange(0, i as int)),
        decreases clauses.len() - i,
    {
        let lits = clauses[i].get_literals();
        let ghost c = cs[i as int];
        assert(c == clauses@[i as int]@);
        let ghost start = out@;
        let mut j: usize = 0;
        assert(c.subrange(0, 0) =~= Seq::<int>::empty());
        assert(start + literals_text(c.subrange(0, 0)) =~= start);
        while j < lits.len()
            invariant
                j <= lits@.len(),
                crate::clause::values_of(lits@) == c,
                all_valid(c),
                out@ == start + literals_text(c.subrange(0, j as int)),
            decreases lits.len() - j,
        {
            assert(c[j as int] == lits@[j as int]@);
            assert(valid_value(c[j as int]));
            push_signed(&mut out, lits[j].as_cnf());
            out.push(32);
            assert(c.subrange(0, j + 1).drop_last() =~= c.subrange(0, j as int));
            assert(out@ =~= start + literals_text(c.subrange(0, j + 1)));
            j = j + 1;
        }
        assert(c.subrange(0, j as int) =~= c);
        out.push(48);
        out.push(10);
        assert(cs.subrange(0, i + 1).drop_last() =~= cs.subrange(0, i as int));
        assert(out@ =~= header_text(n as nat, cs.len()) + clauses_text(cs.subrange(0, i + 1)));
        i = i + 1;
    }
    assert(cs.subrange(0, i as int) =~= cs);
    out
}

} // verus!
