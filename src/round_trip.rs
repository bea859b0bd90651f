//! Writing an instance as DIMACS CNF text and reading the text back gives
//! the same variable count and the same clauses.
use crate::clause::all_valid;
use crate::dimacs::{
    all_digits, clause_from, clause_line, clauses_from, clauses_text, cnf_of,
    cnf_text, comments_from, decimal, digits_value, header_counts, header_text, is_comment, is_digit,
    is_space, line_len, lines_from, literals_text, signed_decimal, signed_value, token_len,
    tokens, tokens_from, trim, trim_end, trim_start, unsigned_value,
};
use crate::literal::valid_value;
use vstd::prelude::*;

verus! {

/// Whether `s` holds no newline.
pub open spec fn no_newline(s: Seq<u8>) -> bool {
    forall|j: int| 0 <= j < s.len() ==> s[j] != 10
}

/// Whether `s` holds no whitespace.
pub open spec fn no_space(s: Seq<u8>) -> bool {
    forall|j: int| 0 <= j < s.len() ==> !is_space(#[trigger] s[j])
}

proof fn lemma_line_len_exact(s: Seq<u8>, i: int, k: int)
    requires
        0 <= i <= k <= s.len(),
        forall|j: int| i <= j < k ==> s[j] != 10,
        k == s.len() || s[k] == 10,
    ensures
        line_len(s, i) == k - i,
    decreases k - i,
{
    if i < k {
        lemma_line_len_exact(s, i + 1, k);
    }
}

proof fn lemma_line_len_before_newline(x: Seq<u8>, b: Seq<u8>, i: int)
    requires
        0 <= i < x.len(),
        x.last() == 10,
    ensures
        line_len(x + b, i) == line_len(x, i),
        i + line_len(x, i) < x.len(),
    decreases x.len() - i,
{
    if x[i] != 10 {
        lemma_line_len_before_newline(x, b, i + 1);
    }
}

/// Appending a line `b` (and maybe its newline) after text that ends a line
/// adds `b` to the lines.
proof fn lemma_lines_append(x: Seq<u8>, b: Seq<u8>, e: Seq<u8>, i: int)
    requires
        x.len() == 0 || x.last() == 10,
        b.len() > 0,
        no_newline(b),
        e == Seq::<u8>::empty() || e == seq![10u8],
        0 <= i <= x.len(),
    ensures
        lines_from(x + b + e, i) == lines_from(x, i) + seq![b],
    decreases x.len() - i,
{
    let s = x + b + e;
    if i == x.len() {
        lemma_line_len_exact(s, i, i + b.len());
        assert(s.subrange(i, i + b.len()) =~= b);
        assert(lines_from(s, i + b.len() + 1) == Seq::<Seq<u8>>::empty());
        assert(lines_from(x, i) == Seq::<Seq<u8>>::empty());
        assert(lines_from(s, i) =~= lines_from(x, i) + seq![b]);
    } else {
        lemma_line_len_before_newline(x, b + e, i);
        assert(x + (b + e) =~= s);
        let ll = line_len(x, i);
        assert(s.subrange(i, i + ll) =~= x.subrange(i, i + ll));
        lemma_lines_append(x, b, e, i + ll + 1);
        assert(lines_from(s, i) =~= lines_from(x, i) + seq![b]);
    }
}

proof fn lemma_token_len_exact(s: Seq<u8>, i: int, k: int)
    requires
        0 <= i <= k <= s.len(),
        forall|j: int| i <= j < k ==> !is_space(#[trigger] s[j]),
        k == s.len() || is_space(s[k]),
    ensures
        token_len(s, i) == k - i,
    decreases k - i,
{
    if i < k {
        lemma_token_len_exact(s, i + 1, k);
    }
}

proof fn lemma_token_len_before_space(x: Seq<u8>, b: Seq<u8>, i: int)
    requires
        0 <= i < x.len(),
        is_space(x.last()),
    ensures
        token_len(x + b, i) == token_len(x, i),
        i + token_len(x, i) < x.len(),
    decreases x.len() - i,
{
    if !is_space(x[i]) {
        lemma_token_len_before_space(x, b, i + 1);
    }
}

/// Appending a token `b` (and maybe a space) after text that ends in
/// whitespace adds `b` to the tokens.
proof fn lemma_tokens_append(x: Seq<u8>, b: Seq<u8>, e: Seq<u8>, i: int)
    requires
        x.len() == 0 || is_space(x.last()),
        b.len() > 0,
        no_space(b),
        e == Seq::<u8>::empty() || e == seq![32u8],
        0 <= i <= x.len(),
    ensures
        tokens_from(x + b + e, i) == tokens_from(x, i) + seq![b],
    decreases x.len() - i,
{
    let s = x + b + e;
    if i == x.len() {
        lemma_token_len_exact(s, i, i + b.len());
        assert(s.subrange(i, i + b.len()) =~= b);
        if e.len() > 0 {
            assert(tokens_from(s, i + b.len() + 1) == Seq::<Seq<u8>>::empty());
        }
        assert(tokens_from(s, i + b.len()) == Seq::<Seq<u8>>::empty());
        assert(tokens_from(x, i) == Seq::<Seq<u8>>::empty());
        assert(tokens_from(s, i) =~= tokens_from(x, i) + seq![b]);
    } else if is_space(x[i]) {
        lemma_tokens_append(x, b, e, i + 1);
    } else {
        lemma_token_len_before_space(x, b + e, i);
        assert(x + (b + e) =~= s);
        let tl = token_len(x, i);
        assert(s.subrange(i, i + tl) =~= x.subrange(i, i + tl));
        lemma_tokens_append(x, b, e, i + tl);
        assert(tokens_from(s, i) =~= tokens_from(x, i) + seq![b]);
    }
}

proof fn lemma_decimal(v: nat)
    ensures
        decimal(v).len() > 0,
        all_digits(decimal(v)),
        digits_value(decimal(v)) == v,
        no_space(decimal(v)),
        no_newline(decimal(v)),
    decreases v,
{
    if v >= 10 {
        lemma_decimal(v / 10);
        assert(decimal(v).drop_last() =~= decimal(v / 10));
        assert(decimal(v).last() == (48 + v % 10) as u8);
        assert(v == (v / 10) * 10 + v % 10) by (nonlinear_arith);
    } else {
        assert(decimal(v).drop_last() =~= Seq::<u8>::empty());
        assert(digits_value(Seq::<u8>::empty()) == 0);
    }
    assert forall|j: int| 0 <= j < decimal(v).len() implies !is_space(#[trigger] decimal(v)[j]) && decimal(v)[j] != 10 by {
        assert(is_digit(decimal(v)[j]));
    }
}

proof fn lemma_unsigned_decimal(v: nat)
    requires
        v <= usize::MAX,
    ensures
        unsigned_value(decimal(v)) == Some(v as int),
{
    lemma_decimal(v);
    assert(is_digit(decimal(v)[0]));
}

proof fn lemma_signed_decimal(v: int)
    requires
        valid_value(v),
    ensures
        signed_value(signed_decimal(v)) == Some(v),
        signed_decimal(v).len() > 0,
        no_space(signed_decimal(v)),
        no_newline(signed_decimal(v)),
{
    if v < 0 {
        let d = decimal((-v) as nat);
        lemma_decimal((-v) as nat);
        assert(signed_decimal(v).drop_first() =~= d);
        assert forall|j: int| 0 <= j < signed_decimal(v).len() implies !is_space(#[trigger] signed_decimal(v)[j]) && signed_decimal(v)[j] != 10 by {
            if j > 0 {
                assert(signed_decimal(v)[j] == d[j - 1]);
            }
        }
    } else {
        lemma_decimal(v as nat);
        assert(is_digit(decimal(v as nat)[0]));
    }
}

/// The text of one clause line, without its newline.
pub open spec fn clause_line_text(c: Seq<int>) -> Seq<u8> {
    literals_text(c) + seq![48u8]
}

/// The text of the header line, without its newline.
pub open spec fn header_line_text(n: nat, m: nat) -> Seq<u8> {
    seq![112u8, 32u8, 99u8, 110u8, 102u8, 32u8] + decimal(n) + seq![32u8] + decimal(m)
}

proof fn lemma_literals_tokens(c: Seq<int>)
    requires
        all_valid(c),
    ensures
        tokens(literals_text(c)) == Seq::new(c.len(), |i: int| signed_decimal(c[i])),
        literals_text(c).len() == 0 || is_space(literals_text(c).last()),
        no_newline(literals_text(c)),
    decreases c.len(),
{
    if c.len() > 0 {
        let d = c.drop_last();
        assert(all_valid(d)) by {
            assert forall|i: int| 0 <= i < d.len() implies valid_value(#[trigger] d[i]) by {
                assert(d[i] == c[i]);
            }
        }
        lemma_literals_tokens(d);
        assert(valid_value(c[c.len() - 1]));
        lemma_signed_decimal(c.last());
        lemma_tokens_append(literals_text(d), signed_decimal(c.last()), seq![32u8], 0);
        assert(tokens(literals_text(c)) =~= Seq::new(c.len(), |i: int| signed_decimal(c[i])));
    } else {
        assert(tokens(literals_text(c)) =~= Seq::new(c.len(), |i: int| signed_decimal(c[i])));
    }
}

proof fn lemma_clause_from(c: Seq<int>, t: Seq<Seq<u8>>, i: int)
    requires
        all_valid(c),
        t == Seq::new(c.len(), |k: int| signed_decimal(c[k])) + seq![seq![48u8]],
        0 <= i <= c.len(),
    ensures
        clause_from(t, i) == Some(c.subrange(i, c.len() as int)),
    decreases c.len() - i,
{
    if i == c.len() {
        let z = seq![48u8];
        assert(z.drop_last() =~= Seq::<u8>::empty());
        assert(digits_value(Seq::<u8>::empty()) == 0);
        assert(z.last() == 48);
        assert(digits_value(z) == 0);
        assert(t[i] == z);
        assert(signed_value(t[i]) == Some(0int));
        assert(c.subrange(i, c.len() as int) =~= Seq::<int>::empty());
    } else {
        lemma_signed_decimal(c[i]);
        lemma_clause_from(c, t, i + 1);
        assert(t[i] == signed_decimal(c[i]));
        assert(seq![c[i]] + c.subrange(i + 1, c.len() as int) =~= c.subrange(i, c.len() as int));
    }
}

proof fn lemma_clause_line(c: Seq<int>)
    requires
        all_valid(c),
    ensures
        clause_line(clause_line_text(c)) == Some(c),
        no_newline(clause_line_text(c)),
        clause_line_text(c).len() > 0,
        clause_line_text(c).last() == 48,
{
    lemma_literals_tokens(c);
    let z = seq![48u8];
    lemma_tokens_append(literals_text(c), z, Seq::<u8>::empty(), 0);
    assert(literals_text(c) + z + Seq::<u8>::empty() =~= clause_line_text(c));
    lemma_clause_from(c, tokens(clause_line_text(c)), 0);
    assert(c.subrange(0, c.len() as int) =~= c);
}

proof fn lemma_header_line(n: nat, m: nat)
    requires
        n <= usize::MAX,
        m <= usize::MAX,
    ensures
        header_counts(header_line_text(n, m)) == Some((n as int, m as int)),
        no_newline(header_line_text(n, m)),
        header_line_text(n, m)[0] == 112,
        is_digit(header_line_text(n, m).last()),
{
    let e = Seq::<u8>::empty();
    let sp = seq![32u8];
    let p = seq![112u8];
    let cnf = seq![99u8, 110u8, 102u8];
    lemma_decimal(n);
    lemma_decimal(m);
    lemma_unsigned_decimal(n);
    lemma_unsigned_decimal(m);
    let x1 = e + p + sp;
    let x2 = x1 + cnf + sp;
    let x3 = x2 + decimal(n) + sp;
    let x4 = x3 + decimal(m) + e;
    lemma_tokens_append(e, p, sp, 0);
    assert(tokens_from(e, 0) == Seq::<Seq<u8>>::empty());
    lemma_tokens_append(x1, cnf, sp, 0);
    lemma_tokens_append(x2, decimal(n), sp, 0);
    lemma_tokens_append(x3, decimal(m), e, 0);
    assert(x4 =~= header_line_text(n, m));
    assert(tokens(x4) =~= seq![p, cnf, decimal(n), decimal(m)]);
    assert(is_digit(decimal(m).last()));
}

/// The expected lines of the text of `n` variables and the first `k`
/// clauses of `cs`.
pub open spec fn text_lines(n: nat, cs: Seq<Seq<int>>, k: int) -> Seq<Seq<u8>> {
    seq![header_line_text(n, cs.len())] + Seq::new(k as nat, |i: int| clause_line_text(cs[i]))
}

proof fn lemma_prefix_lines(n: nat, cs: Seq<Seq<int>>, k: int)
    requires
        n <= usize::MAX,
        cs.len() <= usize::MAX,
        forall|i: int| 0 <= i < cs.len() ==> all_valid(#[trigger] cs[i]),
        0 <= k <= cs.len(),
    ensures
        lines_from(header_text(n, cs.len()) + clauses_text(cs.subrange(0, k)), 0) == text_lines(n, cs, k),
        (header_text(n, cs.len()) + clauses_text(cs.subrange(0, k))).last() == 10,
    decreases k,
{
    let h = header_line_text(n, cs.len());
    lemma_header_line(n, cs.len());
    if k == 0 {
        let y = header_text(n, cs.len()) + clauses_text(cs.subrange(0, 0));
        assert(clauses_text(cs.subrange(0, 0)) == Seq::<u8>::empty());
        assert(y =~= Seq::<u8>::empty() + h + seq![10u8]);
        lemma_lines_append(Seq::<u8>::empty(), h, seq![10u8], 0);
        assert(lines_from(Seq::<u8>::empty(), 0) == Seq::<Seq<u8>>::empty());
        assert(lines_from(y, 0) =~= text_lines(n, cs, k));
    } else {
        lemma_prefix_lines(n, cs, k - 1);
        let x = header_text(n, cs.len()) + clauses_text(cs.subrange(0, k - 1));
        let y = header_text(n, cs.len()) + clauses_text(cs.subrange(0, k));
        let c = cs[k - 1];
        assert(cs.subrange(0, k).drop_last() =~= cs.subrange(0, k - 1));
        assert(y =~= x + clause_line_text(c) + seq![10u8]);
        lemma_clause_line(c);
        lemma_lines_append(x, clause_line_text(c), seq![10u8], 0);
        assert(lines_from(y, 0) =~= text_lines(n, cs, k));
    }
}

proof fn lemma_clauses_from(ls: Seq<Seq<u8>>, cs: Seq<Seq<int>>, i: int)
    requires
        forall|j: int| 0 <= j < cs.len() ==> all_valid(#[trigger] cs[j]),
        ls.len() == cs.len() + 1,
        forall|j: int| 0 <= j < cs.len() ==> #[trigger] ls[j + 1] == clause_line_text(cs[j]),
        0 <= i <= cs.len(),
    ensures
        clauses_from(ls, i + 1, cs.len() + 1int) == Some(cs.subrange(i, cs.len() as int)),
    decreases cs.len() - i,
{
    if i == cs.len() {
        assert(cs.subrange(i, cs.len() as int) =~= Seq::<Seq<int>>::empty());
    } else {
        lemma_clauses_from(ls, cs, i + 1);
        assert(ls[i + 1] == clause_line_text(cs[i]));
        lemma_clause_line(cs[i]);
        assert(seq![cs[i]] + cs.subrange(i + 1, cs.len() as int) =~= cs.subrange(i, cs.len() as int));
    }
}

/// Reading back the DIMACS CNF text written for `n` variables and the
/// clauses `cs` gives `n` and `cs` again.
pub proof fn lemma_save_load(n: nat, cs: Seq<Seq<int>>)
    requires
        n <= usize::MAX,
        cs.len() <= usize::MAX,
        forall|i: int| 0 <= i < cs.len() ==> all_valid(#[trigger] cs[i]),
    ensures
        cnf_of(cnf_text(n, cs)) == Some((n as int, cs)),
{
    let m = cs.len();
    let t = cnf_text(n, cs);
    let h = header_line_text(n, m);
    lemma_header_line(n, m);
    lemma_prefix_lines(n, cs, m as int);
    assert(cs.subrange(0, m as int) =~= cs);
    assert(t.len() > 0 && t[0] == 112);
    assert(trim_start(t) == t);
    let d = t.drop_last();
    if m == 0 {
        assert(clauses_text(cs) == Seq::<u8>::empty());
        assert(d =~= h);
        assert(d =~= Seq::<u8>::empty() + h + Seq::<u8>::empty());
        lemma_lines_append(Seq::<u8>::empty(), h, Seq::<u8>::empty(), 0);
        assert(lines_from(Seq::<u8>::empty(), 0) == Seq::<Seq<u8>>::empty());
    } else {
        let x = header_text(n, m) + clauses_text(cs.subrange(0, m - 1));
        let c = cs[m - 1];
        lemma_prefix_lines(n, cs, m - 1);
        lemma_clause_line(c);
        assert(cs.subrange(0, m as int).drop_last() =~= cs.subrange(0, m - 1));
        assert(clauses_text(cs) == clauses_text(cs.subrange(0, m as int)));
        assert(d =~= x + clause_line_text(c) + Seq::<u8>::empty());
        lemma_lines_append(x, clause_line_text(c), Seq::<u8>::empty(), 0);
    }
    assert(!is_space(d.last()));
    assert(trim_end(d) == d);
    assert(trim(t) == d);
    let ls = lines_from(d, 0);
    assert(ls =~= text_lines(n, cs, m as int));
    assert(!is_comment(ls[0]));
    assert(comments_from(ls, 0) == 0);
    assert(ls[0] == h);
    assert forall|j: int| 0 <= j < cs.len() implies #[trigger] ls[j + 1] == clause_line_text(cs[j]) by {}
    lemma_clauses_from(ls, cs, 0);
}

} // verus!
