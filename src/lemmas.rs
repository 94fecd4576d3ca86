//! Facts about the model used by the proofs.
use vstd::prelude::*;
use crate::model::{
    compress_from, decimal, digit_char, joined, row_fragment, row_symbols, run_text, runs, runs_text,
    separator_text, ALIVE, DEAD, SEPARATOR,
};

verus! {

/// Every run has a length of at least one.
pub proof fn lemma_runs_positive(s: Seq<char>)
    ensures
        forall|k: int| 0 <= k < runs(s).len() ==> #[trigger] runs(s)[k].0 >= 1,
    decreases s.len(),
{
    if s.len() > 0 {
        let prev = runs(s.drop_last());
        lemma_runs_positive(s.drop_last());
        assert forall|k: int| 0 <= k < runs(s).len() implies #[trigger] runs(s)[k].0 >= 1 by {
            if k < prev.len() {
                assert(prev[k].0 >= 1);
            }
        }
    }
}

/// Whether `c` is a decimal digit.
pub open spec fn is_digit(c: char) -> bool {
    '0' <= c && c <= '9'
}

/// Whether `c` occurs nowhere in `s`.
pub open spec fn free_of(s: Seq<char>, c: char) -> bool {
    forall|i: int| 0 <= i < s.len() ==> #[trigger] s[i] != c
}

/// Decimal text is made of digits only.
pub proof fn lemma_decimal_digits(n: nat)
    ensures
        decimal(n).len() >= 1,
        forall|i: int| 0 <= i < decimal(n).len() ==> is_digit(#[trigger] decimal(n)[i]),
    decreases n,
{
    if n >= 10 {
        lemma_decimal_digits(n / 10);
    }
    assert(is_digit(digit_char(n % 10)));
}

/// A character absent from `s` is the symbol of none of its runs.
pub proof fn lemma_runs_free(s: Seq<char>, c: char)
    requires
        free_of(s, c),
    ensures
        forall|k: int| 0 <= k < runs(s).len() ==> #[trigger] runs(s)[k].1 != c,
    decreases s.len(),
{
    if s.len() > 0 {
        let prev = runs(s.drop_last());
        lemma_runs_free(s.drop_last(), c);
        assert forall|k: int| 0 <= k < runs(s).len() implies #[trigger] runs(s)[k].1 != c by {
            if k < prev.len() {
                assert(prev[k].1 != c);
            }
        }
    }
}

/// The text of runs holds a non-digit only where a run has it as symbol.
pub proof fn lemma_runs_text_free(rs: Seq<(nat, char)>, c: char)
    requires
        !is_digit(c),
        forall|k: int| 0 <= k < rs.len() ==> #[trigger] rs[k].1 != c,
    ensures
        free_of(runs_text(rs), c),
    decreases rs.len(),
{
    if rs.len() > 0 {
        lemma_runs_text_free(rs.drop_last(), c);
        let last = rs.last();
        lemma_decimal_digits(last.0);
        assert(last.1 == rs[rs.len() - 1].1);
        let t = run_text(last.0, last.1);
        assert(free_of(t, c));
    }
}

/// Row symbols are `b` and `o` only.
pub proof fn lemma_row_symbols_free(row: Seq<bool>, c: char)
    requires
        c != ALIVE,
        c != DEAD,
    ensures
        free_of(row_symbols(row), c),
{
}

/// A row fragment holds neither a separator nor a terminator.
pub proof fn lemma_row_fragment_free(row: Seq<bool>, c: char)
    requires
        c != ALIVE,
        c != DEAD,
        !is_digit(c),
    ensures
        free_of(row_fragment(row), c),
{
    lemma_row_symbols_free(row, c);
    lemma_runs_free(row_symbols(row), c);
    lemma_runs_text_free(runs(row_symbols(row)), c);
}

/// Joining parts free of `c` with a separator free of `c` gives a text
/// free of `c`.
pub proof fn lemma_joined_free(parts: Seq<Seq<char>>, sep: Seq<char>, c: char)
    requires
        free_of(sep, c),
        forall|k: int| 0 <= k < parts.len() ==> free_of(#[trigger] parts[k], c),
    ensures
        free_of(joined(parts, sep), c),
    decreases parts.len(),
{
    if parts.len() > 1 {
        lemma_joined_free(parts.drop_last(), sep, c);
        assert(free_of(parts[parts.len() - 1], c));
    } else if parts.len() == 1 {
        assert(free_of(parts[0], c));
    }
}

/// Separator compression brings in only digits and separators.
pub proof fn lemma_compress_free(s: Seq<char>, pending: nat, c: char)
    requires
        free_of(s, c),
        !is_digit(c),
        c != SEPARATOR,
    ensures
        free_of(compress_from(s, pending), c),
    decreases s.len(),
{
    lemma_decimal_digits(pending);
    let t = separator_text(pending);
    assert(free_of(t, c));
    if s.len() > 0 {
        assert(s[0] != c);
        if s[0] == SEPARATOR {
            lemma_compress_free(s.drop_first(), pending + 1, c);
        } else {
            lemma_compress_free(s.drop_first(), 0, c);
        }
    }
}

/// Runs of a sequence of one repeated character are one run.
pub proof fn lemma_runs_constant(s: Seq<char>, c: char)
    requires
        s.len() >= 1,
        forall|i: int| 0 <= i < s.len() ==> s[i] == c,
    ensures
        runs(s) == seq![(s.len(), c)],
    decreases s.len(),
{
    if s.len() > 1 {
        lemma_runs_constant(s.drop_last(), c);
        assert(runs(s) =~= seq![(s.len(), c)]);
    } else {
        assert(runs(s.drop_last()) =~= Seq::<(nat, char)>::empty());
        assert(runs(s) =~= seq![(s.len(), c)]);
    }
}

} // verus!
