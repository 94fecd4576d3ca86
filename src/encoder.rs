//! The two passes of the encoder: rows to fragments, then separator
//! compression.
use vstd::prelude::*;
use crate::grid::{rows_view, Grid};
use crate::model::{encoding, row_fragments, TERMINATOR, compress, compress_from, separator_text, SEPARATOR, row_fragment, row_symbols, runs_text, symbol, ALIVE, DEAD};
use crate::lemmas::lemma_runs_positive;
use crate::text::{texts, join_with, chars_of, dedup_runs, push_run, push_separators, runs_view};

verus! {

/// Symbol of one cell: `b` when alive, `o` when dead.
pub fn cell_symbol(alive: bool) -> (r: char)
    ensures
        r == symbol(alive),
{
    if alive {
        ALIVE
    } else {
        DEAD
    }
}

/// Fragment of one row: its runs, each as an optional decimal length and a
/// symbol, or nothing when the whole row is alive.
pub fn encode_row(row: &Vec<bool>) -> (r: String)
    ensures
        r@ == row_fragment(row@),
{
    let mut syms: Vec<char> = Vec::new();
    for i in 0..row.len()
        invariant
            syms@ == row_symbols(row@.take(i as int)),
    {
        syms.push(cell_symbol(row[i]));
        assert(syms@ =~= row_symbols(row@.take(i + 1)));
    }
    assert(row@.take(row.len() as int) =~= row@);
    let rs = dedup_runs(&syms);
    let ghost model = runs_view(rs@);
    proof {
        lemma_runs_positive(syms@);
        assert forall|k: int| 0 <= k < rs.len() implies rs@[k].0 >= 1 by {
            assert(model[k].0 >= 1);
        }
    }
    if rs.len() == 1 && rs[0].1 == ALIVE {
        return String::new();
    }
    let mut out = String::new();
    for j in 0..rs.len()
        invariant
            model == runs_view(rs@),
            out@ == runs_text(model.take(j as int)),
            forall|k: int| 0 <= k < rs.len() ==> rs@[k].0 >= 1,
    {
        push_run(&mut out, rs[j].0, rs[j].1);
        assert(model.take(j + 1).drop_last() =~= model.take(j as int));
    }
    assert(model.take(rs.len() as int) =~= model);
    out
}

/// Replaces each maximal run of `k` separators by the decimal digits of `k`
/// (only when `k > 1`) and one separator; other characters pass unchanged.
pub fn compress_separators(s: &str) -> (r: String)
    ensures
        r@ == compress(s@),
{
    let cs = chars_of(s);
    let mut out = String::new();
    let mut count: usize = 0;
    assert(cs@.skip(0) =~= cs@);
    for i in 0..cs.len()
        invariant
            count <= i,
            out@ + compress_from(cs@.skip(i as int), count as nat) == compress(cs@),
            cs@ == s@,
    {
        let c = cs[i];
        let ghost rest = cs@.skip(i as int);
        assert(rest.drop_first() =~= cs@.skip(i + 1));
        if c == SEPARATOR {
            count = count + 1;
        } else {
            let ghost before = out@;
            push_separators(&mut out, count);
            out.push(c);
            assert(before + compress_from(rest, count as nat) =~= out@ + compress_from(
                cs@.skip(i + 1),
                0,
            ));
            count = 0;
        }
    }
    let ghost before = out@;
    push_separators(&mut out, count);
    assert(cs@.skip(cs.len() as int) =~= Seq::<char>::empty());
    assert(out@ =~= before + compress_from(cs@.skip(cs.len() as int), count as nat));
    out
}

/// Encodes the whole grid: row fragments joined by separators, separator
/// runs compressed, and the terminator appended.
pub fn encode(grid: &Grid) -> (r: String)
    ensures
        r@ == encoding(grid@),
{
    let rows = grid.rows();
    let mut frags: Vec<String> = Vec::new();
    for y in 0..rows.len()
        invariant
            rows_view(rows@) == grid@,
            frags@.len() == y,
            texts(frags@) == row_fragments(grid@.take(y as int)),
    {
        assert(rows_view(rows@)[y as int] == rows@[y as int]@);
        let ghost prev = frags@;
        frags.push(encode_row(&rows[y]));
        assert forall|k: int| 0 <= k < y implies #[trigger] frags@[k]@ == row_fragment(grid@[k]) by {
            assert(frags@[k] == prev[k]);
            assert(texts(prev)[k] == row_fragments(grid@.take(y as int))[k]);
        }
        assert(texts(frags@) =~= row_fragments(grid@.take(y + 1)));
    }
    assert(grid@.take(rows.len() as int) =~= grid@);
    let all = join_with(&frags, "$");
    proof {
        reveal_strlit("$");
        assert("$"@ =~= seq![SEPARATOR]);
    }
    let mut out = compress_separators(all.as_str());
    out.push(TERMINATOR);
    out
}

} // verus!
