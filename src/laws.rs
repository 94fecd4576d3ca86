//! Properties of the encoding, proved over the model.
use vstd::prelude::*;
use crate::decode::{
    decode, expand, lemma_cells_of_decoded, lemma_digits_lead_joined, lemma_expand_compress,
    lemma_expand_joined, lemma_split_joined, row_decoded, rows_decoded,
};
use crate::grid::rectangular;
use crate::lemmas::{
    free_of, lemma_compress_free, lemma_row_symbols_free, lemma_joined_free, lemma_row_fragment_free, lemma_runs_constant,
};
use crate::model::{
    compress, compress_from, decimal, encoding, joined, row_fragment, row_fragments, row_symbols,
    runs, runs_text, run_text, ALIVE, DEAD, SEPARATOR, TERMINATOR,
};

verus! {

/// The encoding of every grid ends with the terminator, and the terminator
/// occurs nowhere else in it.
pub proof fn law_single_terminator(rows: Seq<Seq<bool>>)
    requires
        rectangular(rows),
    ensures
        encoding(rows).len() >= 1,
        encoding(rows).last() == TERMINATOR,
        forall|i: int| 0 <= i < encoding(rows).len() - 1 ==> #[trigger] encoding(rows)[i] != TERMINATOR,
{
    let frags = row_fragments(rows);
    assert forall|k: int| 0 <= k < frags.len() implies free_of(#[trigger] frags[k], TERMINATOR) by {
        lemma_row_fragment_free(rows[k], TERMINATOR);
    }
    lemma_joined_free(frags, seq![SEPARATOR], TERMINATOR);
    lemma_compress_free(joined(frags, seq![SEPARATOR]), 0, TERMINATOR);
    let body = compress(joined(frags, seq![SEPARATOR]));
    assert forall|i: int| 0 <= i < encoding(rows).len() - 1 implies #[trigger] encoding(rows)[i]
        != TERMINATOR by {
        assert(encoding(rows)[i] == body[i]);
    }
}

/// A row whose cells are all alive has an empty fragment, so a grid of that
/// one row encodes to the terminator alone.
pub proof fn law_alive_row_is_empty(row: Seq<bool>)
    requires
        row.len() >= 1,
        forall|x: int| 0 <= x < row.len() ==> row[x],
    ensures
        row_fragment(row) == Seq::<char>::empty(),
        encoding(seq![row]) == seq![TERMINATOR],
{
    lemma_runs_constant(row_symbols(row), ALIVE);
    let frags = row_fragments(seq![row]);
    assert(frags[0] == row_fragment(row));
    assert(joined(frags, seq![SEPARATOR]) == frags[0]);
    assert(compress_from(Seq::<char>::empty(), 0) =~= Seq::<char>::empty());
    assert(encoding(seq![row]) =~= seq![TERMINATOR]);
}

/// A row of `n` dead cells has the fragment `{n}o`, or `o` when `n` is one.
pub proof fn law_dead_row(row: Seq<bool>)
    requires
        row.len() >= 1,
        forall|x: int| 0 <= x < row.len() ==> !row[x],
    ensures
        row.len() > 1 ==> row_fragment(row) == decimal(row.len()).push(DEAD),
        row.len() == 1 ==> row_fragment(row) == seq![DEAD],
{
    lemma_runs_constant(row_symbols(row), DEAD);
    let rs = runs(row_symbols(row));
    assert(rs.drop_last() =~= Seq::<(nat, char)>::empty());
    assert(runs_text(rs.drop_last()) =~= Seq::<char>::empty());
    assert(rs.last() == (row.len(), DEAD));
    assert(runs_text(rs) =~= run_text(row.len(), DEAD));
}

/// The encoding depends on the cells alone: equal grids give equal texts.
pub proof fn law_encoding_is_pure(a: Seq<Seq<bool>>, b: Seq<Seq<bool>>)
    requires
        a == b,
    ensures
        encoding(a) == encoding(b),
{
}

/// Reading the encoding back, with the grid's width to fill out rows that
/// were written as nothing, gives every cell of the grid as it was.
pub proof fn law_decoding_restores_cells(rows: Seq<Seq<bool>>)
    requires
        rectangular(rows),
    ensures
        decode(encoding(rows), rows[0].len()) == rows,
{
    let width = rows[0].len();
    let sep = seq![SEPARATOR];
    let j = joined(row_fragments(rows), sep);
    assert(encoding(rows).drop_last() =~= compress(j));
    lemma_digits_lead_joined(rows);
    lemma_expand_compress(j, 0, 0, false);
    assert(expand(compress(j)) =~= expand(j));
    lemma_expand_joined(rows, seq![]);
    assert(j + Seq::<char>::empty() =~= j);
    let dec = rows_decoded(rows);
    assert(expand(j) =~= joined(dec, sep));
    assert forall|k: int| 0 <= k < dec.len() implies free_of(#[trigger] dec[k], SEPARATOR) by {
        lemma_row_symbols_free(rows[k], SEPARATOR);
    }
    lemma_split_joined(dec, SEPARATOR);
    let out = decode(encoding(rows), width);
    assert forall|k: int| 0 <= k < rows.len() implies #[trigger] out[k] == rows[k] by {
        assert(rows[k].len() == width);
        lemma_cells_of_decoded(rows[k]);
        assert(dec[k] == row_decoded(rows[k]));
    }
    assert(out =~= rows);
}

} // verus!
