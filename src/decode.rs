//! A reading of the encoded text back into cells, and the facts showing
//! that it undoes the encoding.
use vstd::prelude::*;
use crate::lemmas::{free_of, is_digit, lemma_decimal_digits, lemma_runs_positive};
use crate::model::{
    compress_from, joined, row_fragments, separator_text, SEPARATOR, decimal, digit_char,
    is_full_alive, row_fragment, row_symbols, run_text, runs, runs_text, ALIVE,
    DEAD,
};

verus! {

/// Value of a decimal digit character.
pub open spec fn digit_value(c: char) -> nat {
    ((c as u32) - 48) as nat
}

/// `n` copies of `c`.
pub open spec fn repeat(c: char, n: nat) -> Seq<char> {
    Seq::new(n, |_i: int| c)
}

/// The value of the digits `d` read after the value `acc`.
pub open spec fn digits_value(acc: nat, d: Seq<char>) -> nat
    decreases d.len(),
{
    if d.len() == 0 {
        acc
    } else {
        digits_value(acc, d.drop_last()) * 10 + digit_value(d.last())
    }
}

/// Expands run-length text read from the front: digits build up a count
/// (`acc`, present when `has`), any other character is written that many
/// times, or once when no digits precede it.
pub open spec fn expand_from(t: Seq<char>, acc: nat, has: bool) -> Seq<char>
    decreases t.len(),
{
    if t.len() == 0 {
        seq![]
    } else if is_digit(t[0]) {
        expand_from(t.drop_first(), acc * 10 + digit_value(t[0]), true)
    } else {
        repeat(t[0], if has { acc } else { 1 }) + expand_from(t.drop_first(), 0, false)
    }
}

/// Expands a whole run-length text.
pub open spec fn expand(t: Seq<char>) -> Seq<char> {
    expand_from(t, 0, false)
}

/// Splits at each separator; `k` separators give `k + 1` pieces.
pub open spec fn split_rows(t: Seq<char>, sep: char) -> Seq<Seq<char>>
    decreases t.len(),
{
    if t.len() == 0 {
        seq![seq![]]
    } else {
        let prev = split_rows(t.drop_last(), sep);
        if t.last() == sep {
            prev.push(seq![])
        } else {
            prev.update(prev.len() - 1, prev.last().push(t.last()))
        }
    }
}

/// Cells of one decoded row: an empty row is `width` alive cells.
pub open spec fn cells_of(syms: Seq<char>, width: nat) -> Seq<bool> {
    if syms.len() == 0 {
        Seq::new(width, |_i: int| true)
    } else {
        syms.map_values(|c: char| c == ALIVE)
    }
}

/// Reads an encoded text (terminator included) back into rows of cells,
/// given the width of the grid.
pub open spec fn decode(text: Seq<char>, width: nat) -> Seq<Seq<bool>> {
    split_rows(expand(text.drop_last()), crate::model::SEPARATOR).map_values(
        |r: Seq<char>| cells_of(r, width),
    )
}

/// Digits read after `acc` go into the count.
pub proof fn lemma_expand_digits(d: Seq<char>, x: Seq<char>, acc: nat, has: bool)
    requires
        forall|i: int| 0 <= i < d.len() ==> is_digit(#[trigger] d[i]),
    ensures
        expand_from(d + x, acc, has) == expand_from(
            x,
            digits_value(acc, d),
            has || d.len() > 0,
        ),
    decreases d.len(),
{
    if d.len() > 0 {
        let p = d.drop_last();
        let c = d.last();
        assert(d + x =~= p + (seq![c] + x));
        lemma_expand_digits(p, seq![c] + x, acc, has);
        assert((seq![c] + x).drop_first() =~= x);
        assert((seq![c] + x)[0] == c);
    } else {
        assert(d + x =~= x);
    }
}

/// The digits of `n` read from zero give `n`.
pub proof fn lemma_decimal_value(n: nat)
    ensures
        digits_value(0, decimal(n)) == n,
    decreases n,
{
    let d = digit_char(n % 10);
    assert(digit_value(d) == n % 10);
    if n >= 10 {
        lemma_decimal_value(n / 10);
        assert(decimal(n).drop_last() =~= decimal(n / 10));
        assert(decimal(n).last() == d);
        assert(digits_value(0, decimal(n)) == (n / 10) * 10 + n % 10);
    } else {
        assert(decimal(n).drop_last() =~= Seq::<char>::empty());
        assert(decimal(n).last() == d);
        assert(digits_value(0, decimal(n).drop_last()) == 0);
        assert(digits_value(0, decimal(n)) == 0 * 10 + n % 10);
    }
}

/// The text of one run expands to the run.
pub proof fn lemma_expand_run_text(n: nat, c: char, x: Seq<char>)
    requires
        n >= 1,
        !is_digit(c),
    ensures
        expand_from(run_text(n, c) + x, 0, false) == repeat(c, n) + expand_from(x, 0, false),
{
    let rest = seq![c] + x;
    assert(rest.drop_first() =~= x);
    assert(rest[0] == c);
    if n > 1 {
        lemma_decimal_digits(n);
        lemma_decimal_value(n);
        assert(run_text(n, c) + x =~= decimal(n) + rest);
        lemma_expand_digits(decimal(n), rest, 0, false);
    } else {
        assert(run_text(n, c) + x =~= rest);
        assert(repeat(c, 1) =~= repeat(c, n));
    }
}

/// The cells that a sequence of runs stands for.
pub open spec fn flatten(rs: Seq<(nat, char)>) -> Seq<char>
    decreases rs.len(),
{
    if rs.len() == 0 {
        seq![]
    } else {
        flatten(rs.drop_last()) + repeat(rs.last().1, rs.last().0)
    }
}

/// What the fragment of a row expands to: nothing for a fully alive row,
/// else the row's symbols.
pub open spec fn row_decoded(row: Seq<bool>) -> Seq<char> {
    if is_full_alive(runs(row_symbols(row))) {
        seq![]
    } else {
        row_symbols(row)
    }
}

/// The runs of `s` stand for `s`.
pub proof fn lemma_flatten_runs(s: Seq<char>)
    ensures
        flatten(runs(s)) == s,
    decreases s.len(),
{
    if s.len() > 0 {
        let prev = runs(s.drop_last());
        let c = s.last();
        lemma_flatten_runs(s.drop_last());
        if prev.len() > 0 && prev.last().1 == c {
            let m = prev.last().0;
            let upd = prev.update(prev.len() - 1, (m + 1, c));
            assert(upd.drop_last() =~= prev.drop_last());
            assert(repeat(c, m + 1) =~= repeat(c, m).push(c));
            assert(upd.last() == (m + 1, c));
            assert(flatten(upd) == flatten(prev.drop_last()) + repeat(c, m + 1));
            assert(flatten(prev) == flatten(prev.drop_last()) + repeat(c, m));
            assert(s =~= s.drop_last().push(c));
            assert(flatten(upd) =~= s);
        } else {
            assert(prev.push((1, c)).drop_last() =~= prev);
            assert(flatten(prev.push((1, c))) =~= s);
        }
    } else {
        assert(flatten(runs(s)) =~= s);
    }
}

/// Runs of a sequence of cell symbols carry cell symbols.
pub proof fn lemma_runs_symbols(s: Seq<char>)
    requires
        forall|i: int| 0 <= i < s.len() ==> s[i] == ALIVE || s[i] == DEAD,
    ensures
        forall|k: int|
            0 <= k < runs(s).len() ==> #[trigger] runs(s)[k].1 == ALIVE || runs(s)[k].1 == DEAD,
    decreases s.len(),
{
    if s.len() > 0 {
        let prev = runs(s.drop_last());
        lemma_runs_symbols(s.drop_last());
        assert(s[s.len() - 1] == s.last());
        assert forall|k: int| 0 <= k < runs(s).len() implies #[trigger] runs(s)[k].1 == ALIVE
            || runs(s)[k].1 == DEAD by {
            if k < prev.len() {
                assert(prev[k].1 == ALIVE || prev[k].1 == DEAD);
            }
        }
    }
}

/// The text of runs expands to the cells they stand for.
pub proof fn lemma_expand_runs_text(rs: Seq<(nat, char)>, x: Seq<char>)
    requires
        forall|k: int| 0 <= k < rs.len() ==> (#[trigger] rs[k]).0 >= 1 && !is_digit(rs[k].1),
    ensures
        expand_from(runs_text(rs) + x, 0, false) == flatten(rs) + expand_from(x, 0, false),
    decreases rs.len(),
{
    if rs.len() > 0 {
        let prev = rs.drop_last();
        let last = rs.last();
        assert(rs[rs.len() - 1] == last);
        let y = run_text(last.0, last.1) + x;
        assert(runs_text(rs) + x =~= runs_text(prev) + y);
        lemma_expand_runs_text(prev, y);
        lemma_expand_run_text(last.0, last.1, x);
        assert(flatten(rs) + expand_from(x, 0, false) =~= flatten(prev) + (repeat(last.1, last.0)
            + expand_from(x, 0, false)));
    } else {
        assert(runs_text(rs) + x =~= x);
        assert(flatten(rs) + expand_from(x, 0, false) =~= expand_from(x, 0, false));
    }
}

/// The fragment of a row expands to what the row decodes to.
pub proof fn lemma_expand_fragment(row: Seq<bool>, x: Seq<char>)
    ensures
        expand_from(row_fragment(row) + x, 0, false) == row_decoded(row) + expand_from(x, 0, false),
{
    let syms = row_symbols(row);
    let rs = runs(syms);
    if is_full_alive(rs) {
        assert(row_fragment(row) + x =~= x);
        assert(row_decoded(row) + expand_from(x, 0, false) =~= expand_from(x, 0, false));
    } else {
        lemma_runs_positive(syms);
        lemma_runs_symbols(syms);
        lemma_flatten_runs(syms);
        assert forall|k: int| 0 <= k < rs.len() implies (#[trigger] rs[k]).0 >= 1 && !is_digit(
            rs[k].1,
        ) by {
            assert(rs[k].1 == ALIVE || rs[k].1 == DEAD);
        }
        lemma_expand_runs_text(rs, x);
    }
}

/// Every digit is followed by another character, and not by a separator.
pub open spec fn digits_lead_to_symbol(t: Seq<char>) -> bool {
    forall|i: int|
        0 <= i < t.len() && is_digit(#[trigger] t[i]) ==> i + 1 < t.len() && t[i + 1]
            != SEPARATOR
}

/// Decoded rows of a grid.
pub open spec fn rows_decoded(rows: Seq<Seq<bool>>) -> Seq<Seq<char>> {
    rows.map_values(|r: Seq<bool>| row_decoded(r))
}

/// The property survives concatenation.
pub proof fn lemma_digits_lead_concat(a: Seq<char>, b: Seq<char>)
    requires
        digits_lead_to_symbol(a),
        digits_lead_to_symbol(b),
    ensures
        digits_lead_to_symbol(a + b),
{
    let t = a + b;
    assert forall|i: int| 0 <= i < t.len() && is_digit(#[trigger] t[i]) implies i + 1 < t.len()
        && t[i + 1] != SEPARATOR by {
        if i < a.len() {
            assert(a[i] == t[i]);
            assert(t[i + 1] == a[i + 1]);
        } else {
            assert(b[i - a.len()] == t[i]);
            assert(t[i + 1] == b[i + 1 - a.len()]);
        }
    }
}

/// The text of one run has it.
pub proof fn lemma_digits_lead_run_text(n: nat, c: char)
    requires
        !is_digit(c),
        c != SEPARATOR,
    ensures
        digits_lead_to_symbol(run_text(n, c)),
{
    lemma_decimal_digits(n);
}

/// The text of runs of cell symbols has it.
pub proof fn lemma_digits_lead_runs_text(rs: Seq<(nat, char)>)
    requires
        forall|k: int| 0 <= k < rs.len() ==> !is_digit((#[trigger] rs[k]).1) && rs[k].1 != SEPARATOR,
    ensures
        digits_lead_to_symbol(runs_text(rs)),
    decreases rs.len(),
{
    if rs.len() > 0 {
        let last = rs.last();
        assert(rs[rs.len() - 1] == last);
        lemma_digits_lead_runs_text(rs.drop_last());
        lemma_digits_lead_run_text(last.0, last.1);
        lemma_digits_lead_concat(runs_text(rs.drop_last()), run_text(last.0, last.1));
    }
}

/// The joined fragments of a grid have it.
pub proof fn lemma_digits_lead_joined(rows: Seq<Seq<bool>>)
    ensures
        digits_lead_to_symbol(joined(row_fragments(rows), seq![SEPARATOR])),
    decreases rows.len(),
{
    let frags = row_fragments(rows);
    if rows.len() > 0 {
        let row = rows.last();
        let syms = row_symbols(row);
        lemma_runs_symbols(syms);
        let rs = runs(syms);
        assert forall|k: int| 0 <= k < rs.len() implies !is_digit((#[trigger] rs[k]).1) && rs[k].1
            != SEPARATOR by {
            assert(rs[k].1 == ALIVE || rs[k].1 == DEAD);
        }
        lemma_digits_lead_runs_text(rs);
        assert(frags[frags.len() - 1] == row_fragment(row));
        assert(digits_lead_to_symbol(frags.last()));
        if rows.len() > 1 {
            lemma_digits_lead_joined(rows.drop_last());
            assert(frags.drop_last() =~= row_fragments(rows.drop_last()));
            lemma_digits_lead_concat(joined(frags.drop_last(), seq![SEPARATOR]), seq![SEPARATOR]);
            lemma_digits_lead_concat(
                joined(frags.drop_last(), seq![SEPARATOR]) + seq![SEPARATOR],
                frags.last(),
            );
        }
    }
}

/// Expanding the compressed text gives the separators held back, then the
/// expansion of the rest.
pub proof fn lemma_expand_compress(s: Seq<char>, p: nat, acc: nat, has: bool)
    requires
        digits_lead_to_symbol(s),
        (p > 0 || (s.len() > 0 && s[0] == SEPARATOR)) ==> (acc == 0 && !has),
    ensures
        expand_from(compress_from(s, p), acc, has) == repeat(SEPARATOR, p) + expand_from(
            s,
            acc,
            has,
        ),
    decreases s.len(),
{
    if s.len() == 0 {
        assert(expand_from(s, acc, has) =~= Seq::<char>::empty());
        if p > 0 {
            lemma_expand_run_text(p, SEPARATOR, seq![]);
            assert(separator_text(p) + Seq::<char>::empty() =~= separator_text(p));
            assert(expand_from(Seq::<char>::empty(), 0, false) =~= Seq::<char>::empty());
            assert(repeat(SEPARATOR, p) + expand_from(s, acc, has) =~= repeat(SEPARATOR, p));
        } else {
            assert(repeat(SEPARATOR, p) + expand_from(s, acc, has) =~= Seq::<char>::empty());
        }
    } else {
        let c = s[0];
        let rest = s.drop_first();
        assert forall|i: int| 0 <= i < rest.len() && is_digit(#[trigger] rest[i]) implies i + 1
            < rest.len() && rest[i + 1] != SEPARATOR by {
            assert(s[i + 1] == rest[i]);
        }
        if c == SEPARATOR {
            lemma_expand_compress(rest, p + 1, acc, has);
            assert(repeat(SEPARATOR, p + 1) =~= repeat(SEPARATOR, p) + repeat(SEPARATOR, 1));
            assert(repeat(SEPARATOR, p + 1) + expand_from(rest, acc, has) =~= repeat(SEPARATOR, p)
                + (repeat(SEPARATOR, 1) + expand_from(rest, 0, false)));
        } else {
            let tail = compress_from(rest, 0);
            let after = seq![c] + tail;
            assert(after.drop_first() =~= tail);
            assert(after[0] == c);
            assert(compress_from(s, p) =~= separator_text(p) + after);
            let (acc2, has2) = if p > 0 {
                (0nat, false)
            } else {
                (acc, has)
            };
            if p > 0 {
                lemma_expand_run_text(p, SEPARATOR, after);
            } else {
                assert(separator_text(p) + after =~= after);
                assert(repeat(SEPARATOR, p) =~= Seq::<char>::empty());
            }
            assert(expand_from(compress_from(s, p), acc, has) == repeat(SEPARATOR, p) + expand_from(
                after,
                acc2,
                has2,
            ));
            if is_digit(c) {
                assert(s[1] != SEPARATOR);
                lemma_expand_compress(rest, 0, acc2 * 10 + digit_value(c), true);
            } else {
                lemma_expand_compress(rest, 0, 0, false);
                assert(repeat(SEPARATOR, p) + (repeat(c, if has2 { acc2 } else { 1 }) + expand_from(
                    tail,
                    0,
                    false,
                )) =~= repeat(SEPARATOR, p) + repeat(c, if has2 { acc2 } else { 1 })
                    + expand_from(tail, 0, false));
            }
        }
    }
}

/// Expanding the joined fragments gives the decoded rows, joined.
pub proof fn lemma_expand_joined(rows: Seq<Seq<bool>>, x: Seq<char>)
    requires
        rows.len() >= 1,
    ensures
        expand_from(joined(row_fragments(rows), seq![SEPARATOR]) + x, 0, false) == joined(
            rows_decoded(rows),
            seq![SEPARATOR],
        ) + expand_from(x, 0, false),
    decreases rows.len(),
{
    let frags = row_fragments(rows);
    let dec = rows_decoded(rows);
    let row = rows.last();
    assert(frags[frags.len() - 1] == row_fragment(row));
    assert(dec[dec.len() - 1] == row_decoded(row));
    if rows.len() == 1 {
        lemma_expand_fragment(row, x);
    } else {
        let fp = frags.drop_last();
        let dp = dec.drop_last();
        assert(fp =~= row_fragments(rows.drop_last()));
        assert(dp =~= rows_decoded(rows.drop_last()));
        let tail = row_fragment(row) + x;
        let y = seq![SEPARATOR] + tail;
        assert(joined(frags, seq![SEPARATOR]) + x =~= joined(fp, seq![SEPARATOR]) + y);
        lemma_expand_joined(rows.drop_last(), y);
        assert(y.drop_first() =~= tail);
        assert(y[0] == SEPARATOR);
        assert(expand_from(y, 0, false) == repeat(SEPARATOR, 1) + expand_from(tail, 0, false));
        lemma_expand_fragment(row, x);
        assert(repeat(SEPARATOR, 1) =~= seq![SEPARATOR]);
        assert(joined(dp, seq![SEPARATOR]) + (repeat(SEPARATOR, 1) + (row_decoded(row)
            + expand_from(x, 0, false))) =~= joined(dec, seq![SEPARATOR]) + expand_from(
            x,
            0,
            false,
        ));
    }
}

/// Splitting never gives zero pieces.
pub proof fn lemma_split_len(t: Seq<char>, sep: char)
    ensures
        split_rows(t, sep).len() >= 1,
    decreases t.len(),
{
    if t.len() > 0 {
        lemma_split_len(t.drop_last(), sep);
    }
}

/// Text without separators goes onto the last piece.
pub proof fn lemma_split_append(a: Seq<char>, b: Seq<char>, sep: char)
    requires
        free_of(b, sep),
    ensures
        split_rows(a + b, sep) == split_rows(a, sep).update(
            split_rows(a, sep).len() - 1,
            split_rows(a, sep).last() + b,
        ),
    decreases b.len(),
{
    let sa = split_rows(a, sep);
    lemma_split_len(a, sep);
    if b.len() == 0 {
        assert(a + b =~= a);
        assert(sa.last() + b =~= sa.last());
        assert(sa.update(sa.len() - 1, sa.last() + b) =~= sa);
    } else {
        let bp = b.drop_last();
        let c = b.last();
        assert(b[b.len() - 1] == c);
        assert((a + b).drop_last() =~= a + bp);
        assert((a + b).last() == c);
        lemma_split_append(a, bp, sep);
        assert((sa.last() + bp).push(c) =~= sa.last() + b);
        assert(split_rows(a + b, sep) =~= sa.update(sa.len() - 1, sa.last() + b));
    }
}

/// Splitting parts without separators joined by the separator gives the parts.
pub proof fn lemma_split_joined(parts: Seq<Seq<char>>, sep: char)
    requires
        parts.len() >= 1,
        forall|k: int| 0 <= k < parts.len() ==> free_of(#[trigger] parts[k], sep),
    ensures
        split_rows(joined(parts, seq![sep]), sep) == parts,
    decreases parts.len(),
{
    let last = parts.last();
    assert(free_of(parts[parts.len() - 1], sep));
    if parts.len() == 1 {
        let e = Seq::<char>::empty();
        assert(e + last =~= last);
        lemma_split_append(e, last, sep);
        assert(split_rows(e, sep) =~= seq![e]);
        assert(split_rows(joined(parts, seq![sep]), sep) =~= parts);
    } else {
        let pp = parts.drop_last();
        let jp = joined(pp, seq![sep]);
        lemma_split_joined(pp, sep);
        let js = jp + seq![sep];
        assert(js.drop_last() =~= jp);
        assert(split_rows(js, sep) == pp.push(seq![]));
        lemma_split_append(js, last, sep);
        assert(joined(parts, seq![sep]) == js + last);
        assert(Seq::<char>::empty() + last =~= last);
        assert(split_rows(joined(parts, seq![sep]), sep) =~= parts);
    }
}

/// A decoded row, filled out to the grid's width, gives the row back.
pub proof fn lemma_cells_of_decoded(row: Seq<bool>)
    requires
        row.len() >= 1,
    ensures
        cells_of(row_decoded(row), row.len()) == row,
{
    let syms = row_symbols(row);
    let rs = runs(syms);
    if is_full_alive(rs) {
        lemma_flatten_runs(syms);
        assert(rs =~= seq![rs[0]]);
        assert(rs.drop_last() =~= Seq::<(nat, char)>::empty());
        assert(flatten(rs) == flatten(rs.drop_last()) + repeat(ALIVE, rs[0].0));
        assert(flatten(rs) =~= repeat(ALIVE, rs[0].0));
        assert forall|i: int| 0 <= i < row.len() implies row[i] by {
            assert(syms[i] == ALIVE);
        }
        assert(cells_of(row_decoded(row), row.len()) =~= row);
    } else {
        assert(cells_of(row_decoded(row), row.len()) =~= row);
    }
}

} // verus!
