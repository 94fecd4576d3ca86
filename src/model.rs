//! Mathematical model of the encoding.
use vstd::prelude::*;

verus! {

/// Symbol written for an alive cell.
pub const ALIVE: char = 'b';

/// Symbol written for a dead cell.
pub const DEAD: char = 'o';

/// Symbol between two encoded rows.
pub const SEPARATOR: char = '$';

/// Symbol closing the encoded text.
pub const TERMINATOR: char = '!';

/// The decimal digit character for `d < 10`.
pub open spec fn digit_char(d: nat) -> char {
    ((d + 48) as u8) as char
}

/// Decimal digits of `n`, most significant first, without leading zeros.
pub open spec fn decimal(n: nat) -> Seq<char>
    decreases n,
{
    if n < 10 {
        seq![digit_char(n)]
    } else {
        decimal(n / 10).push(digit_char(n % 10))
    }
}

/// Symbol of one cell.
pub open spec fn symbol(alive: bool) -> char {
    if alive {
        ALIVE
    } else {
        DEAD
    }
}

/// Symbols of a row of cells, left to right.
pub open spec fn row_symbols(row: Seq<bool>) -> Seq<char> {
    row.map_values(|a: bool| symbol(a))
}

/// The maximal runs of equal characters of `s`, left to right, each as
/// (length, character).
pub open spec fn runs(s: Seq<char>) -> Seq<(nat, char)>
    decreases s.len(),
{
    if s.len() == 0 {
        seq![]
    } else {
        let prev = runs(s.drop_last());
        let c = s.last();
        if prev.len() > 0 && prev.last().1 == c {
            prev.update(prev.len() - 1, (prev.last().0 + 1, c))
        } else {
            prev.push((1, c))
        }
    }
}

/// Text of one run: the length in decimal when above one, then the symbol.
pub open spec fn run_text(n: nat, c: char) -> Seq<char> {
    if n > 1 {
        decimal(n).push(c)
    } else {
        seq![c]
    }
}

/// Texts of a sequence of runs, concatenated.
pub open spec fn runs_text(rs: Seq<(nat, char)>) -> Seq<char>
    decreases rs.len(),
{
    if rs.len() == 0 {
        seq![]
    } else {
        runs_text(rs.drop_last()) + run_text(rs.last().0, rs.last().1)
    }
}

/// True when the runs are one single run of alive cells.
pub open spec fn is_full_alive(rs: Seq<(nat, char)>) -> bool {
    rs.len() == 1 && rs[0].1 == ALIVE
}

/// Fragment of one row: empty for a fully alive row, else its runs' texts.
pub open spec fn row_fragment(row: Seq<bool>) -> Seq<char> {
    let rs = runs(row_symbols(row));
    if is_full_alive(rs) {
        seq![]
    } else {
        runs_text(rs)
    }
}

/// The parts joined with `sep` between consecutive ones.
pub open spec fn joined(parts: Seq<Seq<char>>, sep: Seq<char>) -> Seq<char>
    decreases parts.len(),
{
    if parts.len() == 0 {
        seq![]
    } else if parts.len() == 1 {
        parts[0]
    } else {
        joined(parts.drop_last(), sep) + sep + parts.last()
    }
}

/// Fragments of all rows, top to bottom.
pub open spec fn row_fragments(rows: Seq<Seq<bool>>) -> Seq<Seq<char>> {
    rows.map_values(|r: Seq<bool>| row_fragment(r))
}

/// Text that stands for `k` consecutive separators.
pub open spec fn separator_text(k: nat) -> Seq<char> {
    if k == 0 {
        seq![]
    } else {
        run_text(k, SEPARATOR)
    }
}

/// Separator compression of `s`, with `pending` separators already seen
/// and not yet written.
pub open spec fn compress_from(s: Seq<char>, pending: nat) -> Seq<char>
    decreases s.len(),
{
    if s.len() == 0 {
        separator_text(pending)
    } else if s[0] == SEPARATOR {
        compress_from(s.drop_first(), pending + 1)
    } else {
        separator_text(pending).push(s[0]) + compress_from(s.drop_first(), 0)
    }
}

/// `s` with each maximal run of separators replaced by its compressed text.
pub open spec fn compress(s: Seq<char>) -> Seq<char> {
    compress_from(s, 0)
}

/// The full encoding of a grid given by its rows.
pub open spec fn encoding(rows: Seq<Seq<bool>>) -> Seq<char> {
    compress(joined(row_fragments(rows), seq![SEPARATOR])).push(TERMINATOR)
}

} // verus!
