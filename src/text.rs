//! Text building blocks.
use vstd::prelude::*;
use itertools::Itertools;
use crate::model::{decimal, joined, runs, run_text, separator_text, SEPARATOR};

verus! {

/// Relies on `String::push`: the character is appended at the end.
pub assume_specification[ String::push ](s: &mut String, c: char)
    ensures
        final(s)@ == old(s)@.push(c),
;

/// Appends the decimal digits of `n` to `out`.
pub fn push_decimal(out: &mut String, n: usize)
    ensures
        final(out)@ == old(out)@ + decimal(n as nat),
    decreases n,
{
    if n >= 10 {
        push_decimal(out, n / 10);
    }
    let d: u8 = (n % 10) as u8;
    out.push((48u8 + d) as char);
}

/// The runs of a sequence as exact counts.
pub open spec fn runs_view(r: Seq<(usize, char)>) -> Seq<(nat, char)> {
    r.map_values(|p: (usize, char)| (p.0 as nat, p.1))
}

/// The texts of a sequence of strings.
pub open spec fn texts(parts: Seq<String>) -> Seq<Seq<char>> {
    parts.map_values(|p: String| p@)
}

/// Relies on `Itertools::dedup_with_count`: it yields the maximal runs of
/// equal items, left to right, each with its length.
#[verifier::external_body]
pub(crate) fn dedup_runs(v: &Vec<char>) -> (r: Vec<(usize, char)>)
    ensures
        runs_view(r@) == runs(v@),
{
    v.iter().copied().dedup_with_count().collect()
}

/// Relies on `Itertools::join`: the items' texts, with `sep` between
/// consecutive ones.
#[verifier::external_body]
pub(crate) fn join_with(parts: &Vec<String>, sep: &str) -> (r: String)
    ensures
        r@ == joined(texts(parts@), sep@),
{
    parts.iter().join(sep)
}

/// Relies on `str::chars`: the characters of the text, in order.
#[verifier::external_body]
pub(crate) fn chars_of(s: &str) -> (r: Vec<char>)
    ensures
        r@ == s@,
{
    s.chars().collect()
}

/// Appends the text of a run of `n` symbols `c`.
pub fn push_run(out: &mut String, n: usize, c: char)
    requires
        n >= 1,
    ensures
        final(out)@ == old(out)@ + run_text(n as nat, c),
{
    if n > 1 {
        push_decimal(out, n);
    }
    out.push(c);
    assert(final(out)@ =~= old(out)@ + run_text(n as nat, c));
}

/// Appends the text standing for `k` consecutive separators.
pub fn push_separators(out: &mut String, k: usize)
    ensures
        final(out)@ == old(out)@ + separator_text(k as nat),
{
    if k > 0 {
        push_run(out, k, SEPARATOR);
    } else {
        assert(final(out)@ =~= old(out)@ + separator_text(k as nat));
    }
}

} // verus!
