use img2rle::encoder::{cell_symbol, compress_separators, encode, encode_row};
use img2rle::grid::{Grid, GridError};

fn grid(rows: Vec<Vec<bool>>) -> Grid {
    Grid::from_rows(rows).unwrap()
}

fn decode_rows(text: &str, width: usize) -> Vec<Vec<bool>> {
    let body = text.strip_suffix('!').unwrap();
    let mut expanded = String::new();
    let mut count = String::new();
    for c in body.chars() {
        if c.is_ascii_digit() {
            count.push(c);
        } else {
            let n: usize = if count.is_empty() { 1 } else { count.parse().unwrap() };
            for _ in 0..n {
                expanded.push(c);
            }
            count.clear();
        }
    }
    expanded
        .split('$')
        .map(|r| {
            if r.is_empty() {
                vec![true; width]
            } else {
                r.chars().map(|c| c == 'b').collect()
            }
        })
        .collect()
}

#[test]
fn terminator_only_at_end() {
    let g = grid(vec![
        vec![true, false, false, true],
        vec![true, true, true, true],
        vec![false, false, false, false],
    ]);
    let out = encode(&g);
    assert!(out.ends_with('!'));
    assert_eq!(out.matches('!').count(), 1);
}

#[test]
fn decoding_restores_cells() {
    let rows = vec![
        vec![true, false, false, true, true, true, true, true, true, true, true, true, false],
        vec![true; 13],
        vec![true; 13],
        vec![false; 13],
        vec![false, true, false, true, false, true, false, true, false, true, false, true, false],
    ];
    let out = encode(&grid(rows.clone()));
    assert_eq!(decode_rows(&out, 13), rows);
}

#[test]
fn alive_row_is_empty_fragment() {
    assert_eq!(encode_row(&vec![true; 7]), "");
    assert_eq!(encode(&grid(vec![vec![true; 7]])), "!");
}

#[test]
fn dead_row_fragments() {
    assert_eq!(encode_row(&vec![false; 5]), "5o");
    assert_eq!(encode_row(&vec![false; 12]), "12o");
    assert_eq!(encode_row(&vec![false]), "o");
}

#[test]
fn two_alive_rows_compress_separators() {
    let g = grid(vec![vec![false, false], vec![true, true], vec![true, true]]);
    let out = encode(&g);
    assert_eq!(out, "2o2$!");
    assert!(!out.contains("$$"));
}

#[test]
fn two_alive_rows_between_dead_rows() {
    let g = grid(vec![
        vec![false, true],
        vec![true, true],
        vec![true, true],
        vec![false, true],
    ]);
    assert_eq!(encode(&g), "ob3$ob!");
}

#[test]
fn single_alive_cell() {
    assert_eq!(encode(&grid(vec![vec![true]])), "!");
}

#[test]
fn single_dead_cell() {
    assert_eq!(encode(&grid(vec![vec![false]])), "o!");
}

#[test]
fn alive_then_dead_row() {
    assert_eq!(encode_row(&vec![true, false]), "bo");
    assert_eq!(encode(&grid(vec![vec![true, false]])), "bo!");
}

#[test]
fn encoding_twice_is_identical() {
    let g = grid(vec![vec![true, false, true], vec![false, false, true]]);
    assert_eq!(encode(&g), encode(&g));
}

#[test]
fn mixed_runs_in_row() {
    assert_eq!(encode_row(&vec![true, true, false, true, false, false, false]), "2bob3o");
}

#[test]
fn rows_joined_in_order() {
    let g = grid(vec![vec![false, true], vec![true, false], vec![false, false]]);
    assert_eq!(encode(&g), "ob$bo$2o!");
}

#[test]
fn separator_compression_pass() {
    assert_eq!(compress_separators("a$$b$"), "a2$b$");
    assert_eq!(compress_separators("$$$$$$$$$$$$x"), "12$x");
    assert_eq!(compress_separators("xy"), "xy");
    assert_eq!(compress_separators(""), "");
}

#[test]
fn cell_symbols() {
    assert_eq!(cell_symbol(true), 'b');
    assert_eq!(cell_symbol(false), 'o');
}

#[test]
fn empty_rows_rejected() {
    assert_eq!(Grid::from_rows(vec![]).err(), Some(GridError::EmptyImage));
    assert_eq!(Grid::from_rows(vec![vec![]]).err(), Some(GridError::EmptyImage));
}

#[test]
fn ragged_rows_rejected() {
    let r = Grid::from_rows(vec![vec![true, false], vec![true]]);
    assert_eq!(r.err(), Some(GridError::RaggedRows));
}

#[test]
fn luma_threshold() {
    let g = Grid::from_luma(3, 2, &vec![0, 127, 128, 255, 200, 10]).unwrap();
    assert_eq!(g.width(), 3);
    assert_eq!(g.height(), 2);
    assert!(!g.alive(0, 0));
    assert!(!g.alive(1, 0));
    assert!(g.alive(2, 0));
    assert!(g.alive(0, 1));
    assert!(g.alive(1, 1));
    assert!(!g.alive(2, 1));
    assert_eq!(encode(&g), "2ob$2bo!");
}

#[test]
fn luma_errors() {
    assert_eq!(Grid::from_luma(0, 2, &vec![]).err(), Some(GridError::EmptyImage));
    assert_eq!(Grid::from_luma(2, 0, &vec![]).err(), Some(GridError::EmptyImage));
    assert_eq!(Grid::from_luma(2, 2, &vec![1, 2, 3]).err(), Some(GridError::SizeMismatch));
}
