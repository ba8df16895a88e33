//! Tests for the neighbor cursor and the CLI error type.

use s7::algorithm::neighboring_coords::NeighboringCoords;
use s7::cli_error::CliError;

#[test]
fn all_neighbors_skip_negative_coordinates() {
    let mut it = NeighboringCoords::all_neighbors((0, 0));
    assert_eq!(it.next(), Some((1, 0)));
    assert_eq!(it.next(), Some((0, 1)));
    assert_eq!(it.next(), Some((1, 1)));
    assert_eq!(it.next(), None);
    assert_eq!(it.next(), None);
}

#[test]
fn all_neighbors_enumerate_in_scan_order() {
    let mut it = NeighboringCoords::all_neighbors((2, 2));
    let mut got = Vec::new();
    while let Some(c) = it.next() {
        got.push(c);
    }
    assert_eq!(
        got,
        vec![(1, 1), (2, 1), (3, 1), (1, 2), (3, 2), (1, 3), (2, 3), (3, 3)]
    );
}

#[test]
fn plus_neighbors_enumerate_in_scan_order() {
    let mut it = NeighboringCoords::neighbors((5, 5));
    let mut got = Vec::new();
    while let Some(c) = it.next() {
        got.push(c);
    }
    assert_eq!(got, vec![(5, 4), (4, 5), (6, 5), (5, 6)]);
}

#[test]
fn plus_neighbors_skip_negative_coordinates() {
    let mut it = NeighboringCoords::neighbors((0, 0));
    assert_eq!(it.next(), Some((1, 0)));
    assert_eq!(it.next(), Some((0, 1)));
    assert_eq!(it.next(), None);
}

#[test]
fn cli_error_describes_itself() {
    let err = CliError::new("bad input");
    assert_eq!(err.describe(), "bad input");
}
