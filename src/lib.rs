//! Antinode location on a grid of frequency-labelled cells.
//!
//! The grid itself is an [`array2d::Array2D`]; `grid` gives its contents a
//! mathematical model, `coord` holds checked coordinate arithmetic,
//! `antinode` holds the enumerator of labelled cells and the two locators,
//! `count` counts marked cells, `laws` relates the two locators, and `text`
//! turns lines of characters into a grid and grids back into text.

pub mod grid;
pub mod coord;
pub mod antinode;
pub mod count;
pub mod laws;
pub mod text;
