//! The core of a leaderboard of mouse sensitivities.
//!
//! Rows scraped from the leaderboard page are normalised into player
//! records, kept in a table ordered by name, and served through search,
//! similarity and conversion queries. A scheduler decides when the table is
//! refreshed and takes a refresh through its steps.
//!
//! Sensitivities are fixed-point numbers: a sensitivity counts millionths,
//! so that the effective DPI, its product with the DPI of the mouse, is an
//! exact integer. A converted sensitivity is rounded to three decimal
//! places and counts thousandths.
//!
//! - [`text`]: trimming cell texts and reading numbers out of them
//! - [`fixed`]: fixed-point arithmetic and rounding
//! - [`name`]: the order of names and prefix search on them
//! - [`record`]: the player record
//! - [`normalize`]: from the cells of a row to a record
//! - [`scrape`]: from the page to a batch of records
//! - [`store`]: the table and its queries
//! - [`query`]: search, similarity and conversion
//! - [`refresh`]: the refresh scheduler

pub mod fixed;
pub mod name;
pub mod normalize;
pub mod query;
pub mod record;
pub mod refresh;
pub mod scrape;
pub mod store;
pub mod text;
