//! Ranking, history, scoring and aggregation engine for a difficulty-ordered list of demons.
//!
//! - `rank_store`: the ordered list, its mutations and the movement log written with them,
//!   and the reconstruction of the list at a past time.
//! - `history`: position states and the replay of the movement log over them.
//! - `score`: the position-to-score curve and the score of a completion.
//! - `aggregate`: player totals from their best records, and nation totals.
//! - `heatmap`: nation totals normalised onto heatmap levels, and their colours.
//! - `chart`: labels of a demon's position-history chart.
//! - `video`: the service hosting a demon's video, and its embedding address.
pub mod aggregate;
pub mod chart;
pub mod heatmap;
pub mod history;
pub mod rank_store;
pub mod score;
pub mod video;
