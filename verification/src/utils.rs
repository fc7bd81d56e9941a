//! The generators that the scrambles draw their position arrays from.

pub mod gilbert;
pub mod logistic;
pub mod ranking;
pub mod shuffle;

pub use gilbert::gilbert2d;
pub use shuffle::shuffle_with_key;
pub use logistic::generate_logistic_positions;
