pub mod data;
pub mod util;
pub mod stake;
pub mod rewards;
pub mod filter;
pub mod grouping;
pub mod tally;
