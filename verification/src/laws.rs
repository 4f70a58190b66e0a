//! What holds of the shorts as a whole.
pub mod books;
pub mod bounds;
pub mod charging;
pub mod closing;
pub mod compounding;
pub mod custody;
pub mod decaying;
pub mod drifting;
pub mod following;
pub mod histories;
pub mod ledger;
pub mod migrating;
pub mod moves;
pub mod opening;
pub mod parts;
pub mod pools;
pub mod pricing;
pub mod rates;
pub mod refusals;
pub mod settlement;
pub mod shortfall;
pub mod showing;
pub mod stakes;
pub mod sums;
pub mod tallies;
