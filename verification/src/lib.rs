//! Covered shorts on subnet tokens.
//!
//! A trader posts a floor of TAO and borrows a position in the alpha of a subnet from its pool.
//! What the sale of the borrowed alpha brings stays in custody as a buffer, beside an escrow out of
//! the pool; both decay block by block back into the pool, while the alpha that is owed stays
//! fixed. A position ends by repaying the alpha, by default once its buffer is dust, or by
//! settlement when its subnet is deregistered.
//!
//! [`pallet::Pallet`] holds the shorts together with the ledger that they move. Its contracts
//! speak of [`pallet::State`], what each call does is a spec function from state to state, and
//! what holds of all of them together is proved in [`laws`].
pub mod accounts;
pub mod close;
pub mod decay;
pub mod dust;
pub mod fixed;
pub mod governance;
pub mod laws;
pub mod math;
pub mod migration;
pub mod open;
pub mod pallet;
pub mod pricing;
pub mod residuals;
pub mod series;
pub mod settle;
pub mod storage;
pub mod types;
pub mod views;
