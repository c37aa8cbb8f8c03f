//! Portfolio valuation: turns declared holdings into provider identifiers,
//! attaches quotes and folds everything into one total in a settlement
//! currency. Amounts and prices are fixed-point integers with eight decimals.
pub mod amount;
pub mod documents;
pub mod error;
pub mod holdings;
pub mod pricing;
pub mod resolver;
pub mod settings;
pub mod text;
pub mod ticker;
pub mod wallet;
