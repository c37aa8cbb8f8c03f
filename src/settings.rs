//! Run configuration.
use vstd::prelude::*;

verus! {

/// The recognised options of a run: the settlement currency, the price
/// provider, whether to refresh the provider directory first, the provider's
/// key and the location of the resolution cache.
pub struct Settings {
    pub currency: String,
    pub provider: String,
    pub fetch_symb: bool,
    pub cmc_key: String,
    pub path: String,
}

} // verus!
