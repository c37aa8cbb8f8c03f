//! Assets: their kind, their symbol and provider identifier, the amount held
//! and the unit price, both as fixed-point integers.
use vstd::prelude::*;

verus! {

/// One unit in the fixed-point representation of amounts and prices:
/// eight decimal places.
pub const SCALE: u64 = 100_000_000;

/// The asset class of a holding, decided once when holdings are loaded.
#[allow(non_camel_case_types)]
#[derive(Debug, PartialEq, Eq, Structural, Clone, Copy)]
pub enum TickerType {
    STABLE,
    FIAT,
    CRYPTO,
    NOT_SPECIFIED,
}

/// A holding: a symbol, the identifier the price provider gives it (empty
/// while unknown), its class, the amount held and the unit price in the
/// settlement currency (both in units of `1 / SCALE`).
#[derive(Debug, Clone)]
pub struct Ticker {
    pub name: String,
    pub cmc_id: String,
    pub ticker_type: TickerType,
    pub amount: u64,
    pub price: u64,
}

/// The mathematical value of a [`Ticker`].
pub ghost struct TickerModel {
    pub name: Seq<char>,
    pub cmc_id: Seq<char>,
    pub ticker_type: TickerType,
    pub amount: nat,
    pub price: nat,
}

impl View for Ticker {
    type V = TickerModel;

    open spec fn view(&self) -> TickerModel {
        TickerModel {
            name: self.name@,
            cmc_id: self.cmc_id@,
            ticker_type: self.ticker_type,
            amount: self.amount as nat,
            price: self.price as nat,
        }
    }
}

/// The models of a sequence of tickers.
pub open spec fn models(s: Seq<Ticker>) -> Seq<TickerModel> {
    s.map_values(|t: Ticker| t@)
}

/// No symbol occurs twice.
pub open spec fn distinct_names(s: Seq<Ticker>) -> bool {
    forall|i: int, j: int| 0 <= i < j < s.len() ==> s[i].name@ != s[j].name@
}

/// Two tickers denote the same asset when their symbols are equal; amounts
/// and prices play no part.
pub open spec fn same_asset(a: TickerModel, b: TickerModel) -> bool {
    a.name == b.name
}

impl Ticker {
    /// A ticker with a known provider identifier and no class yet.
    pub fn create_ticker(name: String, cmc_id: String, amount: u64) -> (r: Ticker)
        ensures
            r.name == name,
            r.cmc_id == cmc_id,
            r.ticker_type == TickerType::NOT_SPECIFIED,
            r.amount == amount,
            r.price == 0,
    {
        Ticker { name, cmc_id, ticker_type: TickerType::NOT_SPECIFIED, amount, price: 0 }
    }

    /// A ticker whose provider identifier is not known yet.
    #[allow(non_snake_case)]
    pub fn create_ticker_WO_cmc_id(name: String, amount: u64, ticker_type: TickerType) -> (r:
        Ticker)
        ensures
            r.name == name,
            r.cmc_id@ == Seq::<char>::empty(),
            r.ticker_type == ticker_type,
            r.amount == amount,
            r.price == 0,
    {
        Ticker { name, cmc_id: String::new(), ticker_type, amount, price: 0 }
    }

    /// A fiat holding; its unit price starts at one.
    #[allow(non_snake_case)]
    pub fn createFiat(name: String, cmc_id: String, amount: u64) -> (r: Ticker)
        ensures
            r.name == name,
            r.cmc_id == cmc_id,
            r.ticker_type == TickerType::FIAT,
            r.amount == amount,
            r.price == SCALE,
    {
        Ticker { name, cmc_id, ticker_type: TickerType::FIAT, amount, price: SCALE }
    }

    /// A crypto-currency holding.
    #[allow(non_snake_case)]
    pub fn createCrypto(name: String, cmc_id: String, amount: u64) -> (r: Ticker)
        ensures
            r.name == name,
            r.cmc_id == cmc_id,
            r.ticker_type == TickerType::CRYPTO,
            r.amount == amount,
            r.price == 0,
    {
        Ticker { name, cmc_id, ticker_type: TickerType::CRYPTO, amount, price: 0 }
    }

    /// A stablecoin holding.
    #[allow(non_snake_case)]
    pub fn createStable(name: String, cmc_id: String, amount: u64) -> (r: Ticker)
        ensures
            r.name == name,
            r.cmc_id == cmc_id,
            r.ticker_type == TickerType::STABLE,
            r.amount == amount,
            r.price == 0,
    {
        Ticker { name, cmc_id, ticker_type: TickerType::STABLE, amount, price: 0 }
    }

    /// The settlement currency as a fiat ticker of amount zero, whose
    /// identifier is its own symbol.
    pub fn createbase_currency(name: String) -> (r: Ticker)
        ensures
            r.name@ == name@,
            r.cmc_id@ == name@,
            r.ticker_type == TickerType::FIAT,
            r.amount == 0,
            r.price == SCALE,
    {
        Ticker::createFiat(name.clone(), name, 0)
    }

    /// A copy of this ticker.
    pub fn copy(&self) -> (r: Ticker)
        ensures
            r == *self,
    {
        Ticker {
            name: self.name.clone(),
            cmc_id: self.cmc_id.clone(),
            ticker_type: self.ticker_type,
            amount: self.amount,
            price: self.price,
        }
    }
}

/// Two tickers are equal when they denote the same asset (equal symbols).
impl PartialEq for Ticker {
    fn eq(&self, other: &Ticker) -> (r: bool) {
        self.name == other.name
    }
}

impl vstd::std_specs::cmp::PartialEqSpecImpl for Ticker {
    open spec fn obeys_eq_spec() -> bool {
        true
    }

    open spec fn eq_spec(&self, other: &Ticker) -> bool {
        same_asset(self@, other@)
    }
}

} // verus!
