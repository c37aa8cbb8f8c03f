//! The wallet: holdings split by asset class, the settlement currency, and
//! the valuation that folds quantity times unit price over them.
use vstd::prelude::*;

use crate::error::WalletError;
use crate::text::{ascii_lower, to_lower};
use crate::ticker::{models, Ticker, TickerModel, TickerType, SCALE};

verus! {

/// Which holdings the valuation covers: crypto-currencies and stablecoins
/// only, or those and fiat.
pub struct WalletType {
    pub crypto_stable: bool,
    pub crypto_stable_fiat: bool,
}

impl WalletType {
    /// Valuation of crypto-currencies and stablecoins only.
    pub fn create_wallet_crypto() -> (r: WalletType)
        ensures
            r.crypto_stable,
            !r.crypto_stable_fiat,
    {
        WalletType { crypto_stable: true, crypto_stable_fiat: false }
    }

    /// Valuation of crypto-currencies, stablecoins and fiat.
    pub fn create_wallet_total() -> (r: WalletType)
        ensures
            !r.crypto_stable,
            r.crypto_stable_fiat,
    {
        WalletType { crypto_stable: false, crypto_stable_fiat: true }
    }
}

/// The holdings of one class, in order.
pub open spec fn of_class(s: Seq<TickerModel>, k: TickerType) -> Seq<TickerModel>
    decreases s.len(),
{
    if s.len() == 0 {
        Seq::empty()
    } else if s.last().ticker_type == k {
        of_class(s.drop_last(), k).push(s.last())
    } else {
        of_class(s.drop_last(), k)
    }
}

/// The fiat holdings, in order, each valued at one unit of itself.
pub open spec fn fiat_of(s: Seq<TickerModel>) -> Seq<TickerModel>
    decreases s.len(),
{
    if s.len() == 0 {
        Seq::empty()
    } else if s.last().ticker_type == TickerType::FIAT {
        fiat_of(s.drop_last()).push(TickerModel { price: SCALE as nat, ..s.last() })
    } else {
        fiat_of(s.drop_last())
    }
}

/// Some holding has no asset class.
pub open spec fn has_unclassified(s: Seq<TickerModel>) -> bool {
    exists|i: int| 0 <= i < s.len() && (#[trigger] s[i]).ticker_type == TickerType::NOT_SPECIFIED
}

/// The value of holdings: the sum of quantity times unit price, in units of
/// `1 / SCALE^2`.
pub open spec fn value_of(s: Seq<TickerModel>) -> int
    decreases s.len(),
{
    if s.len() == 0 {
        0
    } else {
        value_of(s.drop_last()) + s.last().amount * s.last().price
    }
}

/// `base + fiat + "=X"`: the currency-pair symbol of the exchange-rate
/// provider.
pub open spec fn forex_pair_of(base: Seq<char>, fiat: Seq<char>) -> Seq<char> {
    base + fiat + "=X"@
}

/// What a valuation totals for a wallet type: crypto-currencies and
/// stablecoins when either flag is set, fiat as well under the second flag.
pub open spec fn valuation(
    wallet_type: WalletType,
    crypto: Seq<TickerModel>,
    stable: Seq<TickerModel>,
    fiat: Seq<TickerModel>,
) -> int {
    (if wallet_type.crypto_stable || wallet_type.crypto_stable_fiat {
        value_of(crypto) + value_of(stable)
    } else {
        0
    }) + (if wallet_type.crypto_stable_fiat {
        value_of(fiat)
    } else {
        0
    })
}

/// The value of holdings, or `Overflow` when it does not fit a `u128`.
pub fn total_of(s: &Vec<Ticker>) -> (r: Result<u128, WalletError>)
    ensures
        value_of(models(s@)) <= u128::MAX ==> r == Ok::<u128, WalletError>(
            value_of(models(s@)) as u128,
        ),
        value_of(models(s@)) > u128::MAX ==> r == Err::<u128, WalletError>(WalletError::Overflow),
{
    let mut total: u128 = 0;
    let mut i: usize = 0;
    while i < s.len()
        invariant
            i <= s@.len(),
            total as int == value_of(models(s@).subrange(0, i as int)),
        decreases s@.len() - i,
    {
        let ghost m = models(s@);
        assert(m.subrange(0, i + 1).drop_last() =~= m.subrange(0, i as int));
        assert(m.subrange(0, i + 1).last() == s@[i as int]@);
        let a = s[i].amount as u128;
        let p = s[i].price as u128;
        assert(a * p <= 0xffff_ffff_ffff_ffffu128 * 0xffff_ffff_ffff_ffffu128) by (nonlinear_arith)
            requires
                a <= 0xffff_ffff_ffff_ffffu128,
                p <= 0xffff_ffff_ffff_ffffu128,
        ;
        let v = a * p;
        match total.checked_add(v) {
            Some(t) => {
                total = t;
            },
            None => {
                proof {
                    lemma_value_grows(m, i + 1);
                }
                return Err(WalletError::Overflow);
            },
        }
        i = i + 1;
    }
    assert(models(s@).subrange(0, s@.len() as int) =~= models(s@));
    Ok(total)
}

proof fn lemma_value_grows(s: Seq<TickerModel>, i: int)
    requires
        0 <= i <= s.len(),
    ensures
        value_of(s.subrange(0, i)) <= value_of(s),
    decreases s.len() - i,
{
    if i < s.len() {
        lemma_value_grows(s, i + 1);
        assert(s.subrange(0, i + 1).drop_last() =~= s.subrange(0, i));
        assert(s.subrange(0, i + 1).last().amount * s.subrange(0, i + 1).last().price >= 0)
            by (nonlinear_arith);
    } else {
        assert(s.subrange(0, i) =~= s);
    }
}

/// The symbols that could not be resolved, to be reported by name. With
/// `abort_on_unresolved`, a non-empty list fails the run with `Unresolved`
/// instead; otherwise those holdings are simply left out of the valuation.
pub fn report_unresolved(not_found: &Vec<Ticker>, abort_on_unresolved: bool) -> (r: Result<
    Vec<String>,
    WalletError,
>)
    ensures
        r is Err <==> abort_on_unresolved && not_found@.len() > 0,
        r is Err ==> r->Err_0 == WalletError::Unresolved,
        r is Ok ==> r->Ok_0@.len() == not_found@.len() && forall|i: int|
            0 <= i < not_found@.len() ==> (#[trigger] r->Ok_0@[i])@ == not_found@[i].name@,
{
    if abort_on_unresolved && not_found.len() > 0 {
        return Err(WalletError::Unresolved);
    }
    let mut names: Vec<String> = Vec::new();
    let mut i: usize = 0;
    while i < not_found.len()
        invariant
            i <= not_found@.len(),
            names@.len() == i,
            forall|j: int| 0 <= j < i ==> (#[trigger] names@[j])@ == not_found@[j].name@,
        decreases not_found@.len() - i,
    {
        names.push(not_found[i].name.clone());
        i = i + 1;
    }
    Ok(names)
}

/// The wallet of one run.
pub struct Wallet {
    pub cryptocurrencies: Vec<Ticker>,
    pub stable_coins: Vec<Ticker>,
    pub fiat: Vec<Ticker>,
    pub base_currency: Ticker,
    /// The valuation, in units of `1 / SCALE^2` of the settlement currency.
    pub total_value: u128,
    /// When the wallet was made, in seconds since the Unix epoch.
    pub date: i64,
    pub wallet_type: WalletType,
}

impl Wallet {
    /// The settlement currency as holdings spell it: lower-case.
    pub open spec fn settlement(&self) -> Seq<char> {
        ascii_lower(self.base_currency.name@)
    }

    /// A wallet over loaded holdings, split by asset class in input order;
    /// fiat holdings are valued at one unit of themselves. Fails with
    /// `Unclassified` when some holding has no asset class.
    pub fn new(base_currency: Ticker, wallet_type: WalletType, tickers: Vec<Ticker>, date: i64) -> (r:
        Result<Wallet, WalletError>)
        ensures
            r is Err <==> has_unclassified(models(tickers@)),
            r is Err ==> r->Err_0 == WalletError::Unclassified,
            r is Ok ==> {
                let w = r->Ok_0;
                &&& models(w.cryptocurrencies@) == of_class(models(tickers@), TickerType::CRYPTO)
                &&& models(w.stable_coins@) == of_class(models(tickers@), TickerType::STABLE)
                &&& models(w.fiat@) == fiat_of(models(tickers@))
                &&& w.base_currency == base_currency
                &&& w.total_value == 0
                &&& w.date == date
                &&& w.wallet_type == wallet_type
            },
    {
        let ghost m = models(tickers@);
        let mut cryptocurrencies: Vec<Ticker> = Vec::new();
        let mut stable_coins: Vec<Ticker> = Vec::new();
        let mut fiat: Vec<Ticker> = Vec::new();
        let mut i: usize = 0;
        assert(m.subrange(0, 0) =~= Seq::<TickerModel>::empty());
        assert(models(cryptocurrencies@) =~= Seq::<TickerModel>::empty());
        assert(models(stable_coins@) =~= Seq::<TickerModel>::empty());
        assert(models(fiat@) =~= Seq::<TickerModel>::empty());
        while i < tickers.len()
            invariant
                i <= tickers@.len(),
                m == models(tickers@),
                models(cryptocurrencies@) == of_class(m.subrange(0, i as int), TickerType::CRYPTO),
                models(stable_coins@) == of_class(m.subrange(0, i as int), TickerType::STABLE),
                models(fiat@) == fiat_of(m.subrange(0, i as int)),
                forall|j: int| 0 <= j < i ==> (#[trigger] m[j]).ticker_type != TickerType::NOT_SPECIFIED,
            decreases tickers@.len() - i,
        {
            assert(m.subrange(0, i + 1).drop_last() =~= m.subrange(0, i as int));
            assert(m.subrange(0, i + 1).last() == tickers@[i as int]@);
            let ghost pc = models(cryptocurrencies@);
            let ghost ps = models(stable_coins@);
            let ghost pf = models(fiat@);
            let t = tickers[i].copy();
            match t.ticker_type {
                TickerType::CRYPTO => {
                    cryptocurrencies.push(t);
                    assert(models(cryptocurrencies@) =~= pc.push(t@));
                },
                TickerType::STABLE => {
                    stable_coins.push(t);
                    assert(models(stable_coins@) =~= ps.push(t@));
                },
                TickerType::FIAT => {
                    let mut f = t;
                    f.price = SCALE;
                    fiat.push(f);
                    assert(models(fiat@) =~= pf.push(f@));
                },
                TickerType::NOT_SPECIFIED => {
                    assert(m[i as int].ticker_type == TickerType::NOT_SPECIFIED);
                    return Err(WalletError::Unclassified);
                },
            }
            i = i + 1;
        }
        assert(m.subrange(0, i as int) =~= m);
        Ok(
            Wallet {
                cryptocurrencies,
                stable_coins,
                fiat,
                base_currency,
                total_value: 0,
                date,
                wallet_type,
            },
        )
    }

    /// The currency-pair symbol for converting a fiat holding into the
    /// settlement currency: the settlement currency, the fiat symbol, `=X`.
    pub fn forex_pair(&self, fiat: &String) -> (r: String)
        ensures
            r@ == forex_pair_of(self.base_currency.name@, fiat@),
    {
        let mut r = self.base_currency.name.clone();
        r.append(fiat.as_str());
        r.append("=X");
        r
    }

    /// For each fiat holding, the currency pair whose rate is needed, or
    /// `None` for a holding in the settlement currency itself (compared in
    /// lower case), which needs no rate.
    pub fn forex_requests(&self) -> (r: Vec<Option<String>>)
        ensures
            r@.len() == self.fiat@.len(),
            forall|i: int|
                0 <= i < r@.len() ==> (#[trigger] r@[i] is None <==> self.fiat@[i].name@
                    == self.settlement()),
            forall|i: int|
                0 <= i < r@.len() && r@[i] is Some ==> (#[trigger] r@[i])->0@ == forex_pair_of(
                    self.base_currency.name@,
                    self.fiat@[i].name@,
                ),
    {
        let base = to_lower(self.base_currency.name.as_str());
        let mut r: Vec<Option<String>> = Vec::new();
        let mut i: usize = 0;
        while i < self.fiat.len()
            invariant
                base@ == self.settlement(),
                i <= self.fiat@.len(),
                r@.len() == i,
                forall|j: int|
                    0 <= j < i ==> (#[trigger] r@[j] is None <==> self.fiat@[j].name@
                        == self.settlement()),
                forall|j: int|
                    0 <= j < i && r@[j] is Some ==> (#[trigger] r@[j])->0@ == forex_pair_of(
                        self.base_currency.name@,
                        self.fiat@[j].name@,
                    ),
            decreases self.fiat@.len() - i,
        {
            if self.fiat[i].name == base {
                r.push(None);
            } else {
                let pair = self.forex_pair(&self.fiat[i].name);
                r.push(Some(pair));
            }
            i = i + 1;
        }
        r
    }

    /// Sets the unit price of each fiat holding: one for the settlement
    /// currency itself (compared in lower case), the given rate for any other. `rates` has one entry
    /// per fiat holding, in order; entries for the settlement currency are
    /// ignored. Fails with `RateUnavailable`, changing nothing, when a needed
    /// rate is `None`.
    pub fn apply_forex_rates(&mut self, rates: &Vec<Option<u64>>) -> (r: Result<(), WalletError>)
        requires
            rates@.len() == old(self).fiat@.len(),
        ensures
            final(self).cryptocurrencies == old(self).cryptocurrencies,
            final(self).stable_coins == old(self).stable_coins,
            final(self).base_currency == old(self).base_currency,
            final(self).total_value == old(self).total_value,
            final(self).date == old(self).date,
            final(self).wallet_type == old(self).wallet_type,
            final(self).fiat@.len() == old(self).fiat@.len(),
            r is Ok <==> forall|i: int|
                0 <= i < rates@.len() && old(self).fiat@[i].name@ != old(
                    self,
                ).settlement() ==> (#[trigger] rates@[i]) is Some,
            r is Err ==> r->Err_0 == WalletError::RateUnavailable && final(self).fiat@ == old(
                self,
            ).fiat@,
            r is Ok ==> forall|i: int|
                #![trigger final(self).fiat@[i]]
                0 <= i < old(self).fiat@.len() ==> final(self).fiat@[i]@ == (TickerModel {
                    price: if old(self).fiat@[i].name@ == old(self).settlement() {
                        SCALE as nat
                    } else {
                        rates@[i]->0 as nat
                    },
                    ..old(self).fiat@[i]@
                }),
    {
        let base = to_lower(self.base_currency.name.as_str());
        let mut i: usize = 0;
        while i < rates.len()
            invariant
                base@ == self.settlement(),
                i <= rates@.len(),
                rates@.len() == self.fiat@.len(),
                forall|j: int|
                    0 <= j < i && self.fiat@[j].name@ != self.settlement() ==> (
                    #[trigger] rates@[j]) is Some,
            decreases rates@.len() - i,
        {
            if !(self.fiat[i].name == base) && rates[i].is_none() {
                return Err(WalletError::RateUnavailable);
            }
            i = i + 1;
        }
        let mut fiat: Vec<Ticker> = Vec::new();
        let mut k: usize = 0;
        while k < self.fiat.len()
            invariant
                base@ == self.settlement(),
                k <= self.fiat@.len(),
                rates@.len() == self.fiat@.len(),
                fiat@.len() == k,
                forall|j: int|
                    0 <= j < rates@.len() && self.fiat@[j].name@ != self.settlement() ==> (
                    #[trigger] rates@[j]) is Some,
                forall|j: int|
                    #![trigger fiat@[j]]
                    0 <= j < k ==> fiat@[j]@ == (TickerModel {
                        price: if self.fiat@[j].name@ == self.settlement() {
                            SCALE as nat
                        } else {
                            rates@[j]->0 as nat
                        },
                        ..self.fiat@[j]@
                    }),
            decreases self.fiat@.len() - k,
        {
            let mut t = self.fiat[k].copy();
            if t.name == base {
                t.price = SCALE;
            } else {
                match rates[k] {
                    Some(p) => {
                        t.price = p;
                    },
                    None => {
                        assert(rates@[k as int] is Some);
                    },
                }
            }
            fiat.push(t);
            k = k + 1;
        }
        self.fiat = fiat;
        Ok(())
    }

    /// Computes the valuation of the wallet from the current unit prices:
    /// crypto-currencies and stablecoins when either scope flag is set, fiat
    /// as well under the wider scope. Fails with `Overflow`, changing
    /// nothing, when a sum does not fit a `u128`.
    pub fn calc_total_value(&mut self) -> (r: Result<(), WalletError>)
        ensures
            final(self).cryptocurrencies == old(self).cryptocurrencies,
            final(self).stable_coins == old(self).stable_coins,
            final(self).fiat == old(self).fiat,
            final(self).base_currency == old(self).base_currency,
            final(self).date == old(self).date,
            final(self).wallet_type == old(self).wallet_type,
            valuation(
                old(self).wallet_type,
                models(old(self).cryptocurrencies@),
                models(old(self).stable_coins@),
                models(old(self).fiat@),
            ) <= u128::MAX ==> r is Ok && final(self).total_value == valuation(
                old(self).wallet_type,
                models(old(self).cryptocurrencies@),
                models(old(self).stable_coins@),
                models(old(self).fiat@),
            ),
            valuation(
                old(self).wallet_type,
                models(old(self).cryptocurrencies@),
                models(old(self).stable_coins@),
                models(old(self).fiat@),
            ) > u128::MAX ==> r == Err::<(), WalletError>(WalletError::Overflow)
                && final(self).total_value == old(self).total_value,
    {
        proof {
            lemma_value_nonneg(models(self.cryptocurrencies@));
            lemma_value_nonneg(models(self.stable_coins@));
            lemma_value_nonneg(models(self.fiat@));
        }
        let mut total: u128 = 0;
        if self.wallet_type.crypto_stable_fiat || self.wallet_type.crypto_stable {
            let c = match total_of(&self.cryptocurrencies) {
                Ok(v) => v,
                Err(e) => {
                    return Err(e);
                },
            };
            let s = match total_of(&self.stable_coins) {
                Ok(v) => v,
                Err(e) => {
                    return Err(e);
                },
            };
            total = match c.checked_add(s) {
                Some(v) => v,
                None => {
                    return Err(WalletError::Overflow);
                },
            };
        }
        if self.wallet_type.crypto_stable_fiat {
            let f = match total_of(&self.fiat) {
                Ok(v) => v,
                Err(e) => {
                    return Err(e);
                },
            };
            total = match total.checked_add(f) {
                Some(v) => v,
                None => {
                    return Err(WalletError::Overflow);
                },
            };
        }
        self.total_value = total;
        Ok(())
    }
}

proof fn lemma_value_nonneg(s: Seq<TickerModel>)
    ensures
        value_of(s) >= 0,
    decreases s.len(),
{
    if s.len() > 0 {
        lemma_value_nonneg(s.drop_last());
        assert(s.last().amount * s.last().price >= 0) by (nonlinear_arith);
    }
}

} // verus!
