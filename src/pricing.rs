//! Prices: the batched query for resolved holdings, and attaching the
//! quotes of the response to them.
use vstd::prelude::*;

use crate::error::WalletError;
use crate::resolver::CmcApi;
use crate::ticker::{Ticker, TickerModel};

verus! {

/// One quote of a pricing response: a provider identifier and its unit
/// price in the settlement currency, in units of `1 / SCALE`.
pub struct Quote {
    pub id: String,
    pub price: u64,
}

/// The price of the first quote for identifier `id`.
pub open spec fn quoted_price(quotes: Seq<Quote>, id: Seq<char>) -> Option<u64>
    decreases quotes.len(),
{
    if quotes.len() == 0 {
        None
    } else if quotes[0].id@ == id {
        Some(quotes[0].price)
    } else {
        quoted_price(quotes.drop_first(), id)
    }
}

/// The identifiers of holdings, joined by commas, in order.
pub open spec fn joined_ids(s: Seq<Ticker>) -> Seq<char>
    decreases s.len(),
{
    if s.len() == 0 {
        Seq::empty()
    } else if s.len() == 1 {
        s[0].cmc_id@
    } else {
        joined_ids(s.drop_last()) + ","@ + s.last().cmc_id@
    }
}

proof fn lemma_quoted_price(quotes: Seq<Quote>, id: Seq<char>, i: int)
    requires
        0 <= i <= quotes.len(),
        forall|j: int| 0 <= j < i ==> quotes[j].id@ != id,
    ensures
        i == quotes.len() ==> quoted_price(quotes, id) is None,
        i < quotes.len() && quotes[i].id@ == id ==> quoted_price(quotes, id) == Some(
            quotes[i].price,
        ),
    decreases i,
{
    if i > 0 {
        lemma_quoted_price(quotes.drop_first(), id, i - 1);
    }
}

/// The price of the first quote for identifier `id`.
fn find_quote(quotes: &Vec<Quote>, id: &String) -> (r: Option<u64>)
    ensures
        r == quoted_price(quotes@, id@),
{
    let mut i: usize = 0;
    while i < quotes.len()
        invariant
            i <= quotes@.len(),
            forall|j: int| 0 <= j < i ==> quotes@[j].id@ != id@,
        decreases quotes@.len() - i,
    {
        if quotes[i].id == *id {
            proof {
                lemma_quoted_price(quotes@, id@, i as int);
            }
            return Some(quotes[i].price);
        }
        i = i + 1;
    }
    proof {
        lemma_quoted_price(quotes@, id@, i as int);
    }
    None
}

impl CmcApi {
    /// The parameters of the batched price query for `symbols`: all their
    /// identifiers joined by commas, and the settlement currency.
    pub fn price_query(&self, symbols: &Vec<Ticker>) -> (r: (String, String))
        ensures
            r.0@ == joined_ids(symbols@),
            r.1@ == self.settings.currency@,
    {
        let mut ids = String::new();
        let mut i: usize = 0;
        while i < symbols.len()
            invariant
                i <= symbols@.len(),
                ids@ == joined_ids(symbols@.subrange(0, i as int)),
            decreases symbols@.len() - i,
        {
            let ghost prev = symbols@.subrange(0, i as int);
            let ghost cur = symbols@.subrange(0, i + 1);
            assert(cur.drop_last() =~= prev);
            assert(cur.last() == symbols@[i as int]);
            if i > 0 {
                ids.append(",");
            } else {
                assert(ids@ =~= Seq::<char>::empty());
                assert(cur[0] == symbols@[0]);
            }
            ids.append(symbols[i].cmc_id.as_str());
            i = i + 1;
        }
        assert(symbols@.subrange(0, symbols@.len() as int) =~= symbols@);
        (ids, self.settings.currency.clone())
    }

    /// Attaches to each holding the price of the first quote for its
    /// identifier. Fails with `QuoteMissing` when some holding's identifier
    /// has no quote.
    pub fn get_price_of(&self, symbols: Vec<Ticker>, quotes: &Vec<Quote>) -> (r: Result<
        Vec<Ticker>,
        WalletError,
    >)
        ensures
            r is Ok <==> forall|i: int|
                0 <= i < symbols@.len() ==> (#[trigger] quoted_price(
                    quotes@,
                    symbols@[i].cmc_id@,
                )) is Some,
            r is Err ==> r->Err_0 == WalletError::QuoteMissing,
            r is Ok ==> r->Ok_0@.len() == symbols@.len() && forall|i: int|
                0 <= i < symbols@.len() ==> (#[trigger] r->Ok_0@[i])@ == (TickerModel {
                    price: quoted_price(quotes@, symbols@[i].cmc_id@)->0 as nat,
                    ..symbols@[i]@
                }),
    {
        let mut to_return: Vec<Ticker> = Vec::new();
        let mut i: usize = 0;
        while i < symbols.len()
            invariant
                i <= symbols@.len(),
                to_return@.len() == i,
                forall|j: int|
                    0 <= j < i ==> (#[trigger] quoted_price(quotes@, symbols@[j].cmc_id@)) is Some,
                forall|j: int|
                    0 <= j < i ==> (#[trigger] to_return@[j])@ == (TickerModel {
                        price: quoted_price(quotes@, symbols@[j].cmc_id@)->0 as nat,
                        ..symbols@[j]@
                    }),
            decreases symbols@.len() - i,
        {
            match find_quote(quotes, &symbols[i].cmc_id) {
                Some(p) => {
                    let mut t = symbols[i].copy();
                    t.price = p;
                    to_return.push(t);
                },
                None => {
                    return Err(WalletError::QuoteMissing);
                },
            }
            i = i + 1;
        }
        Ok(to_return)
    }
}

} // verus!
