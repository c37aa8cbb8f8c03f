//! Loading holdings: rows of (symbol, amount text) become classified,
//! de-duplicated tickers.
use vstd::prelude::*;

use crate::amount::{amount_of, parse_amount};
use crate::error::WalletError;
use crate::text::{ascii_lower, same_text, to_lower};
use crate::resolver::{has_name, lemma_has_name_push};
use crate::ticker::{distinct_names, models, Ticker, TickerModel, TickerType};

verus! {

/// The asset class of a (lower-case) symbol: `usd` and `eur` are fiat,
/// `usdc` and `usdt` are stablecoins, everything else is a crypto-currency.
pub open spec fn classify(name: Seq<char>) -> TickerType {
    if name == "usd"@ || name == "eur"@ {
        TickerType::FIAT
    } else if name == "usdc"@ || name == "usdt"@ {
        TickerType::STABLE
    } else {
        TickerType::CRYPTO
    }
}

/// The marker row that records the amount invested; it is not a holding.
pub open spec fn is_sentinel(name: Seq<char>) -> bool {
    name == "total_invested"@
}

/// Adds a holding to a list with distinct symbols: a symbol already listed
/// gets the amount added to its own (its class stays that of the first
/// occurrence), a new symbol is appended. Fails with `Overflow` when the sum
/// does not fit.
pub open spec fn merge(acc: Seq<TickerModel>, t: TickerModel) -> Result<
    Seq<TickerModel>,
    WalletError,
> {
    if exists|i: int| 0 <= i < acc.len() && (#[trigger] acc[i]).name == t.name {
        let i = choose|i: int| 0 <= i < acc.len() && (#[trigger] acc[i]).name == t.name;
        if acc[i].amount + t.amount > u64::MAX {
            Err(WalletError::Overflow)
        } else {
            Ok(acc.update(i, TickerModel { amount: acc[i].amount + t.amount, ..acc[i] }))
        }
    } else {
        Ok(acc.push(t))
    }
}

/// The holding a row denotes once its symbol is lower-cased.
pub open spec fn row_holding(name: Seq<char>, amount: nat) -> TickerModel {
    TickerModel {
        name,
        cmc_id: Seq::empty(),
        ticker_type: classify(name),
        amount,
        price: 0,
    }
}

/// The effect of one row: an empty symbol fails with `MalformedInput`, the
/// marker row is skipped, an amount that is not
/// a decimal fitting a `u64` fails with `MalformedInput`, any other row is
/// merged in.
pub open spec fn add_row(acc: Seq<TickerModel>, row: (String, String)) -> Result<
    Seq<TickerModel>,
    WalletError,
> {
    let name = ascii_lower(row.0@);
    if name.len() == 0 {
        Err(WalletError::MalformedInput)
    } else if is_sentinel(name) {
        Ok(acc)
    } else {
        match amount_of(row.1@) {
            Some(v) => if v <= u64::MAX {
                merge(acc, row_holding(name, v))
            } else {
                Err(WalletError::MalformedInput)
            },
            None => Err(WalletError::MalformedInput),
        }
    }
}

/// The holdings that rows denote, read in order; the first failing row
/// decides the error.
pub open spec fn holdings_of(rows: Seq<(String, String)>) -> Result<
    Seq<TickerModel>,
    WalletError,
>
    decreases rows.len(),
{
    if rows.len() == 0 {
        Ok(Seq::empty())
    } else {
        match holdings_of(rows.drop_last()) {
            Ok(acc) => add_row(acc, rows.last()),
            Err(e) => Err(e),
        }
    }
}

/// The asset class of a lower-case symbol.
pub fn classify_symbol(name: &str) -> (r: TickerType)
    ensures
        r == classify(name@),
{
    if same_text(name, "usd") || same_text(name, "eur") {
        TickerType::FIAT
    } else if same_text(name, "usdc") || same_text(name, "usdt") {
        TickerType::STABLE
    } else {
        TickerType::CRYPTO
    }
}

/// Reads holdings from (symbol, amount) rows: symbols are lower-cased and
/// classified, a row with an empty symbol is malformed, the marker row
/// `total_invested` is skipped, and rows of the same symbol are merged into
/// one holding whose amount is their sum.
pub fn load_holdings(rows: &Vec<(String, String)>) -> (r: Result<Vec<Ticker>, WalletError>)
    ensures
        match holdings_of(rows@) {
            Ok(hs) => r is Ok && models(r->Ok_0@) == hs && distinct_names(r->Ok_0@),
            Err(e) => r == Err::<Vec<Ticker>, WalletError>(e),
        },
{
    let mut data: Vec<Ticker> = Vec::new();
    let mut i: usize = 0;
    assert(rows@.subrange(0, 0) =~= Seq::<(String, String)>::empty());
    assert(models(data@) =~= Seq::<TickerModel>::empty());
    while i < rows.len()
        invariant
            i <= rows@.len(),
            holdings_of(rows@.subrange(0, i as int)) == Ok::<Seq<TickerModel>, WalletError>(
                models(data@),
            ),
            distinct_names(data@),
        decreases rows@.len() - i,
    {
        let ghost acc = models(data@);
        assert(rows@.subrange(0, i + 1).drop_last() =~= rows@.subrange(0, i as int));
        assert(rows@.subrange(0, i + 1).last() == rows@[i as int]);
        let name = to_lower(rows[i].0.as_str());
        assert(holdings_of(rows@.subrange(0, i + 1)) == add_row(acc, rows@[i as int]));
        if name.unicode_len() == 0 {
            proof {
                lemma_error_sticks(rows@, i + 1);
            }
            return Err(WalletError::MalformedInput);
        }
        if !same_text(name.as_str(), "total_invested") {
            let amount = match parse_amount(rows[i].1.as_str()) {
                Some(a) => a,
                None => {
                    proof {
                        lemma_error_sticks(rows@, i + 1);
                    }
                    return Err(WalletError::MalformedInput);
                },
            };
            let ghost t = row_holding(name@, amount as nat);
            let mut j: usize = 0;
            let mut found = false;
            while j < data.len() && !found
                invariant
                    j <= data@.len(),
                    found ==> j < data@.len() && data@[j as int].name@ == name@,
                    forall|k: int| 0 <= k < j ==> data@[k].name@ != name@,
                decreases data@.len() - j + (if found {
                    0int
                } else {
                    1int
                }),
            {
                if data[j].name == name {
                    found = true;
                } else {
                    j = j + 1;
                }
            }
            if found {
                assert(acc[j as int] == data@[j as int]@);
                assert(acc[j as int].name == t.name);
                assert(exists|m: int| 0 <= m < acc.len() && (#[trigger] acc[m]).name == t.name);
                proof {
                    let m = choose|m: int| 0 <= m < acc.len() && (#[trigger] acc[m]).name == t.name;
                    assert(m == j) by {
                        if m != j as int {
                            assert(data@[m].name@ == data@[j as int].name@);
                        }
                    }
                }
                let sum = match data[j].amount.checked_add(amount) {
                    Some(s) => s,
                    None => {
                        proof {
                            lemma_error_sticks(rows@, i + 1);
                        }
                        return Err(WalletError::Overflow);
                    },
                };
                let mut u = data[j].copy();
                u.amount = sum;
                data.set(j, u);
                assert(models(data@) =~= acc.update(
                    j as int,
                    TickerModel { amount: acc[j as int].amount + t.amount, ..acc[j as int] },
                ));
            } else {
                assert(!exists|m: int| 0 <= m < acc.len() && (#[trigger] acc[m]).name == t.name)
                    by {
                    assert forall|m: int| 0 <= m < acc.len() implies (#[trigger] acc[m]).name
                        != t.name by {
                        assert(acc[m].name == data@[m].name@);
                    }
                }
                let ty = classify_symbol(name.as_str());
                let h = Ticker::create_ticker_WO_cmc_id(name, amount, ty);
                data.push(h);
                assert(models(data@) =~= acc.push(t));
            }
        }
        i = i + 1;
    }
    assert(rows@.subrange(0, rows@.len() as int) =~= rows@);
    Ok(data)
}

proof fn lemma_error_sticks(rows: Seq<(String, String)>, i: int)
    requires
        0 <= i <= rows.len(),
        holdings_of(rows.subrange(0, i)) is Err,
    ensures
        holdings_of(rows) == holdings_of(rows.subrange(0, i)),
    decreases rows.len() - i,
{
    if i == rows.len() {
        assert(rows.subrange(0, i) =~= rows);
    } else {
        assert(rows.subrange(0, i + 1).drop_last() =~= rows.subrange(0, i));
        lemma_error_sticks(rows, i + 1);
    }
}

/// A row counts toward symbol `x`: its lower-cased symbol is `x`, a
/// non-empty symbol other than the marker.
pub open spec fn row_counts(row: (String, String), x: Seq<char>) -> bool {
    ascii_lower(row.0@) == x && x.len() > 0 && !is_sentinel(x)
}

/// The sum of the amounts of the rows that count toward symbol `x`.
pub open spec fn amount_sum(rows: Seq<(String, String)>, x: Seq<char>) -> nat
    decreases rows.len(),
{
    if rows.len() == 0 {
        0
    } else {
        amount_sum(rows.drop_last(), x) + if row_counts(rows.last(), x) {
            amount_of(rows.last().1@)->0
        } else {
            0
        }
    }
}

/// Some row counts toward symbol `x`.
pub open spec fn listed(rows: Seq<(String, String)>, x: Seq<char>) -> bool {
    exists|i: int| 0 <= i < rows.len() && row_counts(#[trigger] rows[i], x)
}

/// No two holdings share a symbol.
pub open spec fn distinct_models(hs: Seq<TickerModel>) -> bool {
    forall|a: int, b: int| 0 <= a < b < hs.len() ==> hs[a].name != hs[b].name
}

proof fn lemma_listed_split(rows: Seq<(String, String)>, x: Seq<char>)
    requires
        rows.len() > 0,
    ensures
        listed(rows, x) <==> listed(rows.drop_last(), x) || row_counts(rows.last(), x),
{
    let prev = rows.drop_last();
    if listed(rows, x) {
        let i = choose|i: int| 0 <= i < rows.len() && row_counts(#[trigger] rows[i], x);
        if i < prev.len() {
            assert(prev[i] == rows[i]);
        }
    }
    if listed(prev, x) {
        let i = choose|i: int| 0 <= i < prev.len() && row_counts(#[trigger] prev[i], x);
        assert(prev[i] == rows[i]);
    }
    if row_counts(rows.last(), x) {
        assert(rows[rows.len() - 1] == rows.last());
    }
}

/// Merging on load, in general: the holdings that rows give hold each symbol
/// at most once; a symbol is held exactly when some row counts toward it,
/// and its holding's amount is the sum of the amounts of all those rows.
pub proof fn lemma_holdings_sum(rows: Seq<(String, String)>, x: Seq<char>)
    requires
        holdings_of(rows) is Ok,
    ensures
        distinct_models(holdings_of(rows)->Ok_0),
        has_name(holdings_of(rows)->Ok_0, x) <==> listed(rows, x),
        !listed(rows, x) ==> amount_sum(rows, x) == 0,
        forall|i: int|
            0 <= i < holdings_of(rows)->Ok_0.len() && (#[trigger] holdings_of(rows)->Ok_0[i]).name
                == x ==> holdings_of(rows)->Ok_0[i].amount == amount_sum(rows, x),
    decreases rows.len(),
{
    if rows.len() > 0 {
        let prev_rows = rows.drop_last();
        let row = rows.last();
        lemma_holdings_sum(prev_rows, x);
        lemma_listed_split(rows, x);
        let acc = holdings_of(prev_rows)->Ok_0;
        let hs = holdings_of(rows)->Ok_0;
        let name = ascii_lower(row.0@);
        if !is_sentinel(name) {
            let v = amount_of(row.1@)->0;
            let t = row_holding(name, v);
            if exists|i: int| 0 <= i < acc.len() && (#[trigger] acc[i]).name == t.name {
                let k = choose|i: int| 0 <= i < acc.len() && (#[trigger] acc[i]).name == t.name;
                assert(hs == acc.update(k, TickerModel { amount: acc[k].amount + t.amount, ..acc[k] }));
                assert forall|a: int| 0 <= a < hs.len() implies (#[trigger] hs[a]).name == acc[a].name by {}
                if has_name(hs, x) {
                    let a = choose|a: int| 0 <= a < hs.len() && (#[trigger] hs[a]).name == x;
                    assert(acc[a].name == x);
                }
                if has_name(acc, x) {
                    let a = choose|a: int| 0 <= a < acc.len() && (#[trigger] acc[a]).name == x;
                    assert(hs[a].name == x);
                }
                if name == x {
                    assert(has_name(acc, x));
                }
            } else {
                assert(hs == acc.push(t));
                lemma_has_name_push(acc, t, x);
                assert forall|a: int, b: int| 0 <= a < b < hs.len() implies hs[a].name
                    != hs[b].name by {
                    if b == acc.len() {
                        assert(hs[a] == acc[a]);
                    } else {
                        assert(hs[a] == acc[a] && hs[b] == acc[b]);
                    }
                }
                assert forall|i: int|
                    0 <= i < hs.len() && (#[trigger] hs[i]).name == x implies hs[i].amount
                    == amount_sum(rows, x) by {
                    if i < acc.len() {
                        assert(hs[i] == acc[i]);
                    }
                }
            }
        }
    }
}

/// Merging on load: two rows of the same non-empty symbol (up to case),
/// neither of them the marker row, with amounts `q1` and `q2` whose sum fits, give
/// exactly one holding, whose amount is `q1 + q2`.
pub proof fn lemma_duplicate_rows_merge(row1: (String, String), row2: (String, String))
    requires
        ascii_lower(row1.0@) == ascii_lower(row2.0@),
        row1.0@.len() > 0,
        !is_sentinel(ascii_lower(row1.0@)),
        amount_of(row1.1@) is Some,
        amount_of(row2.1@) is Some,
        amount_of(row1.1@)->0 + amount_of(row2.1@)->0 <= u64::MAX,
    ensures
        holdings_of(seq![row1, row2]) == Ok::<Seq<TickerModel>, WalletError>(
            seq![
                row_holding(
                    ascii_lower(row1.0@),
                    amount_of(row1.1@)->0 + amount_of(row2.1@)->0,
                ),
            ],
        ),
{
    let rows = seq![row1, row2];
    let name = ascii_lower(row1.0@);
    let q1 = amount_of(row1.1@)->0;
    let q2 = amount_of(row2.1@)->0;
    let h1 = row_holding(name, q1);
    let h2 = row_holding(name, q2);
    let empty = Seq::<TickerModel>::empty();
    assert(rows.drop_last() =~= seq![row1]);
    assert(seq![row1].drop_last() =~= Seq::<(String, String)>::empty());
    assert(rows.last() == row2);
    assert(seq![row1].last() == row1);
    assert(holdings_of(Seq::<(String, String)>::empty()) == Ok::<Seq<TickerModel>, WalletError>(
        empty,
    ));
    assert(merge(empty, h1) == Ok::<Seq<TickerModel>, WalletError>(empty.push(h1)));
    let acc = seq![h1];
    assert(empty.push(h1) =~= acc);
    assert(add_row(empty, row1) == Ok::<Seq<TickerModel>, WalletError>(acc));
    assert(holdings_of(seq![row1]) == Ok::<Seq<TickerModel>, WalletError>(acc));
    assert(acc[0].name == h2.name);
    let m = choose|m: int| 0 <= m < acc.len() && (#[trigger] acc[m]).name == h2.name;
    assert(m == 0);
    assert(acc.update(0, TickerModel { amount: q1 + q2, ..acc[0] }) =~= seq![
        row_holding(name, q1 + q2),
    ]);
    assert(add_row(acc, row2) == merge(acc, h2));
}

} // verus!
