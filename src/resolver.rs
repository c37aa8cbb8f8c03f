//! Symbol resolution: holdings are matched first against the resolution
//! cache, then against the provider directory; new matches are appended to
//! the cache.
use vstd::prelude::*;

use crate::error::WalletError;
use crate::settings::Settings;
use crate::text::{ascii_lower, same_text, to_lower};
use crate::ticker::{distinct_names, models, Ticker, TickerModel, TickerType};

verus! {

/// One listing of the provider directory: a symbol, in any case, and the
/// provider's identifier for it.
pub struct DirectoryEntry {
    pub symbol: String,
    pub id: String,
}

/// The first identifier paired with `key`, in sequence order.
pub open spec fn first_id(pairs: Seq<(Seq<char>, Seq<char>)>, key: Seq<char>) -> Option<Seq<char>>
    decreases pairs.len(),
{
    if pairs.len() == 0 {
        None
    } else if pairs[0].0 == key {
        Some(pairs[0].1)
    } else {
        first_id(pairs.drop_first(), key)
    }
}

/// The cache as (symbol, identifier) pairs.
pub open spec fn cache_pairs(cache: Seq<Ticker>) -> Seq<(Seq<char>, Seq<char>)> {
    cache.map_values(|t: Ticker| (t.name@, t.cmc_id@))
}

/// The directory as (lower-case symbol, identifier) pairs.
pub open spec fn dir_pairs(dir: Seq<DirectoryEntry>) -> Seq<(Seq<char>, Seq<char>)> {
    dir.map_values(|e: DirectoryEntry| (ascii_lower(e.symbol@), e.id@))
}

/// The identifier the cache holds for a symbol.
pub open spec fn cached_id(cache: Seq<Ticker>, name: Seq<char>) -> Option<Seq<char>> {
    first_id(cache_pairs(cache), name)
}

/// The identifier of the first directory listing whose symbol equals `name`
/// when case is ignored.
pub open spec fn listed_id(dir: Seq<DirectoryEntry>, name: Seq<char>) -> Option<Seq<char>> {
    first_id(dir_pairs(dir), ascii_lower(name))
}

/// The identifier a holding resolves to: the cached one, else the listed one.
pub open spec fn lookup(cache: Seq<Ticker>, dir: Seq<DirectoryEntry>, name: Seq<char>) -> Option<
    Seq<char>,
> {
    match cached_id(cache, name) {
        Some(id) => Some(id),
        None => listed_id(dir, name),
    }
}

/// A holding with its provider identifier filled in.
pub open spec fn with_id(h: TickerModel, id: Seq<char>) -> TickerModel {
    TickerModel { cmc_id: id, ..h }
}

/// The cache entry recorded for a newly resolved symbol.
pub open spec fn cache_entry(name: Seq<char>, id: Seq<char>) -> TickerModel {
    TickerModel { name, cmc_id: id, ticker_type: TickerType::CRYPTO, amount: 0, price: 0 }
}

/// The holdings that resolve, in input order, each with its identifier and
/// its own amount.
pub open spec fn resolved_of(
    input: Seq<TickerModel>,
    cache: Seq<Ticker>,
    dir: Seq<DirectoryEntry>,
) -> Seq<TickerModel>
    decreases input.len(),
{
    if input.len() == 0 {
        Seq::empty()
    } else {
        let prev = resolved_of(input.drop_last(), cache, dir);
        match lookup(cache, dir, input.last().name) {
            Some(id) => prev.push(with_id(input.last(), id)),
            None => prev,
        }
    }
}

/// The holdings that resolve neither through the cache nor the directory,
/// in input order.
pub open spec fn unresolved_of(
    input: Seq<TickerModel>,
    cache: Seq<Ticker>,
    dir: Seq<DirectoryEntry>,
) -> Seq<TickerModel>
    decreases input.len(),
{
    if input.len() == 0 {
        Seq::empty()
    } else {
        let prev = unresolved_of(input.drop_last(), cache, dir);
        match lookup(cache, dir, input.last().name) {
            Some(_) => prev,
            None => prev.push(input.last()),
        }
    }
}

/// The cache entries discovered through the directory, in input order.
pub open spec fn discovered_of(
    input: Seq<TickerModel>,
    cache: Seq<Ticker>,
    dir: Seq<DirectoryEntry>,
) -> Seq<TickerModel>
    decreases input.len(),
{
    if input.len() == 0 {
        Seq::empty()
    } else {
        let prev = discovered_of(input.drop_last(), cache, dir);
        let name = input.last().name;
        if cached_id(cache, name) is None && listed_id(dir, name) is Some {
            prev.push(cache_entry(name, listed_id(dir, name)->0))
        } else {
            prev
        }
    }
}

/// Some holding of the batch misses the cache.
pub open spec fn needs_directory(input: Seq<TickerModel>, cache: Seq<Ticker>) -> bool {
    exists|i: int| 0 <= i < input.len() && (#[trigger] cached_id(cache, input[i].name)) is None
}

/// The view of an optional directory: an absent one lists nothing.
pub open spec fn dir_seq(directory: Option<&Vec<DirectoryEntry>>) -> Seq<DirectoryEntry> {
    match directory {
        Some(d) => d@,
        None => Seq::empty(),
    }
}

/// Some holding of `s` has the symbol `x`.
pub open spec fn has_name(s: Seq<TickerModel>, x: Seq<char>) -> bool {
    exists|i: int| 0 <= i < s.len() && (#[trigger] s[i]).name == x
}

/// Adding a holding adds exactly its symbol to the symbols held.
pub proof fn lemma_has_name_push(s: Seq<TickerModel>, t: TickerModel, x: Seq<char>)
    ensures
        has_name(s.push(t), x) <==> has_name(s, x) || t.name == x,
{
    if has_name(s, x) {
        let i = choose|i: int| 0 <= i < s.len() && (#[trigger] s[i]).name == x;
        assert(s.push(t)[i] == s[i]);
    }
    if t.name == x {
        assert(s.push(t)[s.len() as int] == t);
    }
    if has_name(s.push(t), x) {
        let i = choose|i: int| 0 <= i < s.push(t).len() && (#[trigger] s.push(t)[i]).name == x;
        if i < s.len() {
            assert(s[i] == s.push(t)[i]);
        }
    }
}

proof fn lemma_has_name_split(s: Seq<TickerModel>, x: Seq<char>)
    requires
        s.len() > 0,
    ensures
        has_name(s, x) <==> has_name(s.drop_last(), x) || s.last().name == x,
{
    assert(s =~= s.drop_last().push(s.last()));
    lemma_has_name_push(s.drop_last(), s.last(), x);
}

/// Which symbols come out resolved and which unresolved: a symbol of the
/// batch is resolved exactly when the cache or the directory knows it.
proof fn lemma_partition_names(
    input: Seq<TickerModel>,
    cache: Seq<Ticker>,
    dir: Seq<DirectoryEntry>,
    x: Seq<char>,
)
    ensures
        has_name(resolved_of(input, cache, dir), x) <==> has_name(input, x) && lookup(
            cache,
            dir,
            x,
        ) is Some,
        has_name(unresolved_of(input, cache, dir), x) <==> has_name(input, x) && lookup(
            cache,
            dir,
            x,
        ) is None,
    decreases input.len(),
{
    if input.len() == 0 {
    } else {
        let prev = input.drop_last();
        let h = input.last();
        lemma_partition_names(prev, cache, dir, x);
        lemma_has_name_split(input, x);
        match lookup(cache, dir, h.name) {
            Some(id) => {
                lemma_has_name_push(resolved_of(prev, cache, dir), with_id(h, id), x);
            },
            None => {
                lemma_has_name_push(unresolved_of(prev, cache, dir), h, x);
            },
        }
    }
}

proof fn lemma_unresolved_filter(
    p: Seq<TickerModel>,
    cache: Seq<Ticker>,
    dir: Seq<DirectoryEntry>,
    pred: spec_fn(TickerModel) -> bool,
)
    requires
        forall|i: int|
            0 <= i < p.len() ==> pred(#[trigger] p[i]) == (lookup(cache, dir, p[i].name) is None),
    ensures
        unresolved_of(p, cache, dir) == p.filter(pred),
    decreases p.len(),
{
    reveal(Seq::filter);
    if p.len() == 0 {
        assert(p =~= Seq::<TickerModel>::empty());
    } else {
        let prev = p.drop_last();
        assert(p.last() == p[p.len() - 1]);
        assert forall|i: int|
            0 <= i < prev.len() implies pred(#[trigger] prev[i]) == (lookup(
            cache,
            dir,
            prev[i].name,
        ) is None) by {
            assert(prev[i] == p[i]);
        }
        lemma_unresolved_filter(prev, cache, dir, pred);
    }
}


/// Partition completeness: the symbols of the resolved and of the
/// unresolved holdings together are exactly the symbols of the batch, no
/// symbol is in both, and the unresolved holdings are exactly the holdings
/// of the batch whose symbol is not among the resolved ones, in order.
pub proof fn lemma_partition_complete(
    input: Seq<TickerModel>,
    cache: Seq<Ticker>,
    dir: Seq<DirectoryEntry>,
)
    ensures
        forall|x: Seq<char>|
            #![trigger has_name(input, x)]
            has_name(input, x) <==> has_name(resolved_of(input, cache, dir), x) || has_name(
                unresolved_of(input, cache, dir),
                x,
            ),
        forall|x: Seq<char>|
            #![trigger has_name(resolved_of(input, cache, dir), x)]
            !(has_name(resolved_of(input, cache, dir), x) && has_name(
                unresolved_of(input, cache, dir),
                x,
            )),
        unresolved_of(input, cache, dir) == input.filter(
            |h: TickerModel| !has_name(resolved_of(input, cache, dir), h.name),
        ),
{
    let pred = |h: TickerModel| !has_name(resolved_of(input, cache, dir), h.name);
    assert forall|i: int|
        0 <= i < input.len() implies pred(#[trigger] input[i]) == (lookup(
        cache,
        dir,
        input[i].name,
    ) is None) by {
        lemma_partition_names(input, cache, dir, input[i].name);
        assert(has_name(input, input[i].name));
    }
    lemma_unresolved_filter(input, cache, dir, pred);
    assert forall|x: Seq<char>|
        has_name(input, x) <==> has_name(resolved_of(input, cache, dir), x) || has_name(
            unresolved_of(input, cache, dir),
            x,
        ) by {
        lemma_partition_names(input, cache, dir, x);
    }
    assert forall|x: Seq<char>|
        !(has_name(resolved_of(input, cache, dir), x) && has_name(
            unresolved_of(input, cache, dir),
            x,
        )) by {
        lemma_partition_names(input, cache, dir, x);
    }
}

/// The (symbol, identifier) pairs of cache entries given by their models.
pub open spec fn model_pairs(s: Seq<TickerModel>) -> Seq<(Seq<char>, Seq<char>)> {
    s.map_values(|m: TickerModel| (m.name, m.cmc_id))
}

proof fn lemma_first_id_append(
    p: Seq<(Seq<char>, Seq<char>)>,
    q: Seq<(Seq<char>, Seq<char>)>,
    key: Seq<char>,
)
    ensures
        first_id(p + q, key) == (match first_id(p, key) {
            Some(v) => Some(v),
            None => first_id(q, key),
        }),
    decreases p.len(),
{
    if p.len() == 0 {
        assert(p + q =~= q);
    } else {
        assert((p + q).drop_first() =~= p.drop_first() + q);
        lemma_first_id_append(p.drop_first(), q, key);
    }
}

proof fn lemma_first_id_some(pairs: Seq<(Seq<char>, Seq<char>)>, key: Seq<char>)
    requires
        first_id(pairs, key) is Some,
    ensures
        exists|k: int| 0 <= k < pairs.len() && (#[trigger] pairs[k]).0 == key,
    decreases pairs.len(),
{
    if pairs[0].0 != key {
        lemma_first_id_some(pairs.drop_first(), key);
        let k = choose|k: int|
            0 <= k < pairs.drop_first().len() && (#[trigger] pairs.drop_first()[k]).0 == key;
        assert(pairs[k + 1] == pairs.drop_first()[k]);
    }
}

proof fn lemma_discovered_names(
    input: Seq<TickerModel>,
    cache: Seq<Ticker>,
    dir: Seq<DirectoryEntry>,
    key: Seq<char>,
)
    requires
        has_name(discovered_of(input, cache, dir), key),
    ensures
        has_name(input, key),
    decreases input.len(),
{
    let prev_in = input.drop_last();
    let prev = discovered_of(prev_in, cache, dir);
    let last = input.last();
    lemma_has_name_split(input, key);
    if cached_id(cache, last.name) is None && listed_id(dir, last.name) is Some {
        lemma_has_name_push(prev, cache_entry(last.name, listed_id(dir, last.name)->0), key);
    }
    if has_name(prev, key) {
        lemma_discovered_names(prev_in, cache, dir, key);
    }
}

/// What the cache extended by a run holds for a symbol of that run's batch:
/// the identifier the run resolved it to.
proof fn lemma_extended_cache(
    input: Seq<TickerModel>,
    cache: Seq<Ticker>,
    dir: Seq<DirectoryEntry>,
    i: int,
)
    requires
        0 <= i < input.len(),
        forall|a: int, b: int| 0 <= a < b < input.len() ==> input[a].name != input[b].name,
        cached_id(cache, input[i].name) is None,
    ensures
        first_id(model_pairs(discovered_of(input, cache, dir)), input[i].name) == listed_id(
            dir,
            input[i].name,
        ),
    decreases input.len(),
{
    let x = input[i].name;
    let prev_in = input.drop_last();
    let prev = discovered_of(prev_in, cache, dir);
    let last = input.last();
    let cur = discovered_of(input, cache, dir);
    if cached_id(cache, last.name) is None && listed_id(dir, last.name) is Some {
        assert(model_pairs(cur) =~= model_pairs(prev) + seq![
            (last.name, listed_id(dir, last.name)->0),
        ]);
        lemma_first_id_append(
            model_pairs(prev),
            seq![(last.name, listed_id(dir, last.name)->0)],
            x,
        );
    } else {
        assert(model_pairs(cur) =~= model_pairs(prev));
    }
    if i < input.len() - 1 {
        assert(prev_in[i] == input[i]);
        lemma_extended_cache(prev_in, cache, dir, i);
        let q = seq![(last.name, listed_id(dir, last.name)->0)];
        assert(first_id(q.drop_first(), x) is None);
    } else {
        if first_id(model_pairs(prev), x) is Some {
            lemma_first_id_some(model_pairs(prev), x);
            let k = choose|k: int|
                0 <= k < model_pairs(prev).len() && (#[trigger] model_pairs(prev)[k]).0 == x;
            assert(prev[k].name == x);
            lemma_discovered_names(prev_in, cache, dir, x);
            let j = choose|j: int| 0 <= j < prev_in.len() && (#[trigger] prev_in[j]).name == x;
            assert(input[j] == prev_in[j]);
        }
        let q = seq![(last.name, listed_id(dir, last.name)->0)];
        assert(first_id(q.drop_first(), x) is None);
    }
}

proof fn lemma_same_lookup(
    input: Seq<TickerModel>,
    cache1: Seq<Ticker>,
    dir1: Seq<DirectoryEntry>,
    cache2: Seq<Ticker>,
    dir2: Seq<DirectoryEntry>,
)
    requires
        forall|i: int|
            0 <= i < input.len() ==> lookup(cache1, dir1, (#[trigger] input[i]).name) == lookup(
                cache2,
                dir2,
                input[i].name,
            ),
    ensures
        resolved_of(input, cache1, dir1) == resolved_of(input, cache2, dir2),
        unresolved_of(input, cache1, dir1) == unresolved_of(input, cache2, dir2),
    decreases input.len(),
{
    if input.len() > 0 {
        let prev = input.drop_last();
        assert(input.last() == input[input.len() - 1]);
        assert forall|i: int|
            0 <= i < prev.len() implies lookup(cache1, dir1, (#[trigger] prev[i]).name) == lookup(
            cache2,
            dir2,
            prev[i].name,
        ) by {
            assert(prev[i] == input[i]);
        }
        lemma_same_lookup(prev, cache1, dir1, cache2, dir2);
    }
}

proof fn lemma_no_discovery(input: Seq<TickerModel>, cache: Seq<Ticker>, dir: Seq<DirectoryEntry>)
    requires
        forall|i: int|
            0 <= i < input.len() ==> (#[trigger] cached_id(cache, input[i].name)) is Some,
    ensures
        discovered_of(input, cache, dir) == Seq::<TickerModel>::empty(),
    decreases input.len(),
{
    if input.len() > 0 {
        let prev = input.drop_last();
        assert(input.last() == input[input.len() - 1]);
        assert forall|i: int|
            0 <= i < prev.len() implies (#[trigger] cached_id(cache, prev[i].name)) is Some by {
            assert(prev[i] == input[i]);
        }
        lemma_no_discovery(prev, cache, dir);
    }
}

/// Cache idempotence: after a run that resolved every holding of a batch
/// (with distinct symbols), the cache that run left behind resolves the same
/// batch without the directory (whatever directory is given), to the same
/// identifiers, leaves nothing unresolved and records no new entry, so the
/// cache after a second run equals the one after the first.
pub proof fn lemma_cache_idempotent(
    input: Seq<TickerModel>,
    cache: Seq<Ticker>,
    dir: Seq<DirectoryEntry>,
    cache1: Seq<Ticker>,
    dir2: Seq<DirectoryEntry>,
)
    requires
        forall|a: int, b: int| 0 <= a < b < input.len() ==> input[a].name != input[b].name,
        forall|i: int|
            0 <= i < input.len() ==> (#[trigger] lookup(cache, dir, input[i].name)) is Some,
        models(cache1) == models(cache) + discovered_of(input, cache, dir),
    ensures
        !needs_directory(input, cache1),
        resolved_of(input, cache1, dir2) == resolved_of(input, cache, dir),
        unresolved_of(input, cache1, dir2) == Seq::<TickerModel>::empty(),
        models(cache1) + discovered_of(input, cache1, dir2) == models(cache1),
{
    let disc = discovered_of(input, cache, dir);
    assert(cache1.len() == models(cache1).len());
    assert(cache_pairs(cache1) =~= cache_pairs(cache) + model_pairs(disc)) by {
        assert forall|k: int| 0 <= k < cache1.len() implies #[trigger] cache_pairs(cache1)[k] == (
        cache_pairs(cache) + model_pairs(disc))[k] by {
            assert(models(cache1)[k] == cache1[k]@);
            if k < cache.len() {
                assert(models(cache)[k] == cache[k]@);
            } else {
                assert(models(cache1)[k] == disc[k - cache.len()]);
            }
        }
    }
    assert forall|i: int| 0 <= i < input.len() implies #[trigger] cached_id(
        cache1,
        input[i].name,
    ) == lookup(cache, dir, input[i].name) by {
        let x = input[i].name;
        lemma_first_id_append(cache_pairs(cache), model_pairs(disc), x);
        if cached_id(cache, x) is None {
            lemma_extended_cache(input, cache, dir, i);
        }
    }
    assert forall|i: int|
        0 <= i < input.len() implies lookup(cache1, dir2, (#[trigger] input[i]).name) == lookup(
        cache,
        dir,
        input[i].name,
    ) by {
        assert(cached_id(cache1, input[i].name) == lookup(cache, dir, input[i].name));
    }
    lemma_same_lookup(input, cache1, dir2, cache, dir);
    assert forall|i: int|
        0 <= i < input.len() implies (#[trigger] cached_id(cache1, input[i].name)) is Some by {
        assert(lookup(cache, dir, input[i].name) is Some);
    }
    lemma_no_discovery(input, cache1, dir2);
    assert(models(cache1) + Seq::<TickerModel>::empty() =~= models(cache1));
    lemma_all_resolved(input, cache, dir);
}

/// A batch whose every symbol is already in the cache needs no directory,
/// records no new cache entry and leaves nothing unresolved.
pub proof fn lemma_cached_batch(input: Seq<TickerModel>, cache: Seq<Ticker>, dir: Seq<DirectoryEntry>)
    requires
        forall|i: int|
            0 <= i < input.len() ==> (#[trigger] cached_id(cache, input[i].name)) is Some,
    ensures
        !needs_directory(input, cache),
        discovered_of(input, cache, dir) == Seq::<TickerModel>::empty(),
        unresolved_of(input, cache, dir) == Seq::<TickerModel>::empty(),
{
    lemma_no_discovery(input, cache, dir);
    assert forall|i: int|
        0 <= i < input.len() implies (#[trigger] lookup(cache, dir, input[i].name)) is Some by {
        assert(cached_id(cache, input[i].name) is Some);
    }
    lemma_all_resolved(input, cache, dir);
}


proof fn lemma_all_resolved(input: Seq<TickerModel>, cache: Seq<Ticker>, dir: Seq<DirectoryEntry>)
    requires
        forall|i: int|
            0 <= i < input.len() ==> (#[trigger] lookup(cache, dir, input[i].name)) is Some,
    ensures
        unresolved_of(input, cache, dir) == Seq::<TickerModel>::empty(),
    decreases input.len(),
{
    if input.len() > 0 {
        let prev = input.drop_last();
        assert(input.last() == input[input.len() - 1]);
        assert forall|i: int|
            0 <= i < prev.len() implies (#[trigger] lookup(cache, dir, prev[i].name)) is Some by {
            assert(prev[i] == input[i]);
        }
        lemma_all_resolved(prev, cache, dir);
    }
}

proof fn lemma_first_id(pairs: Seq<(Seq<char>, Seq<char>)>, key: Seq<char>, i: int)
    requires
        0 <= i <= pairs.len(),
        forall|j: int| 0 <= j < i ==> pairs[j].0 != key,
    ensures
        i == pairs.len() ==> first_id(pairs, key) is None,
        i < pairs.len() && pairs[i].0 == key ==> first_id(pairs, key) == Some(pairs[i].1),
    decreases i,
{
    if i > 0 {
        lemma_first_id(pairs.drop_first(), key, i - 1);
    }
}

/// The position of the first cache entry for `name`.
fn find_in_cache(cache: &Vec<Ticker>, name: &String) -> (r: Option<usize>)
    ensures
        match r {
            Some(i) => i < cache@.len() && cache@[i as int].name@ == name@ && cached_id(
                cache@,
                name@,
            ) == Some(cache@[i as int].cmc_id@),
            None => cached_id(cache@, name@) is None && forall|j: int|
                0 <= j < cache@.len() ==> cache@[j].name@ != name@,
        },
{
    let ghost pairs = cache_pairs(cache@);
    let mut i: usize = 0;
    while i < cache.len()
        invariant
            i <= cache@.len(),
            pairs == cache_pairs(cache@),
            forall|j: int| 0 <= j < i ==> cache@[j].name@ != name@,
        decreases cache@.len() - i,
    {
        if cache[i].name == *name {
            proof {
                lemma_first_id(pairs, name@, i as int);
            }
            return Some(i);
        }
        i = i + 1;
    }
    proof {
        lemma_first_id(pairs, name@, i as int);
    }
    None
}

/// The position of the first directory listing whose lower-cased symbol is
/// `key`.
fn find_in_directory(dir: &Vec<DirectoryEntry>, key: &String) -> (r: Option<usize>)
    ensures
        match r {
            Some(i) => i < dir@.len() && first_id(dir_pairs(dir@), key@) == Some(
                dir@[i as int].id@,
            ),
            None => first_id(dir_pairs(dir@), key@) is None,
        },
{
    let ghost pairs = dir_pairs(dir@);
    let mut i: usize = 0;
    while i < dir.len()
        invariant
            i <= dir@.len(),
            pairs == dir_pairs(dir@),
            forall|j: int| 0 <= j < i ==> pairs[j].0 != key@,
        decreases dir@.len() - i,
    {
        let symbol = to_lower(dir[i].symbol.as_str());
        if same_text(symbol.as_str(), key.as_str()) {
            proof {
                lemma_first_id(pairs, key@, i as int);
            }
            return Some(i);
        }
        i = i + 1;
    }
    proof {
        lemma_first_id(pairs, key@, i as int);
    }
    None
}

/// Checks that a batch holds each symbol at most once, as resolution asks.
/// Fails with `DuplicateSymbol` otherwise.
pub fn check_distinct(symbols: &Vec<Ticker>) -> (r: Result<(), WalletError>)
    ensures
        r is Ok <==> distinct_names(symbols@),
        r is Err ==> r->Err_0 == WalletError::DuplicateSymbol,
{
    let mut i: usize = 0;
    while i < symbols.len()
        invariant
            i <= symbols@.len(),
            forall|a: int, b: int| 0 <= a < b < symbols@.len() && a < i ==> symbols@[a].name@
                != symbols@[b].name@,
        decreases symbols@.len() - i,
    {
        let mut j: usize = i + 1;
        while j < symbols.len()
            invariant
                i < symbols@.len(),
                i + 1 <= j <= symbols@.len(),
                forall|a: int, b: int| 0 <= a < b < symbols@.len() && a < i ==> symbols@[a].name@
                    != symbols@[b].name@,
                forall|b: int| i < b < j ==> symbols@[i as int].name@ != symbols@[b].name@,
            decreases symbols@.len() - j,
        {
            if symbols[i].name == symbols[j].name {
                return Err(WalletError::DuplicateSymbol);
            }
            j = j + 1;
        }
        i = i + 1;
    }
    Ok(())
}

/// The provider client's state: the run's settings and the resolution cache
/// (`used_id`), an ordered list of (symbol, identifier) entries.
pub struct CmcApi {
    pub settings: Settings,
    pub used_id: Vec<Ticker>,
}

impl CmcApi {
    /// The cache holds each symbol at most once.
    pub open spec fn wf(&self) -> bool {
        distinct_names(self.used_id@)
    }

    /// Whether resolving `symbols` needs the provider directory: some symbol
    /// is not in the cache.
    pub fn needs_directory(&self, symbols: &Vec<Ticker>) -> (r: bool)
        ensures
            r == needs_directory(models(symbols@), self.used_id@),
    {
        let mut i: usize = 0;
        while i < symbols.len()
            invariant
                i <= symbols@.len(),
                forall|j: int|
                    0 <= j < i ==> (#[trigger] cached_id(self.used_id@, symbols@[j].name@)) is Some,
            decreases symbols@.len() - i,
        {
            if find_in_cache(&self.used_id, &symbols[i].name).is_none() {
                assert(cached_id(self.used_id@, models(symbols@)[i as int].name) is None);
                return true;
            }
            i = i + 1;
        }
        assert forall|j: int| 0 <= j < symbols@.len() implies (#[trigger] cached_id(
            self.used_id@,
            models(symbols@)[j].name,
        )) is Some by {
            assert(models(symbols@)[j].name == symbols@[j].name@);
        }
        false
    }
    /// Resolves a batch of holdings (`symbols`, with distinct symbols) to
    /// provider identifiers: first through the cache, then through the
    /// directory, matching symbols without regard to case and taking the first
    /// listing. Returns the resolved holdings, each with its own amount, and
    /// the unresolved ones, both in input order. Symbols found through the
    /// directory are appended to the cache. Fails with `DirectoryUnavailable`,
    /// leaving the cache as it was, when a symbol misses the cache and no
    /// directory was given.
    pub fn convert_symbol_to_id(
        &mut self,
        symbols: Vec<Ticker>,
        directory: Option<&Vec<DirectoryEntry>>,
    ) -> (r: Result<(Vec<Ticker>, Vec<Ticker>), WalletError>)
        requires
            old(self).wf(),
            distinct_names(symbols@),
        ensures
            final(self).wf(),
            final(self).settings == old(self).settings,
            directory is None && needs_directory(models(symbols@), old(self).used_id@) ==> r
                == Err::<(Vec<Ticker>, Vec<Ticker>), WalletError>(WalletError::DirectoryUnavailable)
                && final(self).used_id@ == old(self).used_id@,
            !(directory is None && needs_directory(models(symbols@), old(self).used_id@)) ==> {
                &&& r is Ok
                &&& models(r->Ok_0.0@) == resolved_of(
                    models(symbols@),
                    old(self).used_id@,
                    dir_seq(directory),
                )
                &&& models(r->Ok_0.1@) == unresolved_of(
                    models(symbols@),
                    old(self).used_id@,
                    dir_seq(directory),
                )
                &&& models(final(self).used_id@) == models(old(self).used_id@) + discovered_of(
                    models(symbols@),
                    old(self).used_id@,
                    dir_seq(directory),
                )
            },
    {
        let ghost input = models(symbols@);
        let ghost cache0 = self.used_id@;
        let ghost dir = dir_seq(directory);
        let mut found: Vec<Ticker> = Vec::new();
        let mut not_found: Vec<Ticker> = Vec::new();
        let mut discovered: Vec<Ticker> = Vec::new();
        let ghost mut origin: Seq<int> = Seq::empty();
        let mut i: usize = 0;
        while i < symbols.len()
            invariant
                i <= symbols@.len(),
                input == models(symbols@),
                distinct_names(symbols@),
                distinct_names(cache0),
                self.used_id@ == cache0,
                self.settings == old(self).settings,
                dir == dir_seq(directory),
                models(found@) == resolved_of(input.subrange(0, i as int), cache0, dir),
                models(not_found@) == unresolved_of(input.subrange(0, i as int), cache0, dir),
                models(discovered@) == discovered_of(input.subrange(0, i as int), cache0, dir),
                directory is None ==> forall|j: int|
                    0 <= j < i ==> (#[trigger] cached_id(cache0, input[j].name)) is Some,
                origin.len() == discovered@.len(),
                forall|k: int| 0 <= k < origin.len() ==> 0 <= #[trigger] origin[k] < i,
                forall|k: int|
                    0 <= k < origin.len() ==> discovered@[k].name@ == symbols@[origin[k]].name@,
                forall|k1: int, k2: int|
                    0 <= k1 < k2 < origin.len() ==> origin[k1] < origin[k2],
                forall|k: int, j: int|
                    0 <= k < discovered@.len() && 0 <= j < cache0.len() ==> discovered@[k].name@
                        != cache0[j].name@,
            decreases symbols@.len() - i,
        {
            let ghost before = input.subrange(0, i as int);
            let ghost upto = input.subrange(0, i + 1);
            assert(upto.drop_last() =~= before);
            assert(upto.last() == input[i as int]);
            assert(input[i as int] == symbols@[i as int]@);
            let h = &symbols[i];
            match find_in_cache(&self.used_id, &h.name) {
                Some(k) => {
                    let mut t = h.copy();
                    t.cmc_id = self.used_id[k].cmc_id.clone();
                    let ghost prev_found = found@;
                    found.push(t);
                    assert(models(found@) =~= models(prev_found).push(t@));
                    assert(t@ == with_id(input[i as int], cache0[k as int].cmc_id@));
                },
                None => {
                    match directory {
                        None => {
                            assert(cached_id(cache0, input[i as int].name) is None);
                            return Err(WalletError::DirectoryUnavailable);
                        },
                        Some(d) => {
                            let key = to_lower(h.name.as_str());
                            match find_in_directory(d, &key) {
                                Some(k) => {
                                    let mut t = h.copy();
                                    t.cmc_id = d[k].id.clone();
                                    let ghost prev_found = found@;
                                    found.push(t);
                                    assert(models(found@) =~= models(prev_found).push(t@));
                                    let e = Ticker::createCrypto(h.name.clone(), d[k].id.clone(), 0);
                                    let ghost prev_discovered = discovered@;
                                    discovered.push(e);
                                    assert(models(discovered@) =~= models(
                                        prev_discovered,
                                    ).push(e@));
                                    proof {
                                        let prev_origin = origin;
                                        origin = origin.push(i as int);
                                        assert forall|k1: int, k2: int|
                                            0 <= k1 < k2 < origin.len() implies origin[k1]
                                            < origin[k2] by {
                                            if k2 < prev_origin.len() {
                                                assert(prev_origin[k1] < prev_origin[k2]);
                                            } else {
                                                assert(prev_origin[k1] < i);
                                            }
                                        }
                                    }
                                },
                                None => {
                                    let t = h.copy();
                                    let ghost prev_not_found = not_found@;
                                    not_found.push(t);
                                    assert(models(not_found@) =~= models(prev_not_found).push(
                                        t@,
                                    ));
                                },
                            }
                        },
                    }
                },
            }
            i = i + 1;
        }
        assert(input.subrange(0, symbols@.len() as int) =~= input);
        let ghost disc = discovered@;
        self.used_id.append(&mut discovered);
        assert(models(self.used_id@) =~= models(cache0) + models(disc));
        assert forall|a: int, b: int|
            0 <= a < b < self.used_id@.len() implies self.used_id@[a].name@
            != self.used_id@[b].name@ by {
            if b >= cache0.len() && a >= cache0.len() {
                let ka = a - cache0.len();
                let kb = b - cache0.len();
                assert(origin[ka] < origin[kb]);
            }
        }
        proof {
            if directory is None {
                assert forall|j: int| 0 <= j < input.len() implies (#[trigger] cached_id(
                    cache0,
                    input[j].name,
                )) is Some by {}
            }
        }
        Ok((found, not_found))
    }

}

} // verus!
