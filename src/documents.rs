//! Reading the two JSON documents the resolver works from: the provider
//! directory and the persisted resolution cache.
use vstd::prelude::*;

use crate::error::WalletError;
use crate::resolver::{cache_entry, CmcApi, DirectoryEntry};
use crate::settings::Settings;
use crate::ticker::{distinct_names, models, Ticker, TickerModel};

verus! {

#[verifier::external_type_specification]
#[verifier::external_body]
pub struct ExValue(serde_json::Value);

/// A JSON value as plain data. A number is kept as the non-negative integer
/// it denotes, or `None` for a negative or fractional number or one beyond
/// `u64`.
pub ghost enum Json {
    Null,
    Bool(bool),
    Number(Option<u64>),
    Str(Seq<char>),
    Array(Seq<Json>),
    Object(Map<Seq<char>, Json>),
}

/// The JSON document a text denotes, `None` when the text is not JSON.
pub uninterp spec fn json_of(text: Seq<char>) -> Option<Json>;

/// The plain data a `serde_json::Value` holds.
pub uninterp spec fn json_model(v: serde_json::Value) -> Json;

/// Relies on `serde_json::from_str`: parses text as one JSON document,
/// failing on text that is not JSON.
#[verifier::external_body]
fn parse_json(text: &str) -> (r: Option<serde_json::Value>)
    ensures
        r is Some <==> json_of(text@) is Some,
        r is Some ==> json_model(r->0) == json_of(text@)->0,
{
    serde_json::from_str(text).ok()
}

/// Relies on `serde_json::Value::get` with a string index: the member `key`
/// of an object, `None` for a missing member or a value that is no object.
#[verifier::external_body]
fn member<'a>(v: &'a serde_json::Value, key: &str) -> (r: Option<&'a serde_json::Value>)
    ensures
        match json_model(*v) {
            Json::Object(m) => if m.contains_key(key@) {
                r is Some && json_model(*r->0) == m[key@]
            } else {
                r is None
            },
            _ => r is None,
        },
{
    v.get(key)
}

/// Relies on `serde_json::Value::as_array`: the elements of an array.
#[verifier::external_body]
fn elements<'a>(v: &'a serde_json::Value) -> (r: Option<&'a Vec<serde_json::Value>>)
    ensures
        match json_model(*v) {
            Json::Array(items) => r is Some && r->0@.len() == items.len() && forall|i: int|
                0 <= i < items.len() ==> json_model(#[trigger] r->0@[i]) == items[i],
            _ => r is None,
        },
{
    v.as_array()
}

/// Relies on `serde_json::Value::as_str`: the text of a JSON string.
#[verifier::external_body]
fn text_of<'a>(v: &'a serde_json::Value) -> (r: Option<&'a str>)
    ensures
        match json_model(*v) {
            Json::Str(t) => r is Some && r->0@ == t,
            _ => r is None,
        },
{
    v.as_str()
}

/// Relies on `serde_json::Value::as_u64`: a JSON integer that fits a `u64`.
#[verifier::external_body]
fn number_of(v: &serde_json::Value) -> (r: Option<u64>)
    ensures
        match json_model(*v) {
            Json::Number(n) => r == n,
            _ => r is None,
        },
{
    v.as_u64()
}

/// The text of member `key` of an object, when it is a string.
pub open spec fn text_member(j: Json, key: Seq<char>) -> Option<Seq<char>> {
    match j {
        Json::Object(m) => if m.contains_key(key) {
            match m[key] {
                Json::Str(t) => Some(t),
                _ => None,
            }
        } else {
            None
        },
        _ => None,
    }
}

/// The integer of member `key` of an object, when it is a non-negative
/// integer that fits a `u64`.
pub open spec fn number_member(j: Json, key: Seq<char>) -> Option<u64> {
    match j {
        Json::Object(m) => if m.contains_key(key) {
            match m[key] {
                Json::Number(n) => n,
                _ => None,
            }
        } else {
            None
        },
        _ => None,
    }
}

/// The elements of member `key` of an object, when it is an array.
pub open spec fn array_member(j: Json, key: Seq<char>) -> Option<Seq<Json>> {
    match j {
        Json::Object(m) => if m.contains_key(key) {
            match m[key] {
                Json::Array(items) => Some(items),
                _ => None,
            }
        } else {
            None
        },
        _ => None,
    }
}

/// A directory listing: an object with a string `symbol` and an integer `id`.
pub open spec fn listing_ok(j: Json) -> bool {
    text_member(j, "symbol"@) is Some && number_member(j, "id"@) is Some
}

/// The listings of a directory document: an object whose `data` member is
/// an array of listings. `None` for a document of another shape.
pub open spec fn listings_of(j: Json) -> Option<Seq<Json>> {
    match array_member(j, "data"@) {
        Some(items) => if forall|i: int| 0 <= i < items.len() ==> listing_ok(#[trigger] items[i]) {
            Some(items)
        } else {
            None
        },
        None => None,
    }
}

/// A cache entry: an object with string members `name` and `cmc_id`.
pub open spec fn cache_item_ok(j: Json) -> bool {
    text_member(j, "name"@) is Some && text_member(j, "cmc_id"@) is Some
}

/// The (name, identifier) pairs of a cache document: an array of cache
/// entries, in order. `None` for a document of another shape.
pub open spec fn cache_pairs_of(j: Json) -> Option<Seq<(Seq<char>, Seq<char>)>> {
    match j {
        Json::Array(items) => if forall|i: int|
            0 <= i < items.len() ==> cache_item_ok(#[trigger] items[i]) {
            Some(
                items.map_values(
                    |e: Json| (text_member(e, "name"@)->0, text_member(e, "cmc_id"@)->0),
                ),
            )
        } else {
            None
        },
        _ => None,
    }
}

/// The (name, identifier) pairs a cache text holds.
pub open spec fn cache_text_pairs(text: Seq<char>) -> Option<Seq<(Seq<char>, Seq<char>)>> {
    match json_of(text) {
        Some(j) => cache_pairs_of(j),
        None => None,
    }
}

/// The listings a directory text holds.
pub open spec fn directory_listings(text: Seq<char>) -> Option<Seq<Json>> {
    match json_of(text) {
        Some(j) => listings_of(j),
        None => None,
    }
}

/// The views of (name, identifier) string pairs.
pub open spec fn pair_views(entries: Seq<(String, String)>) -> Seq<(Seq<char>, Seq<char>)> {
    entries.map_values(|e: (String, String)| (e.0@, e.1@))
}

/// The decimal digits of a natural number, without leading zeros.
pub open spec fn decimal(n: nat) -> Seq<char>
    decreases n,
{
    if n < 10 {
        seq![(('0' as u32) + n) as char]
    } else {
        decimal(n / 10) + seq![(('0' as u32) + (n % 10)) as char]
    }
}

/// Relies on `u64::to_string` (its `Display`): the number in decimal.
#[verifier::external_body]
fn decimal_text(n: u64) -> (r: String)
    ensures
        r@ == decimal(n as nat),
{
    n.to_string()
}

/// Reads the provider directory: a JSON object whose `data` member is an
/// array of listings, each an object with a string `symbol` and an integer
/// `id`. The entries are the listings in order, identifiers in decimal.
/// Fails with `DirectoryUnavailable` when the text has another shape.
pub fn parse_directory(text: &str) -> (r: Result<Vec<DirectoryEntry>, WalletError>)
    ensures
        match directory_listings(text@) {
            Some(ls) => r is Ok && r->Ok_0@.len() == ls.len() && forall|i: int|
                0 <= i < ls.len() ==> (#[trigger] r->Ok_0@[i]).symbol@ == text_member(
                    ls[i],
                    "symbol"@,
                )->0 && r->Ok_0@[i].id@ == decimal(number_member(ls[i], "id"@)->0 as nat),
            None => r == Err::<Vec<DirectoryEntry>, WalletError>(
                WalletError::DirectoryUnavailable,
            ),
        },
{
    let doc = match parse_json(text) {
        Some(d) => d,
        None => {
            return Err(WalletError::DirectoryUnavailable);
        },
    };
    let ghost j = json_model(doc);
    let data = match member(&doc, "data") {
        Some(d) => d,
        None => {
            return Err(WalletError::DirectoryUnavailable);
        },
    };
    let listings = match elements(data) {
        Some(l) => l,
        None => {
            return Err(WalletError::DirectoryUnavailable);
        },
    };
    let ghost items = array_member(j, "data"@)->0;
    assert(array_member(j, "data"@) == Some(items));
    let mut entries: Vec<DirectoryEntry> = Vec::new();
    let mut i: usize = 0;
    while i < listings.len()
        invariant
            i <= listings@.len(),
            listings@.len() == items.len(),
            forall|k: int| 0 <= k < items.len() ==> json_model(#[trigger] listings@[k]) == items[k],
            array_member(j, "data"@) == Some(items),
            json_of(text@) == Some(j),
            entries@.len() == i,
            forall|k: int| 0 <= k < i ==> listing_ok(#[trigger] items[k]),
            forall|k: int|
                0 <= k < i ==> (#[trigger] entries@[k]).symbol@ == text_member(
                    items[k],
                    "symbol"@,
                )->0 && entries@[k].id@ == decimal(number_member(items[k], "id"@)->0 as nat),
        decreases listings@.len() - i,
    {
        let listing = &listings[i];
        assert(json_model(*listing) == items[i as int]);
        let symbol = match member(listing, "symbol") {
            Some(s) => match text_of(s) {
                Some(t) => t,
                None => {
                    assert(!listing_ok(items[i as int]));
                    return Err(WalletError::DirectoryUnavailable);
                },
            },
            None => {
                assert(!listing_ok(items[i as int]));
                return Err(WalletError::DirectoryUnavailable);
            },
        };
        let id = match member(listing, "id") {
            Some(n) => match number_of(n) {
                Some(v) => v,
                None => {
                    assert(!listing_ok(items[i as int]));
                    return Err(WalletError::DirectoryUnavailable);
                },
            },
            None => {
                assert(!listing_ok(items[i as int]));
                return Err(WalletError::DirectoryUnavailable);
            },
        };
        let e = DirectoryEntry { symbol: symbol.to_owned(), id: decimal_text(id) };
        entries.push(e);
        assert(entries@[i as int] == e);
        i = i + 1;
    }
    assert(listings_of(j) == Some(items));
    Ok(entries)
}

/// The resolution cache that (name, identifier) entries make: each name
/// keeps its first entry, in order.
pub open spec fn cache_of(entries: Seq<(Seq<char>, Seq<char>)>) -> Seq<TickerModel>
    decreases entries.len(),
{
    if entries.len() == 0 {
        Seq::empty()
    } else {
        let prev = cache_of(entries.drop_last());
        let e = entries.last();
        if exists|i: int| 0 <= i < prev.len() && (#[trigger] prev[i]).name == e.0 {
            prev
        } else {
            prev.push(cache_entry(e.0, e.1))
        }
    }
}

/// The cache document: a JSON array of objects with string members `name`
/// and `cmc_id`, read as (name, identifier) pairs in order. Fails with
/// `MalformedInput` when the text has another shape.
pub fn parse_cache(text: &str) -> (r: Result<Vec<(String, String)>, WalletError>)
    ensures
        match cache_text_pairs(text@) {
            Some(ps) => r is Ok && pair_views(r->Ok_0@) == ps,
            None => r == Err::<Vec<(String, String)>, WalletError>(WalletError::MalformedInput),
        },
{
    let doc = match parse_json(text) {
        Some(d) => d,
        None => {
            return Err(WalletError::MalformedInput);
        },
    };
    let ghost j = json_model(doc);
    let items = match elements(&doc) {
        Some(a) => a,
        None => {
            return Err(WalletError::MalformedInput);
        },
    };
    let ghost model = match j {
        Json::Array(m) => m,
        _ => Seq::empty(),
    };
    assert(j == Json::Array(model));
    let mut entries: Vec<(String, String)> = Vec::new();
    let mut i: usize = 0;
    while i < items.len()
        invariant
            i <= items@.len(),
            items@.len() == model.len(),
            forall|k: int| 0 <= k < model.len() ==> json_model(#[trigger] items@[k]) == model[k],
            j == Json::Array(model),
            json_of(text@) == Some(j),
            entries@.len() == i,
            forall|k: int| 0 <= k < i ==> cache_item_ok(#[trigger] model[k]),
            forall|k: int|
                0 <= k < i ==> (#[trigger] entries@[k]).0@ == text_member(model[k], "name"@)->0
                    && entries@[k].1@ == text_member(model[k], "cmc_id"@)->0,
        decreases items@.len() - i,
    {
        let item = &items[i];
        assert(json_model(*item) == model[i as int]);
        let name = match member(item, "name") {
            Some(s) => match text_of(s) {
                Some(t) => t,
                None => {
                    assert(!cache_item_ok(model[i as int]));
                    return Err(WalletError::MalformedInput);
                },
            },
            None => {
                assert(!cache_item_ok(model[i as int]));
                return Err(WalletError::MalformedInput);
            },
        };
        let id = match member(item, "cmc_id") {
            Some(s) => match text_of(s) {
                Some(t) => t,
                None => {
                    assert(!cache_item_ok(model[i as int]));
                    return Err(WalletError::MalformedInput);
                },
            },
            None => {
                assert(!cache_item_ok(model[i as int]));
                return Err(WalletError::MalformedInput);
            },
        };
        let e = (name.to_owned(), id.to_owned());
        entries.push(e);
        assert(entries@[i as int] == e);
        i = i + 1;
    }
    assert(pair_views(entries@) =~= cache_pairs_of(j)->0);
    Ok(entries)
}

impl CmcApi {
    /// The provider client for a run over a resolution cache made of
    /// (name, identifier) entries; a name listed twice keeps its first entry.
    pub fn with_cache(settings: Settings, entries: &Vec<(String, String)>) -> (r: CmcApi)
        ensures
            r.wf(),
            r.settings == settings,
            models(r.used_id@) == cache_of(pair_views(entries@)),
    {
        let ghost pv = pair_views(entries@);
        let mut used_id: Vec<Ticker> = Vec::new();
        let mut i: usize = 0;
        assert(pv.subrange(0, 0) =~= Seq::<(Seq<char>, Seq<char>)>::empty());
        assert(models(used_id@) =~= Seq::<TickerModel>::empty());
        while i < entries.len()
            invariant
                i <= entries@.len(),
                pv == pair_views(entries@),
                distinct_names(used_id@),
                models(used_id@) == cache_of(pv.subrange(0, i as int)),
            decreases entries@.len() - i,
        {
            let ghost prev = used_id@;
            assert(pv.subrange(0, i + 1).drop_last() =~= pv.subrange(0, i as int));
            assert(pv.subrange(0, i + 1).last() == pv[i as int]);
            let name = &entries[i].0;
            let mut j: usize = 0;
            let mut known = false;
            while j < used_id.len() && !known
                invariant
                    j <= used_id@.len(),
                    known ==> j < used_id@.len() && used_id@[j as int].name@ == name@,
                    !known ==> forall|k: int| 0 <= k < j ==> used_id@[k].name@ != name@,
                decreases used_id@.len() - j + (if known {
                    0int
                } else {
                    1int
                }),
            {
                if used_id[j].name == *name {
                    known = true;
                } else {
                    j = j + 1;
                }
            }
            if known {
                assert(models(prev)[j as int].name == name@);
            } else {
                assert forall|k: int| 0 <= k < models(prev).len() implies (#[trigger] models(
                    prev,
                )[k]).name != name@ by {
                    assert(models(prev)[k] == prev[k]@);
                }
                let t = Ticker::createCrypto(name.clone(), entries[i].1.clone(), 0);
                used_id.push(t);
                assert(models(used_id@) =~= models(prev).push(t@));
                assert forall|a: int, b: int|
                    0 <= a < b < used_id@.len() implies used_id@[a].name@ != used_id@[b].name@ by {
                    if b == prev.len() {
                        assert(used_id@[a] == prev[a]);
                    } else {
                        assert(used_id@[a] == prev[a] && used_id@[b] == prev[b]);
                    }
                }
            }
            i = i + 1;
        }
        assert(pv.subrange(0, entries@.len() as int) =~= pv);
        CmcApi { settings, used_id }
    }

    /// The provider client for a run, with the resolution cache read from
    /// its persisted document (see [`parse_cache`]); empty text, as from an
    /// absent store, is an empty cache. Fails with `MalformedInput` when
    /// non-empty text is not a cache document.
    pub fn new(settings: Settings, cache_text: &str) -> (r: Result<CmcApi, WalletError>)
        ensures
            r is Ok ==> r->Ok_0.wf() && r->Ok_0.settings == settings,
            cache_text@.len() == 0 ==> r is Ok && r->Ok_0.used_id@.len() == 0,
            cache_text@.len() > 0 ==> match cache_text_pairs(cache_text@) {
                Some(ps) => r is Ok && models(r->Ok_0.used_id@) == cache_of(ps),
                None => r == Err::<CmcApi, WalletError>(WalletError::MalformedInput),
            },
    {
        if cache_text.unicode_len() == 0 {
            let r = CmcApi { settings, used_id: Vec::new() };
            return Ok(r);
        }
        match parse_cache(cache_text) {
            Ok(entries) => Ok(CmcApi::with_cache(settings, &entries)),
            Err(e) => Err(e),
        }
    }
}

} // verus!
