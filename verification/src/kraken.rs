//! The pure part of an exchange-rate client.
//!
//! The exchange names assets and asset pairs by strings of its own; this
//! module maps exchange tokens to the pair identifiers quoted against
//! USD and reads prices out of ticker results. Fetching the three data
//! sets is left to an implementation of [`KrakenApi`]; everything that
//! decides is verified here over plain values.

use crate::models::TokenId;
use vstd::prelude::*;

verus! {

/// A token as the price client sees it.
#[derive(Clone, Debug, PartialEq, Eq)]
pub struct Token {
    pub id: TokenId,
    pub symbol: String,
    pub decimals: u32,
}

impl Token {
    /// A token with the given id, exchange symbol and decimal places.
    pub fn new(id: u16, symbol: &str, decimals: u32) -> (r: Token)
        ensures
            r.id == TokenId(id),
            r.symbol@ == symbol@,
            r.decimals == decimals,
    {
        Token { id: TokenId(id), symbol: symbol.to_owned(), decimals }
    }
}

/// An asset listed on the exchange, under its alternate name.
#[derive(Clone, Debug, PartialEq, Eq)]
pub struct Asset {
    pub altname: String,
}

impl Asset {
    /// An asset with the given alternate name.
    pub fn new(altname: &str) -> (r: Asset)
        ensures
            r.altname@ == altname@,
    {
        Asset { altname: altname.to_owned() }
    }
}

/// A tradable pair of two asset identifiers.
#[derive(Clone, Debug, PartialEq, Eq)]
pub struct AssetPair {
    pub base: String,
    pub quote: String,
}

impl AssetPair {
    /// A pair trading `base` against `quote`.
    pub fn new(base: &str, quote: &str) -> (r: AssetPair)
        ensures
            r.base@ == base@,
            r.quote@ == quote@,
    {
        AssetPair { base: base.to_owned(), quote: quote.to_owned() }
    }
}

/// Why prices could not be computed.
#[derive(Clone, Copy, Debug, PartialEq, Eq, Structural)]
pub enum PriceError {
    /// The exchange's asset list does not know USD.
    NoUsdAsset,
    /// A data set could not be fetched.
    Api,
}

/// The asset identifier a symbol resolves to: the symbol itself when
/// listed directly, else the first asset whose alternate name matches.
pub open spec fn spec_find_asset(symbol: Seq<char>, assets: Seq<(String, Asset)>) -> Option<
    Seq<char>> {
    if exists|k: int| 0 <= k < assets.len() && (#[trigger] assets[k]).0@ == symbol {
        Some(symbol)
    } else {
        spec_find_asset_by_altname(symbol, assets)
    }
}

/// The first asset whose alternate name matches the symbol.
pub open spec fn spec_find_asset_by_altname(
    symbol: Seq<char>,
    assets: Seq<(String, Asset)>,
) -> Option<Seq<char>>
    decreases assets.len(),
{
    if assets.len() == 0 {
        None
    } else if assets[0].1.altname@ == symbol {
        Some(assets[0].0@)
    } else {
        spec_find_asset_by_altname(symbol, assets.drop_first())
    }
}

/// The first pair quoting `asset` against `to`, skipping dark-pool pairs
/// (names ending in `.d`).
pub open spec fn spec_find_asset_pair(
    asset: Seq<char>,
    to: Seq<char>,
    pairs: Seq<(String, AssetPair)>,
) -> Option<Seq<char>>
    decreases pairs.len(),
{
    if pairs.len() == 0 {
        None
    } else if !spec_is_dark_pool(pairs[0].0@) && pairs[0].1.base@ == asset && pairs[0].1.quote@
        == to {
        Some(pairs[0].0@)
    } else {
        spec_find_asset_pair(asset, to, pairs.drop_first())
    }
}

/// Whether a pair name ends in `.d`.
pub open spec fn spec_is_dark_pool(name: Seq<char>) -> bool {
    name.len() >= 2 && name[name.len() - 2] == '.' && name[name.len() - 1] == 'd'
}

/// String equality by characters.
fn str_eq(a: &str, b: &str) -> (r: bool)
    ensures
        r == (a@ == b@),
{
    let x = a.to_owned();
    let y = b.to_owned();
    x == y
}

/// Whether the name ends in `.d`, the exchange's dark-pool marker.
fn is_dark_pool(name: &str) -> (r: bool)
    ensures
        r == spec_is_dark_pool(name@),
{
    let n = name.unicode_len();
    if n < 2 {
        return false;
    }
    let dot = name.get_char(n - 2);
    let d = name.get_char(n - 1);
    dot == '.' && d == 'd'
}

/// Finds the exchange's identifier for a token symbol.
pub fn find_asset(symbol: &str, assets: &Vec<(String, Asset)>) -> (r: Option<String>)
    ensures
        match r {
            Some(name) => spec_find_asset(symbol@, assets@) == Some(name@),
            None => spec_find_asset(symbol@, assets@) is None,
        },
{
    let mut i: usize = 0;
    while i < assets.len()
        invariant
            i <= assets@.len(),
            forall|k: int| 0 <= k < i ==> (#[trigger] assets@[k]).0@ != symbol@,
        decreases assets@.len() - i,
    {
        if str_eq(assets[i].0.as_str(), symbol) {
            proof {
                assert((#[trigger] assets@[i as int]).0@ == symbol@);
            }
            return Some(symbol.to_owned());
        }
        i = i + 1;
    }
    proof {
        assert(!exists|k: int| 0 <= k < assets@.len() && (#[trigger] assets@[k]).0@ == symbol@);
        assert(assets@.skip(0) =~= assets@);
    }
    let mut i: usize = 0;
    while i < assets.len()
        invariant
            i <= assets@.len(),
            spec_find_asset(symbol@, assets@) == spec_find_asset_by_altname(
                symbol@, assets@.skip(i as int)),
        decreases assets@.len() - i,
    {
        proof {
            assert(assets@.skip(i as int).len() > 0);
            assert(assets@.skip(i as int)[0] == assets@[i as int]);
            assert(assets@.skip(i as int).drop_first() =~= assets@.skip(i + 1));
        }
        if str_eq(assets[i].1.altname.as_str(), symbol) {
            return Some(assets[i].0.clone());
        }
        i = i + 1;
    }
    None
}

/// Finds a pair name quoting `asset` against `to`.
pub fn find_asset_pair(asset: &str, to: &str, pairs: &Vec<(String, AssetPair)>) -> (r: Option<
    String>)
    ensures
        match r {
            Some(name) => spec_find_asset_pair(asset@, to@, pairs@) == Some(name@),
            None => spec_find_asset_pair(asset@, to@, pairs@) is None,
        },
{
    let mut i: usize = 0;
    proof {
        assert(pairs@.skip(0) =~= pairs@);
    }
    while i < pairs.len()
        invariant
            i <= pairs@.len(),
            spec_find_asset_pair(asset@, to@, pairs@) == spec_find_asset_pair(
                asset@, to@, pairs@.skip(i as int)),
        decreases pairs@.len() - i,
    {
        proof {
            assert(pairs@.skip(i as int).len() > 0);
            assert(pairs@.skip(i as int)[0] == pairs@[i as int]);
            assert(pairs@.skip(i as int).drop_first() =~= pairs@.skip(i + 1));
        }
        if !is_dark_pool(pairs[i].0.as_str()) && str_eq(pairs[i].1.base.as_str(), asset) && str_eq(
            pairs[i].1.quote.as_str(), to) {
            return Some(pairs[i].0.clone());
        }
        i = i + 1;
    }
    None
}

/// A source of exchange data: the listed assets, the tradable pairs, and
/// integer prices (already scaled to reference-token units) for a set of
/// pair names. Implementations do the fetching and unit conversion; the
/// mock used in tests hands back fixed data.
pub trait KrakenApi {
    /// The assets the exchange lists, keyed by identifier.
    fn assets(&self) -> Result<Vec<(String, Asset)>, PriceError>;

    /// The pairs the exchange trades, keyed by pair name.
    fn asset_pairs(&self) -> Result<Vec<(String, AssetPair)>, PriceError>;

    /// The latest price for each requested pair name, in reference units.
    fn ticker(&self, pairs: &Vec<String>) -> Result<Vec<(String, u128)>, PriceError>;
}

/// A client to the Kraken exchange.
pub struct KrakenClient<Api> {
    /// A Kraken API implementation. This allows mocked APIs to be used
    /// for testing.
    pub api: Api,
}

impl<Api: KrakenApi> KrakenClient<Api> {
    /// Creates a new client instance wrapping exactly the given API.
    pub fn with_api(api: Api) -> (r: KrakenClient<Api>)
        ensures
            r.api == api,
    {
        KrakenClient { api }
    }

    /// Generates the mapping between pair names and the tokens they
    /// price, then reads each token's price out of the ticker.
    pub fn get_prices(&self, tokens: &Vec<Token>) -> (r: Result<Vec<(TokenId, u128)>, PriceError>)
    {
        let assets = match self.api.assets() {
            Ok(a) => a,
            Err(e) => {
                return Err(e);
            },
        };
        let asset_pairs = match self.api.asset_pairs() {
            Ok(p) => p,
            Err(e) => {
                return Err(e);
            },
        };
        let pairing = match token_asset_pairs(tokens, &assets, &asset_pairs) {
            Ok(p) => p,
            Err(e) => {
                return Err(e);
            },
        };
        let mut names: Vec<String> = Vec::new();
        let mut i: usize = 0;
        while i < pairing.len()
            invariant
                i <= pairing@.len(),
            decreases pairing@.len() - i,
        {
            names.push(pairing[i].0.clone());
            i = i + 1;
        }
        let ticker = match self.api.ticker(&names) {
            Ok(t) => t,
            Err(e) => {
                return Err(e);
            },
        };
        let mut ids: Vec<TokenId> = Vec::new();
        let mut i: usize = 0;
        while i < tokens.len()
            invariant
                i <= tokens@.len(),
                ids@.len() == i,
                forall|k: int| 0 <= k < i ==> #[trigger] ids@[k] == tokens@[k].id,
            decreases tokens@.len() - i,
        {
            ids.push(tokens[i].id);
            i = i + 1;
        }
        Ok(prices_for_tokens(&pairing, &ticker, &ids))
    }
}

/// The pair name each token trades under against USD, with the token's
/// position in the input; tokens the exchange does not quote are skipped.
pub open spec fn spec_token_pairs(
    tokens: Seq<Token>,
    usd: Seq<char>,
    assets: Seq<(String, Asset)>,
    pairs: Seq<(String, AssetPair)>,
) -> Seq<(Seq<char>, int)>
    decreases tokens.len(),
{
    if tokens.len() == 0 {
        Seq::empty()
    } else {
        let rest = spec_token_pairs(tokens.drop_last(), usd, assets, pairs);
        let t = tokens.last();
        match spec_find_asset(t.symbol@, assets) {
            None => rest,
            Some(a) => match spec_find_asset_pair(a, usd, pairs) {
                None => rest,
                Some(name) => rest.push((name, tokens.len() - 1)),
            },
        }
    }
}

/// Maps each token to the exchange pair name that quotes it against USD.
/// Fails only when the exchange does not know USD at all.
pub fn token_asset_pairs(
    tokens: &Vec<Token>,
    assets: &Vec<(String, Asset)>,
    pairs: &Vec<(String, AssetPair)>,
) -> (r: Result<Vec<(String, usize)>, PriceError>)
    ensures
        match r {
            Ok(out) => spec_find_asset("USD"@, assets@) is Some && out@.len()
                == spec_token_pairs(tokens@, spec_find_asset("USD"@, assets@).unwrap(), assets@,
                pairs@).len() && forall|k: int|
                0 <= k < out@.len() ==> (#[trigger] out@[k]).0@ == spec_token_pairs(
                    tokens@, spec_find_asset("USD"@, assets@).unwrap(), assets@, pairs@)[k].0
                    && out@[k].1 == spec_token_pairs(
                    tokens@, spec_find_asset("USD"@, assets@).unwrap(), assets@, pairs@)[k].1,
            Err(e) => e == PriceError::NoUsdAsset && spec_find_asset("USD"@, assets@) is None,
        },
{
    let usd = match find_asset("USD", assets) {
        Some(u) => u,
        None => {
            return Err(PriceError::NoUsdAsset);
        },
    };
    let ghost usd_spec = spec_find_asset("USD"@, assets@).unwrap();
    let mut out: Vec<(String, usize)> = Vec::new();
    let mut i: usize = 0;
    proof {
        assert(tokens@.take(0) =~= Seq::<Token>::empty());
    }
    while i < tokens.len()
        invariant
            i <= tokens@.len(),
            usd@ == usd_spec,
            usd_spec == spec_find_asset("USD"@, assets@).unwrap(),
            spec_find_asset("USD"@, assets@) is Some,
            out@.len() == spec_token_pairs(tokens@.take(i as int), usd_spec, assets@, pairs@).len(),
            forall|k: int|
                0 <= k < out@.len() ==> (#[trigger] out@[k]).0@ == spec_token_pairs(
                    tokens@.take(i as int), usd_spec, assets@, pairs@)[k].0 && out@[k].1
                    == spec_token_pairs(tokens@.take(i as int), usd_spec, assets@, pairs@)[k].1,
        decreases tokens@.len() - i,
    {
        proof {
            assert(tokens@.take(i + 1).drop_last() =~= tokens@.take(i as int));
            assert(tokens@.take(i + 1).last() == tokens@[i as int]);
        }
        match find_asset(tokens[i].symbol.as_str(), assets) {
            None => {},
            Some(a) => {
                match find_asset_pair(a.as_str(), usd.as_str(), pairs) {
                    None => {},
                    Some(name) => {
                        out.push((name, i));
                    },
                }
            },
        }
        i = i + 1;
    }
    proof {
        assert(tokens@.take(tokens@.len() as int) =~= tokens@);
    }
    Ok(out)
}

/// The price recorded for a pair name in a ticker, if any.
pub open spec fn spec_ticker_price(ticker: Seq<(String, u128)>, name: Seq<char>) -> Option<u128>
    decreases ticker.len(),
{
    if ticker.len() == 0 {
        None
    } else if ticker[0].0@ == name {
        Some(ticker[0].1)
    } else {
        spec_ticker_price(ticker.drop_first(), name)
    }
}

/// The token prices a ticker yields for a pairing: one entry per paired
/// token the ticker quotes.
pub open spec fn spec_prices_of(
    pairing: Seq<(String, usize)>,
    ticker: Seq<(String, u128)>,
    ids: Seq<TokenId>,
) -> Seq<(TokenId, u128)>
    decreases pairing.len(),
{
    if pairing.len() == 0 {
        Seq::empty()
    } else {
        let rest = spec_prices_of(pairing.drop_last(), ticker, ids);
        let entry = pairing.last();
        if entry.1 < ids.len() {
            match spec_ticker_price(ticker, entry.0@) {
                None => rest,
                Some(p) => rest.push((ids[entry.1 as int], p)),
            }
        } else {
            rest
        }
    }
}

/// Looks one pair name up in the ticker.
fn ticker_price(ticker: &Vec<(String, u128)>, name: &str) -> (r: Option<u128>)
    ensures
        r == spec_ticker_price(ticker@, name@),
{
    let mut i: usize = 0;
    proof {
        assert(ticker@.skip(0) =~= ticker@);
    }
    while i < ticker.len()
        invariant
            i <= ticker@.len(),
            spec_ticker_price(ticker@, name@) == spec_ticker_price(
                ticker@.skip(i as int), name@),
        decreases ticker@.len() - i,
    {
        proof {
            assert(ticker@.skip(i as int).len() > 0);
            assert(ticker@.skip(i as int)[0] == ticker@[i as int]);
            assert(ticker@.skip(i as int).drop_first() =~= ticker@.skip(i + 1));
        }
        if str_eq(ticker[i].0.as_str(), name) {
            return Some(ticker[i].1);
        }
        i = i + 1;
    }
    None
}

/// Reads each paired token's price out of a ticker result. The `pairing`
/// indices address the `ids` list; entries out of range are skipped.
pub fn prices_for_tokens(
    pairing: &Vec<(String, usize)>,
    ticker: &Vec<(String, u128)>,
    ids: &Vec<TokenId>,
) -> (r: Vec<(TokenId, u128)>)
    ensures
        r@ == spec_prices_of(pairing@, ticker@, ids@),
{
    let mut out: Vec<(TokenId, u128)> = Vec::new();
    let mut i: usize = 0;
    proof {
        assert(pairing@.take(0) =~= Seq::<(String, usize)>::empty());
    }
    while i < pairing.len()
        invariant
            i <= pairing@.len(),
            out@ == spec_prices_of(pairing@.take(i as int), ticker@, ids@),
        decreases pairing@.len() - i,
    {
        proof {
            assert(pairing@.take(i + 1).drop_last() =~= pairing@.take(i as int));
            assert(pairing@.take(i + 1).last() == pairing@[i as int]);
        }
        let idx = pairing[i].1;
        if idx < ids.len() {
            match ticker_price(ticker, pairing[i].0.as_str()) {
                None => {},
                Some(p) => {
                    out.push((ids[idx], p));
                },
            }
        }
        i = i + 1;
    }
    proof {
        assert(pairing@.take(pairing@.len() as int) =~= pairing@);
    }
    out
}

} // verus!
