//! The exchange-rate client against a mocked API.

use dex_driver::kraken::{
    find_asset, find_asset_pair, Asset, AssetPair, KrakenApi, KrakenClient, PriceError, Token,
};
use dex_driver::models::TokenId;

/// A fixed-data stand-in for the HTTP API.
struct MockKrakenApi {
    assets: Vec<(String, Asset)>,
    asset_pairs: Vec<(String, AssetPair)>,
    ticker: Vec<(String, u128)>,
}

impl KrakenApi for MockKrakenApi {
    fn assets(&self) -> Result<Vec<(String, Asset)>, PriceError> {
        Ok(self.assets.clone())
    }

    fn asset_pairs(&self) -> Result<Vec<(String, AssetPair)>, PriceError> {
        Ok(self.asset_pairs.clone())
    }

    fn ticker(&self, pairs: &Vec<String>) -> Result<Vec<(String, u128)>, PriceError> {
        let mut requested: Vec<&String> = pairs.iter().collect();
        requested.sort();
        let mut known: Vec<&String> = self.ticker.iter().map(|(name, _)| name).collect();
        known.sort();
        assert_eq!(requested, known);
        Ok(self.ticker.clone())
    }
}

/// A last-24h price in reference-token units: `price * 10^(36 - decimals)`,
/// as the surrounding application computes it before handing integers in.
fn owl_price(last_24h: f64, decimals: i32) -> u128 {
    (last_24h * 10f64.powi(36 - decimals)) as u128
}

#[test]
fn get_token_prices() {
    let tokens = vec![
        Token::new(1, "ETH", 18),
        Token::new(4, "USDC", 6),
        Token::new(5, "PAX", 18),
    ];

    let api = MockKrakenApi {
        assets: vec![
            ("USDC".to_string(), Asset::new("USDC")),
            ("XETH".to_string(), Asset::new("ETH")),
            ("ZUSD".to_string(), Asset::new("USD")),
        ],
        asset_pairs: vec![
            ("USDCUSD".to_string(), AssetPair::new("USDC", "ZUSD")),
            ("XETHZUSD".to_string(), AssetPair::new("XETH", "ZUSD")),
        ],
        ticker: vec![
            ("XETHZUSD".to_string(), owl_price(99.0, 18)),
            ("USDCUSD".to_string(), owl_price(1.01, 6)),
        ],
    };

    let client = KrakenClient::with_api(api);
    let prices = client.get_prices(&tokens).unwrap();

    assert_eq!(
        prices,
        vec![
            (TokenId(1), (99.0 * 10f64.powi(18)) as u128),
            (TokenId(4), (1.01 * 10f64.powi(30)) as u128),
        ]
    );
}

#[test]
fn find_asset_prefers_the_listed_identifier() {
    let assets = vec![
        ("XETH".to_string(), Asset::new("ETH")),
        ("ZUSD".to_string(), Asset::new("USD")),
    ];
    // A symbol listed directly resolves to itself.
    assert_eq!(find_asset("XETH", &assets), Some("XETH".to_string()));
    // Otherwise the alternate name decides.
    assert_eq!(find_asset("ETH", &assets), Some("XETH".to_string()));
    assert_eq!(find_asset("DOGE", &assets), None);
}

#[test]
fn find_asset_pair_skips_dark_pools() {
    let pairs = vec![
        ("XETHZUSD.d".to_string(), AssetPair::new("XETH", "ZUSD")),
        ("XETHZUSD".to_string(), AssetPair::new("XETH", "ZUSD")),
        ("XXBTZUSD".to_string(), AssetPair::new("XXBT", "ZUSD")),
    ];
    assert_eq!(
        find_asset_pair("XETH", "ZUSD", &pairs),
        Some("XETHZUSD".to_string())
    );
    assert_eq!(find_asset_pair("XETH", "ZEUR", &pairs), None);
}

#[test]
fn missing_usd_asset_is_an_error() {
    let api = MockKrakenApi {
        assets: vec![("XETH".to_string(), Asset::new("ETH"))],
        asset_pairs: vec![],
        ticker: vec![],
    };
    let client = KrakenClient::with_api(api);
    let err = client.get_prices(&vec![Token::new(1, "ETH", 18)]).unwrap_err();
    assert_eq!(err, PriceError::NoUsdAsset);
}

#[test]
fn unquoted_tokens_are_skipped() {
    let api = MockKrakenApi {
        assets: vec![
            ("XETH".to_string(), Asset::new("ETH")),
            ("ZUSD".to_string(), Asset::new("USD")),
        ],
        asset_pairs: vec![("XETHZUSD".to_string(), AssetPair::new("XETH", "ZUSD"))],
        ticker: vec![("XETHZUSD".to_string(), 7)],
    };
    let client = KrakenClient::with_api(api);
    let prices = client
        .get_prices(&vec![Token::new(1, "ETH", 18), Token::new(2, "DOGE", 8)])
        .unwrap();
    assert_eq!(prices, vec![(TokenId(1), 7)]);
}
