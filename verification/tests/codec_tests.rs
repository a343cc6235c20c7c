//! The auction element codec: round trips and rejected pages.

use dex_driver::codec::{
    decode_element, decode_page, encode_element, encode_page, AuctionElement, CodecError,
};
use dex_driver::models::Address;

fn sample_element() -> AuctionElement {
    AuctionElement {
        owner: Address { hi: 0xdead_beef, lo: 0x0123_4567_89ab_cdef_0011_2233_4455_6677 },
        sell_token_balance: 52_000_000_000_000_000_000,
        buy_token: 1,
        sell_token: 2,
        valid_from: 3,
        valid_until: 1_000_000,
        price_numerator: 4_000_000_000_000_000_000,
        price_denominator: 52_000_000_000_000_000_000,
        remaining_amount: 20_000_000_000_000_000_000,
    }
}

#[test]
fn encode_then_decode_returns_the_element() {
    let element = sample_element();
    let bytes = encode_element(&element);
    assert_eq!(bytes.len(), 112);
    let back = decode_element(&bytes, 0);
    assert_eq!(back, element);
}

#[test]
fn extreme_values_round_trip() {
    let element = AuctionElement {
        owner: Address { hi: u32::MAX, lo: u128::MAX },
        sell_token_balance: u128::MAX,
        buy_token: u16::MAX,
        sell_token: 0,
        valid_from: 0,
        valid_until: u32::MAX,
        price_numerator: u128::MAX,
        price_denominator: 1,
        remaining_amount: 0,
    };
    let bytes = encode_element(&element);
    assert_eq!(decode_element(&bytes, 0), element);
}

#[test]
fn a_page_of_two_records_decodes_in_order() {
    let first = sample_element();
    let mut second = sample_element();
    second.owner = Address { hi: 0, lo: 7 };
    second.buy_token = 5;
    let mut bytes = encode_element(&first);
    bytes.extend(encode_element(&second));
    let decoded = decode_page(&bytes).unwrap();
    assert_eq!(decoded, vec![first, second]);
}

#[test]
fn an_encoded_page_decodes_to_its_elements() {
    let mut elements = Vec::new();
    for k in 0..5u64 {
        let mut e = sample_element();
        e.owner = Address::from_low_u64_be(k);
        e.price_numerator = k as u128 + 1;
        elements.push(e);
    }
    let page = encode_page(&elements);
    assert_eq!(page.len(), 112 * elements.len());
    assert_eq!(decode_page(&page), Ok(elements));
}

#[test]
fn a_truncated_page_is_corrupt() {
    let mut bytes = encode_element(&sample_element());
    bytes.pop();
    assert_eq!(decode_page(&bytes), Err(CodecError::CorruptPage));
}

#[test]
fn a_self_trading_record_is_corrupt() {
    let mut element = sample_element();
    element.buy_token = element.sell_token;
    let bytes = encode_element(&element);
    assert_eq!(decode_page(&bytes), Err(CodecError::CorruptPage));
}

#[test]
fn an_empty_page_holds_no_records() {
    let bytes: Vec<u8> = Vec::new();
    assert_eq!(decode_page(&bytes), Ok(vec![]));
}

#[test]
fn big_endian_layout_is_fixed() {
    let mut element = sample_element();
    element.buy_token = 0x0102;
    let bytes = encode_element(&element);
    // buy token sits at offsets 52..54, most significant byte first
    assert_eq!(bytes[52], 0x01);
    assert_eq!(bytes[53], 0x02);
}

#[test]
fn scaled_buy_amount_follows_the_limit_ratio() {
    let mut element = sample_element();
    element.price_numerator = 10;
    element.price_denominator = 4;
    element.remaining_amount = 3;
    // ceil(10 * 3 / 4) = 8
    let order = element.to_order(9);
    assert_eq!(order.id, 9);
    assert_eq!(order.sell_amount, 3);
    assert_eq!(order.buy_amount, 8);

    element.price_denominator = 0;
    let order = element.to_order(0);
    assert_eq!(order.buy_amount, 0);
}
