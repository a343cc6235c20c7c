//! The matcher end to end: fills, fees, and the solution invariants.

use dex_driver::account_state::AccountState;
use dex_driver::models::{Address, ExecutedOrder, Fee, Order, Solution};
use dex_driver::solver::{executed_sell_amount, NaiveSolver, BASE_PRICE, BASE_UNIT};
use dex_driver::wide_math::{mul_div_floor, mul_le};

fn order_to_executed_order(order: &Order, sell_amount: u128, buy_amount: u128) -> ExecutedOrder {
    ExecutedOrder {
        account_id: order.account_id,
        order_id: order.id,
        buy_amount,
        sell_amount,
    }
}

fn fee_with_ratio(token: u16, ratio: f64) -> Fee {
    Fee {
        token,
        denominator: (1.0 / ratio) as u128,
    }
}

fn order_pair_first_fully_matching_second() -> Vec<Order> {
    vec![
        Order {
            id: 0,
            account_id: Address::from_low_u64_be(1),
            sell_token: 0,
            buy_token: 1,
            sell_amount: 52 * BASE_UNIT,
            buy_amount: 4 * BASE_UNIT,
        },
        Order {
            id: 0,
            account_id: Address::from_low_u64_be(0),
            sell_token: 1,
            buy_token: 0,
            sell_amount: 15 * BASE_UNIT,
            buy_amount: 180 * BASE_UNIT,
        },
    ]
}

fn order_pair_both_fully_matched() -> Vec<Order> {
    vec![
        Order {
            id: 0,
            account_id: Address::from_low_u64_be(1),
            sell_token: 2,
            buy_token: 1,
            sell_amount: 10 * BASE_UNIT,
            buy_amount: 10 * BASE_UNIT,
        },
        Order {
            id: 1,
            account_id: Address::from_low_u64_be(1),
            sell_token: 1,
            buy_token: 2,
            sell_amount: 16 * BASE_UNIT,
            buy_amount: 8 * BASE_UNIT,
        },
    ]
}

fn check_solution(orders: &[Order], solution: Solution, fee: &Option<Fee>) -> Result<(), String> {
    if !solution.is_non_trivial() {
        // Trivial solutions are always fine.
        return Ok(());
    }

    if let Some(fee) = fee {
        if solution.price(fee.token).unwrap_or_default() != BASE_PRICE {
            return Err("price of fee token does not match the base price".to_string());
        }
    }

    let mut token_conservation: Vec<(u16, i128)> = Vec::new();
    for (i, order) in orders.iter().enumerate() {
        let buy_token_price = solution.price(order.buy_token).unwrap_or(0);
        let sell_token_price = solution.price(order.sell_token).unwrap_or(0);

        let exec_buy_amount = solution
            .executed_orders
            .iter()
            .find(|executed_order| {
                executed_order.account_id == order.account_id
                    && executed_order.order_id == order.id
            })
            .map(|executed_order| executed_order.buy_amount)
            .unwrap_or(0);
        let exec_sell_amount = if sell_token_price > 0 {
            if let Some(fee) = fee {
                executed_sell_amount(
                    fee.denominator,
                    exec_buy_amount,
                    buy_token_price,
                    sell_token_price,
                )
                .expect("recomputed sell amount overflows")
            } else {
                mul_div_floor(exec_buy_amount, buy_token_price, sell_token_price)
                    .expect("recomputed sell amount overflows")
            }
        } else {
            0
        };

        if exec_sell_amount > order.sell_amount {
            return Err(format!(
                "executed sell amount for order {} bigger than allowed",
                i
            ));
        }

        // limit: exec_sell * buy_amount <= exec_buy * sell_amount
        if !mul_le(
            exec_sell_amount,
            order.buy_amount,
            exec_buy_amount,
            order.sell_amount,
        ) {
            return Err(format!("limit price for order {} not satisfied", i));
        }

        bump(&mut token_conservation, order.buy_token, exec_buy_amount as i128);
        bump(&mut token_conservation, order.sell_token, -(exec_sell_amount as i128));
    }

    for (token_id, _) in solution.prices.iter() {
        let balance = token_conservation
            .iter()
            .find(|(t, _)| t == token_id)
            .map(|(_, v)| *v)
            .unwrap_or(0);
        let is_fee = fee.as_ref().map(|f| f.token == *token_id).unwrap_or(false);
        if balance != 0 && !is_fee {
            return Err(format!("token balance of token {} not 0", token_id));
        }
    }
    Ok(())
}

fn bump(acc: &mut Vec<(u16, i128)>, token: u16, delta: i128) {
    for entry in acc.iter_mut() {
        if entry.0 == token {
            entry.1 += delta;
            return;
        }
    }
    acc.push((token, delta));
}

#[test]
fn test_type_left_fully_matched_no_fee() {
    let orders = order_pair_first_fully_matching_second();
    let state = AccountState::with_balance_for(&orders);

    let solver = NaiveSolver::new(None);
    let res = solver.find_prices(&orders, &state);

    assert_eq!(
        vec![
            order_to_executed_order(&orders[0], 52 * BASE_UNIT, 4 * BASE_UNIT),
            order_to_executed_order(&orders[1], 4 * BASE_UNIT, 52 * BASE_UNIT),
        ],
        res.executed_orders
    );
    assert_eq!(4 * BASE_UNIT, res.price(0).unwrap());
    assert_eq!(52 * BASE_UNIT, res.price(1).unwrap());

    check_solution(&orders, res, &None).unwrap();
}

#[test]
fn test_type_left_fully_matched_with_fee() {
    let orders = order_pair_first_fully_matching_second();
    let state = AccountState::with_balance_for(&orders);
    let fee = Some(fee_with_ratio(0, 0.001));

    let solver = NaiveSolver::new(fee.clone());
    let res = solver.find_prices(&orders, &state);
    check_solution(&orders, res, &fee).unwrap();
}

#[test]
fn test_type_right_fully_matched_no_fee() {
    let mut orders = order_pair_first_fully_matching_second();
    orders.reverse();
    let state = AccountState::with_balance_for(&orders);

    let solver = NaiveSolver::new(None);
    let res = solver.find_prices(&orders, &state);

    assert_eq!(
        vec![
            order_to_executed_order(&orders[0], 4 * BASE_UNIT, 52 * BASE_UNIT),
            order_to_executed_order(&orders[1], 52 * BASE_UNIT, 4 * BASE_UNIT),
        ],
        res.executed_orders
    );
    assert_eq!(4 * BASE_UNIT, res.price(0).unwrap());
    assert_eq!(52 * BASE_UNIT, res.price(1).unwrap());

    check_solution(&orders, res, &None).unwrap();
}

#[test]
fn test_type_right_fully_matched_with_fee() {
    let mut orders = order_pair_first_fully_matching_second();
    orders.reverse();
    let state = AccountState::with_balance_for(&orders);
    let fee = Some(fee_with_ratio(0, 0.001));

    let solver = NaiveSolver::new(fee.clone());
    let res = solver.find_prices(&orders, &state);
    check_solution(&orders, res, &fee).unwrap();
}

#[test]
fn test_type_both_fully_matched_no_fee() {
    let orders = order_pair_both_fully_matched();
    let state = AccountState::with_balance_for(&orders);

    let solver = NaiveSolver::new(None);
    let res = solver.find_prices(&orders, &state);

    assert_eq!(
        vec![
            order_to_executed_order(&orders[0], 10 * BASE_UNIT, 16 * BASE_UNIT),
            order_to_executed_order(&orders[1], 16 * BASE_UNIT, 10 * BASE_UNIT),
        ],
        res.executed_orders
    );
    assert_eq!(10 * BASE_UNIT, res.price(1).unwrap());
    assert_eq!(16 * BASE_UNIT, res.price(2).unwrap());

    check_solution(&orders, res, &None).unwrap();
}

#[test]
fn test_type_both_fully_matched_with_fee() {
    let orders = order_pair_both_fully_matched();
    let state = AccountState::with_balance_for(&orders);
    let fee = Some(fee_with_ratio(2, 0.001));
    let solver = NaiveSolver::new(fee.clone());
    let res = solver.find_prices(&orders, &state);
    check_solution(&orders, res, &fee).unwrap();
}

#[test]
fn test_retreth_example() {
    let orders = vec![
        Order {
            id: 0,
            account_id: Address::from_low_u64_be(0),
            sell_token: 3,
            buy_token: 2,
            sell_amount: 12,
            buy_amount: 12,
        },
        Order {
            id: 0,
            account_id: Address::from_low_u64_be(1),
            sell_token: 2,
            buy_token: 3,
            sell_amount: 20,
            buy_amount: 22,
        },
        Order {
            id: 0,
            account_id: Address::from_low_u64_be(2),
            sell_token: 3,
            buy_token: 1,
            sell_amount: 10,
            buy_amount: 150,
        },
        Order {
            id: 0,
            account_id: Address::from_low_u64_be(3),
            sell_token: 2,
            buy_token: 1,
            sell_amount: 15,
            buy_amount: 180,
        },
        Order {
            id: 0,
            account_id: Address::from_low_u64_be(4),
            sell_token: 1,
            buy_token: 2,
            sell_amount: 52,
            buy_amount: 4,
        },
        Order {
            id: 0,
            account_id: Address::from_low_u64_be(5),
            sell_token: 1,
            buy_token: 3,
            sell_amount: 280,
            buy_amount: 20,
        },
    ];
    let state = AccountState::with_balance_for(&orders);

    let solver = NaiveSolver::new(None);
    let res = solver.find_prices(&orders, &state);

    assert_eq!(
        vec![
            order_to_executed_order(&orders[3], 4, 52),
            order_to_executed_order(&orders[4], 52, 4),
        ],
        res.executed_orders
    );
    assert_eq!(4, res.price(1).unwrap());
    assert_eq!(52, res.price(2).unwrap());

    check_solution(&orders, res, &None).unwrap();
}

#[test]
fn test_insufficient_balance() {
    const NUM_TOKENS: u16 = 10;
    let state = AccountState::new(vec![0; (NUM_TOKENS * 2) as usize], NUM_TOKENS);
    let orders = vec![
        Order {
            id: 0,
            account_id: Address::from_low_u64_be(1),
            sell_token: 1,
            buy_token: 2,
            sell_amount: 52,
            buy_amount: 4,
        },
        Order {
            id: 0,
            account_id: Address::from_low_u64_be(0),
            sell_token: 2,
            buy_token: 1,
            sell_amount: 15,
            buy_amount: 180,
        },
    ];

    let solver = NaiveSolver::new(None);
    let res = solver.find_prices(&orders, &state);
    assert!(!res.is_non_trivial());
}

#[test]
fn test_no_matches() {
    let orders = vec![
        Order {
            id: 0,
            account_id: Address::from_low_u64_be(1),
            sell_token: 1,
            buy_token: 2,
            sell_amount: 52,
            buy_amount: 4,
        },
        Order {
            id: 0,
            account_id: Address::from_low_u64_be(0),
            sell_token: 2,
            buy_token: 1,
            sell_amount: 10,
            buy_amount: 180,
        },
    ];
    let state = AccountState::with_balance_for(&orders);

    let solver = NaiveSolver::new(None);
    let res = solver.find_prices(&orders, &state);
    assert!(!res.is_non_trivial());
}

#[test]
fn test_stablex_contract_example() {
    let orders = vec![
        Order {
            id: 0,
            account_id: Address::from_low_u64_be(0),
            sell_token: 0,
            buy_token: 1,
            sell_amount: 20000,
            buy_amount: 9990,
        },
        Order {
            id: 1,
            account_id: Address::from_low_u64_be(0),
            sell_token: 1,
            buy_token: 0,
            sell_amount: 9990,
            buy_amount: 19960,
        },
    ];
    let state = AccountState::with_balance_for(&orders);

    let fee = Some(fee_with_ratio(0, 0.001));
    let solver = NaiveSolver::new(fee.clone());
    let res = solver.find_prices(&orders, &state);

    assert_eq!(
        vec![
            order_to_executed_order(&orders[0], 20000, 9990),
            order_to_executed_order(&orders[1], 9990, 19961),
        ],
        res.executed_orders
    );
    assert_eq!(res.price(0).unwrap(), BASE_PRICE);
    assert_eq!(res.price(1).unwrap(), BASE_PRICE * 2);

    check_solution(&orders, res, &fee).unwrap();
}

#[test]
fn stablex_e2e_auction() {
    let users = [Address::from_low_u64_be(0), Address::from_low_u64_be(1)];
    let state = {
        let mut state = AccountState::default();
        state.increase_balance(users[0], 0, 3000 * BASE_UNIT);
        state.increase_balance(users[1], 1, 3000 * BASE_UNIT);
        state
    };
    let orders = vec![
        Order {
            id: 0,
            account_id: users[0],
            sell_token: 0,
            buy_token: 1,
            sell_amount: 2000 * BASE_UNIT,
            buy_amount: 999 * BASE_UNIT,
        },
        Order {
            id: 0,
            account_id: users[1],
            sell_token: 1,
            buy_token: 0,
            sell_amount: 999 * BASE_UNIT,
            buy_amount: 1996 * BASE_UNIT,
        },
    ];

    let fee = Some(fee_with_ratio(0, 0.001));
    let solver = NaiveSolver::new(fee.clone());
    let res = solver.find_prices(&orders, &state);

    assert!(res.is_non_trivial());
    check_solution(&orders, res, &fee).unwrap();
}

#[test]
fn test_does_not_trade_non_fee_tokens() {
    let orders = vec![
        Order {
            id: 0,
            account_id: Address::from_low_u64_be(0),
            sell_token: 0,
            buy_token: 1,
            sell_amount: 20000,
            buy_amount: 9990,
        },
        Order {
            id: 0,
            account_id: Address::from_low_u64_be(0),
            sell_token: 1,
            buy_token: 0,
            sell_amount: 9990,
            buy_amount: 19960,
        },
    ];
    let state = AccountState::with_balance_for(&orders);

    let fee = Some(fee_with_ratio(2, 0.001));
    let solver = NaiveSolver::new(fee);
    let res = solver.find_prices(&orders, &state);
    assert!(!res.is_non_trivial());
}

#[test]
fn test_empty_orders() {
    let orders: Vec<Order> = vec![];
    let state = AccountState::with_balance_for(&orders);

    let solver = NaiveSolver::new(None);
    let res = solver.find_prices(&orders, &state);
    assert_eq!(res, Solution::trivial());
}

#[test]
fn test_empty_sell_volume() {
    let orders = vec![
        Order {
            id: 0,
            account_id: Address::from_low_u64_be(0),
            sell_token: 0,
            buy_token: 1,
            sell_amount: 0,
            buy_amount: 0,
        },
        Order {
            id: 0,
            account_id: Address::from_low_u64_be(0),
            sell_token: 1,
            buy_token: 0,
            sell_amount: 0,
            buy_amount: 0,
        },
    ];
    let state = AccountState::with_balance_for(&orders);

    let solver = NaiveSolver::new(None);
    let res = solver.find_prices(&orders, &state);
    assert!(!res.is_non_trivial());
}

#[test]
fn test_match_and_unmatchable_order() {
    let fee = Some(fee_with_ratio(0, 0.5));
    let orders = vec![
        Order {
            id: 0,
            account_id: Address::from_low_u64_be(0),
            sell_token: 0,
            buy_token: 1,
            sell_amount: 20 * BASE_UNIT,
            buy_amount: 10 * BASE_UNIT,
        },
        Order {
            id: 1,
            account_id: Address::from_low_u64_be(1),
            sell_token: 1,
            buy_token: 0,
            sell_amount: 10 * BASE_UNIT,
            buy_amount: 5 * BASE_UNIT,
        },
        Order {
            id: 2,
            account_id: Address::from_low_u64_be(2),
            sell_token: 0,
            buy_token: 2,
            sell_amount: BASE_UNIT,
            buy_amount: BASE_UNIT,
        },
    ];
    let state = AccountState::with_balance_for(&orders);

    let solver = NaiveSolver::new(fee.clone());
    let res = solver.find_prices(&orders, &state);
    check_solution(&orders, res, &fee).unwrap();
}

#[test]
fn test_multiple_matches() {
    let fee = Some(fee_with_ratio(0, 0.5));
    let orders = vec![
        Order {
            id: 0,
            account_id: Address::from_low_u64_be(0),
            sell_token: 0,
            buy_token: 1,
            sell_amount: 20 * BASE_UNIT,
            buy_amount: 10 * BASE_UNIT,
        },
        Order {
            id: 1,
            account_id: Address::from_low_u64_be(1),
            sell_token: 1,
            buy_token: 0,
            sell_amount: 10 * BASE_UNIT,
            buy_amount: 5 * BASE_UNIT,
        },
        Order {
            id: 2,
            account_id: Address::from_low_u64_be(2),
            sell_token: 0,
            buy_token: 2,
            sell_amount: 20 * BASE_UNIT,
            buy_amount: 10 * BASE_UNIT,
        },
        Order {
            id: 3,
            account_id: Address::from_low_u64_be(3),
            sell_token: 2,
            buy_token: 0,
            sell_amount: 10 * BASE_UNIT,
            buy_amount: 5 * BASE_UNIT,
        },
    ];
    let state = AccountState::with_balance_for(&orders);

    let solver = NaiveSolver::new(fee.clone());
    let res = solver.find_prices(&orders, &state);
    check_solution(&orders, res, &fee).unwrap();
}
