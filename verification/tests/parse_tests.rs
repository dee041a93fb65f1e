use chain_demo::bandit::{IndexSelectionBandit, QueryCost};
use chain_demo::block::IndexConfig;
use chain_demo::bandit::{convert_to_normalized_matrix, holt_linear_exponential_smoothing};
use chain_demo::block::{parse_attribute, Attribute};
use chain_demo::errors::ChainError;
use chain_demo::intra::parse_u64;

#[test]
fn decimal_parsing_accepts_exactly_fitting_digits() {
    assert_eq!(parse_u64(&b"0".to_vec()), Some(0));
    assert_eq!(parse_u64(&b"42".to_vec()), Some(42));
    assert_eq!(parse_u64(&b"0042".to_vec()), Some(42));
    assert_eq!(parse_u64(&b"18446744073709551615".to_vec()), Some(u64::MAX));
    assert_eq!(parse_u64(&b"18446744073709551616".to_vec()), None);
    assert_eq!(parse_u64(&b"00000000000000000000042".to_vec()), Some(42));
    assert_eq!(parse_u64(&b"".to_vec()), None);
    assert_eq!(parse_u64(&b"12a".to_vec()), None);
    assert_eq!(parse_u64(&b"-5".to_vec()), None);
}

#[test]
fn attribute_parsing_covers_the_fixed_set() {
    assert!(matches!(parse_attribute(&b"id".to_vec()), Ok(Attribute::Id)));
    assert!(matches!(parse_attribute(&b"address".to_vec()), Ok(Attribute::Address)));
    assert!(matches!(parse_attribute(&b"value".to_vec()), Ok(Attribute::Value)));
    assert!(matches!(parse_attribute(&b"timestamp".to_vec()), Ok(Attribute::Timestamp)));
    assert_eq!(parse_attribute(&b"rumour".to_vec()).unwrap_err(), ChainError::UnknownAttribute);
}

#[test]
fn gradient_descent_rejects_bad_inputs() {
    let qc = QueryCost { n_pages: 0, c_page: 0, c_tuple_micro: 100, n_total_tuple: 10 };
    let observed: Vec<u64> = vec![5, 6, 7];
    let none: Vec<u64> = Vec::new();
    assert_eq!(
        qc.gradient_descent(0, 500000, 0, 3, &observed).unwrap_err(),
        ChainError::InvalidLearningRate
    );
    assert_eq!(
        qc.gradient_descent(0, 500000, 2000000, 3, &observed).unwrap_err(),
        ChainError::InvalidLearningRate
    );
    assert_eq!(
        qc.gradient_descent(0, 500000, 1000, 3, &none).unwrap_err(),
        ChainError::NoObservations
    );
    assert_eq!(
        qc.batch_gradient(0, 500000, &none).unwrap_err(),
        ChainError::NoObservations
    );
    assert!(qc.gradient_descent(0, 500000, 1000, 3, &observed).is_ok());
}

#[test]
fn cost_formula_is_exact_in_micro_units() {
    // lambda zero makes the page term vanish; the tuple term is
    // c_tuple * sigma * tuples, all in millionths.
    let qc = QueryCost { n_pages: 9, c_page: 11, c_tuple_micro: 100, n_total_tuple: 10 };
    assert_eq!(qc.cost(0, 500000), 100 * 500000 * 10 / 1000000);
}

#[test]
fn normalization_splits_rows_into_shares() {
    let counter = vec![vec![1, 1, 2], vec![0, 0, 0]];
    let m = convert_to_normalized_matrix(&counter, 3);
    assert_eq!(m.len(), 2);
    assert_eq!(m[0], vec![250000, 250000, 500000]);
    assert_eq!(m[1], vec![0, 0, 0]);
}

#[test]
fn short_matrices_forecast_their_last_row() {
    let m = vec![vec![7u64, 9u64]];
    let f = holt_linear_exponential_smoothing(&m);
    assert_eq!(f.len(), 1);
    // A single row feeds the fold itself; the forecast stays finite
    // and nonnegative.
    assert!(f[0] <= u64::MAX);
}

#[test]
fn bandit_refuses_an_unaffordable_budget() {
    let bandit = IndexSelectionBandit {
        arms: vec![IndexConfig {
            performance: 10,
            storage_cost: 1000,
            block_height: 0,
            attribute: Attribute::Id,
        }],
        temperature_milli: 300,
        budget: 10,
    };
    let freq = vec![500000u64];
    assert_eq!(bandit.choose_arm(&freq).unwrap_err(), ChainError::BudgetTooSmall);
}

#[test]
fn bandit_selects_only_admissible_arms() {
    let affordable = IndexConfig {
        performance: 10,
        storage_cost: 5,
        block_height: 0,
        attribute: Attribute::Id,
    };
    let out_of_range = IndexConfig {
        performance: 10,
        storage_cost: 5,
        block_height: 9,
        attribute: Attribute::Value,
    };
    let bandit = IndexSelectionBandit {
        arms: vec![affordable, out_of_range],
        temperature_milli: 300,
        budget: 100,
    };
    let freq = vec![500000u64];
    let sel = bandit.choose_arm(&freq).unwrap();
    assert!(sel.len() >= 1);
    for arm in sel.iter() {
        assert_eq!(arm.block_height, 0);
        assert!(matches!(arm.attribute, Attribute::Id));
    }
}

#[test]
fn selection_is_drawn_without_replacement() {
    let arms: Vec<IndexConfig> = (0..4u64)
        .map(|i| IndexConfig {
            performance: 10 + i,
            storage_cost: 1,
            block_height: 0,
            attribute: Attribute::Id,
        })
        .collect();
    let bandit = IndexSelectionBandit { arms, temperature_milli: 1000, budget: 100 };
    let freq = vec![500000u64];
    let sel = bandit.choose_arm(&freq).unwrap();
    // The budget never runs out, so every candidate is drawn exactly
    // once, whatever order the draws took.
    assert_eq!(sel.len(), 4);
    let mut perfs: Vec<u64> = sel.iter().map(|a| a.performance).collect();
    perfs.sort();
    assert_eq!(perfs, vec![10, 11, 12, 13]);
}
