use metaboss::editions::find_missing_editions;
use metaboss::fees::{
    calculate_priority_fees, calculate_units_consumed, priority_fee_lamports, SimulationError,
};
use metaboss::tokens::{
    largest_token_account_address, JRpcResponse, TokenAccount, TokenAccountError,
    TokenExtrasInstruction,
};

fn account(address: &str, amount: &str) -> TokenAccount {
    TokenAccount { address: String::from(address), amount: String::from(amount) }
}

#[test]
fn no_editions_means_nothing_missing() {
    let nums: Vec<u64> = vec![];
    assert!(find_missing_editions(&nums).is_empty());
}

#[test]
fn contiguous_editions_have_no_gaps() {
    let nums: Vec<u64> = vec![1, 2, 3];
    assert!(find_missing_editions(&nums).is_empty());
}

#[test]
fn gaps_are_reported_in_increasing_order() {
    let nums: Vec<u64> = vec![3, 1, 7];
    assert_eq!(find_missing_editions(&nums), vec![2, 4, 5, 6]);
}

#[test]
fn all_below_the_only_edition_are_missing() {
    let nums: Vec<u64> = vec![5];
    assert_eq!(find_missing_editions(&nums), vec![1, 2, 3, 4]);
}

#[test]
fn priority_fee_lamports_has_a_floor_of_one() {
    assert_eq!(priority_fee_lamports(0, 500_000), 1);
    assert_eq!(priority_fee_lamports(2, 600_000), 1);
    assert_eq!(priority_fee_lamports(10, 600_000), 6);
}

#[test]
fn priority_fee_pads_compute_and_floors_fee() {
    let low = calculate_priority_fees(0, 0);
    assert_eq!(low.compute, 20_000);
    assert_eq!(low.fee, 70);
    let high = calculate_priority_fees(500, 80_000);
    assert_eq!(high.compute, 100_000);
    assert_eq!(high.fee, 500);
}

#[test]
fn units_consumed_narrows_or_errors() {
    assert_eq!(calculate_units_consumed(Some(5)), Ok(5));
    assert_eq!(calculate_units_consumed(Some(4_294_967_303)), Ok(7));
    assert_eq!(
        calculate_units_consumed(None),
        Err(SimulationError::MissingUnitsConsumed)
    );
}

#[test]
fn unique_one_token_account_is_selected() {
    let resp = JRpcResponse {
        value: vec![account("addr-a", "0"), account("addr-b", "1"), account("addr-c", "2")],
    };
    assert_eq!(largest_token_account_address(&resp).as_deref(), Ok("addr-b"));
}

#[test]
fn several_one_token_accounts_are_rejected() {
    let resp = JRpcResponse { value: vec![account("addr-a", "1"), account("addr-b", "1")] };
    assert_eq!(
        largest_token_account_address(&resp),
        Err(TokenAccountError::MultipleOneTokenAccounts)
    );
}

#[test]
fn no_one_token_account_is_rejected() {
    let resp = JRpcResponse { value: vec![account("addr-a", "0"), account("addr-b", "3")] };
    assert_eq!(
        largest_token_account_address(&resp),
        Err(TokenAccountError::NoOneTokenAccounts)
    );
}

#[test]
fn create_token_if_missing_serializes_to_one_byte() {
    let data = TokenExtrasInstruction::CreateTokenIfMissing.instruction_data();
    assert_eq!(data, vec![0u8]);
}
