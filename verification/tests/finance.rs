//! Operation semantics: how operations change a balance sheet.

use home_accounting_db::accounts::{Account, Accounts};
use home_accounting_db::errors::DbErrorKind;
use home_accounting_db::finance::{FinOpParameter, FinanceChange, FinanceChanges, FinanceOperation, FinanceRecord};
use home_accounting_db::finance::parameter_from_parts;
use home_accounting_db::subcategories::{
    Subcategories, Subcategory, SubcategoryCode, SubcategoryOperationCode,
};

fn accounts_fixture() -> Accounts {
    // Account 1 is the USD cash account; account 3 routes to it.
    Accounts::from_accounts(vec![
        Account {
            id: 1,
            name: "wallet".to_string(),
            currency: "USD".to_string(),
            active_to: None,
            cash_account: None,
        },
        Account {
            id: 3,
            name: "card".to_string(),
            currency: "USD".to_string(),
            active_to: None,
            cash_account: Some(0),
        },
    ])
    .unwrap()
}

fn subcategories_fixture() -> Subcategories {
    let mk = |id: u64, code: SubcategoryCode, op: SubcategoryOperationCode| Subcategory {
        id,
        name: "s".to_string(),
        code,
        operation_code: op,
        category: 1,
    };
    Subcategories::from_vec(vec![
        mk(10, SubcategoryCode::NoCode, SubcategoryOperationCode::Incm),
        mk(11, SubcategoryCode::NoCode, SubcategoryOperationCode::Expn),
        mk(12, SubcategoryCode::Incc, SubcategoryOperationCode::Spcl),
        mk(13, SubcategoryCode::Expc, SubcategoryOperationCode::Spcl),
        mk(14, SubcategoryCode::Exch, SubcategoryOperationCode::Spcl),
        mk(15, SubcategoryCode::Trfr, SubcategoryOperationCode::Spcl),
        mk(16, SubcategoryCode::Comb, SubcategoryOperationCode::Spcl),
    ])
}

fn op(account: u64, subcategory: u64, summa: i64) -> FinanceOperation {
    FinanceOperation {
        date: 100,
        account,
        subcategory,
        amount: None,
        summa,
        parameters: Vec::new(),
    }
}

fn entry(ch: &FinanceChanges, account: u64) -> FinanceChange {
    for e in ch.entries() {
        if e.0 == account {
            return e.1;
        }
    }
    panic!("account has no entry");
}

#[test]
fn income_operation_adds_income() {
    let accounts = accounts_fixture();
    let subs = subcategories_fixture();
    let mut ch = FinanceChanges::empty();
    op(1, 10, 250).apply(&mut ch, &accounts, &subs).unwrap();
    let e = entry(&ch, 1);
    assert_eq!(e.start_balance, 0);
    assert_eq!(e.income, 250);
    assert_eq!(e.expenditure, 0);
    assert_eq!(e.get_end_balance().unwrap(), 250);
}

#[test]
fn expenditure_operation_adds_expenditure() {
    let accounts = accounts_fixture();
    let subs = subcategories_fixture();
    let mut ch = FinanceChanges::empty();
    op(1, 11, 70).apply(&mut ch, &accounts, &subs).unwrap();
    let e = entry(&ch, 1);
    assert_eq!(e.expenditure, 70);
    assert_eq!(e.get_end_balance().unwrap(), -70);
}

#[test]
fn incc_routes_cash_to_cash_account() {
    let accounts = accounts_fixture();
    let subs = subcategories_fixture();
    let mut ch = FinanceChanges::empty();
    op(3, 12, 500).apply(&mut ch, &accounts, &subs).unwrap();
    assert_eq!(entry(&ch, 3).income, 500);
    assert_eq!(entry(&ch, 1).expenditure, 500);
}

#[test]
fn incc_on_cash_account_skips_routing() {
    let accounts = accounts_fixture();
    let subs = subcategories_fixture();
    let mut ch = FinanceChanges::empty();
    op(1, 12, 500).apply(&mut ch, &accounts, &subs).unwrap();
    assert_eq!(entry(&ch, 1).income, 500);
    assert_eq!(entry(&ch, 1).expenditure, 0);
}

#[test]
fn expc_routes_cash_back() {
    let accounts = accounts_fixture();
    let subs = subcategories_fixture();
    let mut ch = FinanceChanges::empty();
    op(3, 13, 200).apply(&mut ch, &accounts, &subs).unwrap();
    assert_eq!(entry(&ch, 3).expenditure, 200);
    assert_eq!(entry(&ch, 1).income, 200);
}

#[test]
fn trfr_moves_summa_to_seca_target() {
    let accounts = accounts_fixture();
    let subs = subcategories_fixture();
    let mut ch = FinanceChanges::empty();
    let mut o = op(1, 15, 300);
    o.parameters = vec![FinOpParameter::Seca(3)];
    o.apply(&mut ch, &accounts, &subs).unwrap();
    assert_eq!(entry(&ch, 1).expenditure, 300);
    assert_eq!(entry(&ch, 3).income, 300);
}

#[test]
fn trfr_without_seca_only_spends() {
    let accounts = accounts_fixture();
    let subs = subcategories_fixture();
    let mut ch = FinanceChanges::empty();
    op(1, 15, 300).apply(&mut ch, &accounts, &subs).unwrap();
    assert_eq!(entry(&ch, 1).expenditure, 300);
    assert_eq!(ch.entries().len(), 1);
}

#[test]
fn exch_spends_a_tenth_of_amount() {
    let accounts = accounts_fixture();
    let subs = subcategories_fixture();
    let mut ch = FinanceChanges::empty();
    let mut o = op(1, 14, 999);
    o.amount = Some(1000);
    o.parameters = vec![FinOpParameter::Seca(3)];
    o.apply(&mut ch, &accounts, &subs).unwrap();
    assert_eq!(entry(&ch, 1).expenditure, 100);
    assert_eq!(entry(&ch, 3).income, 999);
}

#[test]
fn exch_without_amount_is_a_no_op() {
    let accounts = accounts_fixture();
    let subs = subcategories_fixture();
    let mut ch = FinanceChanges::empty();
    op(1, 14, 999).apply(&mut ch, &accounts, &subs).unwrap();
    assert_eq!(ch.entries().len(), 0);
}

#[test]
fn unknown_subcategory_is_invalid_data() {
    let accounts = accounts_fixture();
    let subs = subcategories_fixture();
    let mut ch = FinanceChanges::empty();
    let e = op(1, 77, 10).apply(&mut ch, &accounts, &subs).unwrap_err();
    assert_eq!(e.get_kind(), DbErrorKind::InvalidData);
}

#[test]
fn invalid_special_code_is_invalid_data() {
    let accounts = accounts_fixture();
    let subs = subcategories_fixture();
    let mut ch = FinanceChanges::empty();
    let e = op(1, 16, 10).apply(&mut ch, &accounts, &subs).unwrap_err();
    assert_eq!(e.get_kind(), DbErrorKind::InvalidData);
    assert_eq!(e.get_message(), "invalid subcategory code");
}

#[test]
fn income_overflow_is_invalid_data() {
    let mut c = FinanceChange::new(0);
    c.handle_income(i64::MAX).unwrap();
    let e = c.handle_income(1).unwrap_err();
    assert_eq!(e.get_kind(), DbErrorKind::InvalidData);
    assert_eq!(c.income, i64::MAX);
}

#[test]
fn end_balance_overflow_is_invalid_data() {
    let mut c = FinanceChange::new(i64::MAX);
    c.handle_income(1).unwrap();
    let e = c.get_end_balance().unwrap_err();
    assert_eq!(e.get_kind(), DbErrorKind::InvalidData);
}

#[test]
fn end_balance_formula() {
    let mut c = FinanceChange::new(1000);
    c.handle_income(50).unwrap();
    c.handle_expenditure(30).unwrap();
    assert_eq!(c.get_end_balance().unwrap(), 1020);
}

#[test]
fn build_totals_reports_end_balances() {
    let accounts = accounts_fixture();
    let subs = subcategories_fixture();
    let mut ch = FinanceChanges::empty();
    op(1, 10, 100).apply(&mut ch, &accounts, &subs).unwrap();
    op(3, 11, 40).apply(&mut ch, &accounts, &subs).unwrap();
    let totals = ch.build_totals().unwrap();
    assert_eq!(totals.get(1), Some(&100));
    assert_eq!(totals.get(3), Some(&-40));
}

#[test]
fn update_changes_filters_by_date() {
    let accounts = accounts_fixture();
    let subs = subcategories_fixture();
    let mut early = op(1, 10, 100);
    early.date = 5;
    let mut late = op(1, 10, 11);
    late.date = 10;
    let record = FinanceRecord::new(vec![early, late]);
    let mut ch = record.create_changes();
    record.update_changes(&mut ch, 0, 9, &accounts, &subs).unwrap();
    assert_eq!(entry(&ch, 1).income, 100);
}

#[test]
fn get_ops_copies_matching_dates() {
    let mut a = op(1, 10, 1);
    a.date = 7;
    let mut b = op(1, 10, 2);
    b.date = 8;
    let mut c = op(1, 10, 3);
    c.date = 7;
    let record = FinanceRecord::new(vec![a, b, c]);
    let ops = record.get_ops(7);
    assert_eq!(ops.len(), 2);
    assert_eq!(ops[0].summa, 1);
    assert_eq!(ops[1].summa, 3);
}

#[test]
fn within_is_inclusive() {
    let mut o = op(1, 10, 1);
    o.date = 7;
    assert!(o.within(7, 7));
    assert!(o.within(0, 10));
    assert!(!o.within(8, 10));
    assert!(!o.within(0, 6));
}

#[test]
fn parameters_decode_by_code_and_shape() {
    assert!(matches!(
        parameter_from_parts(&"SECA".to_string(), Some(9), None),
        Ok(FinOpParameter::Seca(9))
    ));
    assert!(matches!(
        parameter_from_parts(&"NETW".to_string(), None, Some("visa".to_string())),
        Ok(FinOpParameter::Netw(_))
    ));
    let missing = parameter_from_parts(&"AMOU".to_string(), None, None).unwrap_err();
    assert_eq!(missing.get_kind(), DbErrorKind::InvalidData);
    let unknown = parameter_from_parts(&"ZZZZ".to_string(), Some(1), None).unwrap_err();
    assert_eq!(unknown.get_kind(), DbErrorKind::InvalidData);
}
