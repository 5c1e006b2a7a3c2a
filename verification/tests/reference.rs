//! Reference data: accounts, subcategories, categories and the small
//! decoding helpers.

use home_accounting_db::accounts::{Account, Accounts};
use home_accounting_db::common::{date_from_parts, parse_decimal};
use home_accounting_db::errors::{DbError, DbErrorKind};
use home_accounting_db::subcategories::{
    parse_operation_code, parse_subcategory_code, Categories, Category, Subcategories,
    Subcategory, SubcategoryCode, SubcategoryOperationCode,
};
use home_accounting_db::time_series::FileInfo;

fn account(id: u64, currency: &str, cash: Option<u64>) -> Account {
    Account {
        id,
        name: format!("acc{}", id),
        currency: currency.to_string(),
        active_to: None,
        cash_account: cash,
    }
}

#[test]
fn cash_accounts_resolve_to_concrete_ids() {
    let accounts = Accounts::from_accounts(vec![
        account(1, "USD", None),
        account(2, "EUR", None),
        account(3, "USD", Some(0)),
        account(4, "EUR", Some(0)),
    ])
    .unwrap();
    assert_eq!(accounts.get_cash_account(1).unwrap(), None);
    assert_eq!(accounts.get_cash_account(3).unwrap(), Some(1));
    assert_eq!(accounts.get_cash_account(4).unwrap(), Some(2));
}

#[test]
fn missing_cash_account_fails_load() {
    let r = Accounts::from_accounts(vec![account(3, "USD", Some(0))]);
    match r {
        Ok(_) => panic!("resolution should fail"),
        Err(e) => {
            assert_eq!(e.get_kind(), DbErrorKind::InvalidData);
            assert_eq!(e.get_message(), "load - no cash account found");
        }
    }
}

#[test]
fn unknown_account_id_is_invalid_data() {
    let accounts = Accounts::from_accounts(vec![account(1, "USD", None)]).unwrap();
    let e = accounts.get(9).unwrap_err();
    assert_eq!(e.get_kind(), DbErrorKind::InvalidData);
    assert_eq!(accounts.get(1).unwrap().name, "acc1");
    let e2 = accounts.get_cash_account(9).unwrap_err();
    assert_eq!(e2.get_kind(), DbErrorKind::InvalidData);
}

#[test]
fn subcategories_index_by_id() {
    let subs = Subcategories::from_vec(vec![Subcategory {
        id: 5,
        name: "fuel".to_string(),
        code: SubcategoryCode::Fuel,
        operation_code: SubcategoryOperationCode::Expn,
        category: 2,
    }]);
    let s = subs.get(5).unwrap();
    assert_eq!(s.name, "fuel");
    assert_eq!(s.category, 2);
    assert_eq!(subs.get(6).unwrap_err().get_kind(), DbErrorKind::InvalidData);
}

#[test]
fn categories_index_by_id() {
    let cats = Categories::from_vec(vec![
        Category { id: 1, name: "home".to_string() },
        Category { id: 2, name: "car".to_string() },
        Category { id: 1, name: "house".to_string() },
    ]);
    // A later record with the same id replaces the earlier one.
    assert_eq!(cats.get(1).unwrap().name, "house");
    assert_eq!(cats.get(2).unwrap().name, "car");
    assert_eq!(cats.get(3).unwrap_err().get_kind(), DbErrorKind::InvalidData);
}

#[test]
fn subcategory_codes_decode() {
    assert!(matches!(parse_subcategory_code(&None), Ok(SubcategoryCode::NoCode)));
    assert!(matches!(
        parse_subcategory_code(&Some("EXCH".to_string())),
        Ok(SubcategoryCode::Exch)
    ));
    assert!(matches!(
        parse_subcategory_code(&Some("TRFR".to_string())),
        Ok(SubcategoryCode::Trfr)
    ));
    let e = parse_subcategory_code(&Some("XXXX".to_string())).unwrap_err();
    assert_eq!(e.get_kind(), DbErrorKind::InvalidData);
}

#[test]
fn operation_codes_decode() {
    assert!(matches!(
        parse_operation_code(&"INCM".to_string()),
        Ok(SubcategoryOperationCode::Incm)
    ));
    assert!(matches!(
        parse_operation_code(&"SPCL".to_string()),
        Ok(SubcategoryOperationCode::Spcl)
    ));
    let e = parse_operation_code(&"incm".to_string()).unwrap_err();
    assert_eq!(e.get_kind(), DbErrorKind::InvalidData);
}

#[test]
fn dates_pack_into_numbers() {
    assert_eq!(date_from_parts(&Some(vec![2024, 1, 15])).unwrap(), Some(20240115));
    assert_eq!(date_from_parts(&None).unwrap(), None);
    let e = date_from_parts(&Some(vec![2024, 1])).unwrap_err();
    assert_eq!(e.get_kind(), DbErrorKind::InvalidData);
}

#[test]
fn folder_names_parse_as_numbers() {
    let f = FileInfo::new("20240115".to_string(), "x".to_string());
    assert_eq!(f.convert_folder_name_to_number().unwrap(), 20240115);
    let bad = FileInfo::new("20a4".to_string(), "x".to_string());
    assert_eq!(bad.convert_folder_name_to_number().unwrap_err().get_kind(), DbErrorKind::InvalidData);
    let empty = FileInfo::new(String::new(), "x".to_string());
    assert_eq!(empty.convert_folder_name_to_number().unwrap_err().get_kind(), DbErrorKind::InvalidData);
}

#[test]
fn parse_decimal_exact_values() {
    assert_eq!(parse_decimal("0").unwrap(), 0);
    assert_eq!(parse_decimal("910").unwrap(), 910);
    assert!(parse_decimal("99999999999999999999999999").is_err());
    assert!(parse_decimal("-4").is_err());
}

#[test]
fn db_error_carries_kind_and_message() {
    let e = DbError::new(DbErrorKind::Io, "broken pipe".to_string());
    assert_eq!(e.get_kind(), DbErrorKind::Io);
    assert_eq!(e.get_message(), "broken pipe");
}
