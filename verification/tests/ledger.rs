//! The ledger sweep and the per-day query on the assembled database.

use home_accounting_db::accounts::{Account, Accounts};
use home_accounting_db::db::{HomeAccountingDB, MonthIndex, MONTH_KEY_CAPACITY};
use home_accounting_db::errors::DbError;
use home_accounting_db::finance::{FinanceOperation, FinanceRecord};
use home_accounting_db::subcategories::{
    Categories, Subcategories, Subcategory, SubcategoryCode, SubcategoryOperationCode,
};
use home_accounting_db::time_series::{DatedSource, FileInfo, FileWithDate, TimeSeriesData};

struct MainSource;

impl DatedSource<FinanceRecord> for MainSource {
    fn load(&mut self, _files: Vec<FileWithDate>) -> Result<FinanceRecord, DbError> {
        Ok(FinanceRecord::new(Vec::new()))
    }

    fn parse_date(&self, _info: &FileInfo) -> Result<usize, DbError> {
        panic!("parse_date is not used here")
    }

    fn save(&mut self, _data: &FinanceRecord, _path: &String, _date: usize) -> Result<(), DbError> {
        Ok(())
    }

    fn get_files(&mut self, _path: &String, _date: usize) -> Result<Vec<FileWithDate>, DbError> {
        Ok(Vec::new())
    }
}

fn accounts_fixture() -> Accounts {
    Accounts::from_accounts(vec![
        Account {
            id: 1,
            name: "A".to_string(),
            currency: "USD".to_string(),
            active_to: None,
            cash_account: None,
        },
        Account {
            id: 2,
            name: "B".to_string(),
            currency: "EUR".to_string(),
            active_to: None,
            cash_account: None,
        },
    ])
    .unwrap()
}

fn subcategories_fixture() -> Subcategories {
    let mk = |id: u64, op: SubcategoryOperationCode| Subcategory {
        id,
        name: "s".to_string(),
        code: SubcategoryCode::NoCode,
        operation_code: op,
        category: 1,
    };
    Subcategories::from_vec(vec![
        mk(10, SubcategoryOperationCode::Incm),
        mk(11, SubcategoryOperationCode::Expn),
    ])
}

fn op(date: usize, account: u64, subcategory: u64, summa: i64) -> FinanceOperation {
    FinanceOperation {
        date,
        account,
        subcategory,
        amount: None,
        summa,
        parameters: Vec::new(),
    }
}

fn db_with_records(
    records: Vec<(usize, FinanceRecord)>,
) -> HomeAccountingDB<MainSource> {
    let mut cache = TimeSeriesData::new(
        String::new(),
        MainSource,
        MonthIndex,
        500,
        MONTH_KEY_CAPACITY,
    );
    for (key, rec) in records {
        cache.add(key, rec, false).unwrap();
    }
    HomeAccountingDB::from_components(
        cache,
        accounts_fixture(),
        Categories::from_vec(Vec::new()),
        subcategories_fixture(),
    )
}

#[test]
fn totals_sweep_propagates_closing_balances() {
    // Three buckets with closing balances {A: 100}, {A: 150, B: -20}
    // and {A: 150, B: -20}.
    let b1 = FinanceRecord::new(vec![op(101, 1, 10, 100)]);
    let b2 = FinanceRecord::new(vec![op(201, 1, 10, 50), op(202, 2, 11, 20)]);
    let b3 = FinanceRecord::new(Vec::new());
    let mut db = db_with_records(vec![(1, b1), (2, b2), (3, b3)]);

    db.build_totals(0).unwrap();

    let t1 = &db.cache().payload_ref(1).totals;
    assert_eq!(t1.len(), 0);
    let t2 = &db.cache().payload_ref(2).totals;
    assert_eq!(t2.get(1), Some(&100));
    assert_eq!(t2.get(2), None);
    let t3 = &db.cache().payload_ref(3).totals;
    assert_eq!(t3.get(1), Some(&150));
    assert_eq!(t3.get(2), Some(&-20));
}

#[test]
fn ops_and_changes_split_the_day() {
    // One bucket in month 1 with operations before and on day 115.
    let rec = FinanceRecord::new(vec![
        op(110, 1, 10, 100),
        op(115, 1, 10, 50),
        op(115, 2, 11, 25),
    ]);
    let mut db = db_with_records(vec![(1, rec)]);

    let (ops, changes) = db.build_ops_and_changes(115).unwrap();
    assert_eq!(ops.len(), 2);
    assert_eq!(ops[0].summa, 50);
    assert_eq!(ops[1].summa, 25);
    let entries = changes.entries();
    assert_eq!(entries.len(), 2);
    // Account 1 opens at the pre-day balance of 100 and gains 50.
    assert_eq!(entries[0].0, 1);
    assert_eq!(entries[0].1.start_balance, 100);
    assert_eq!(entries[0].1.income, 50);
    assert_eq!(entries[0].1.get_end_balance().unwrap(), 150);
    // Account 2 only spends on the day itself.
    assert_eq!(entries[1].0, 2);
    assert_eq!(entries[1].1.start_balance, 0);
    assert_eq!(entries[1].1.expenditure, 25);
}

#[test]
fn ops_and_changes_for_uncovered_date_are_empty() {
    let rec = FinanceRecord::new(vec![op(501, 1, 10, 100)]);
    let mut db = db_with_records(vec![(5, rec)]);
    let (ops, changes) = db.build_ops_and_changes(499).unwrap();
    assert!(ops.is_empty());
    assert!(changes.entries().is_empty());
}

#[test]
fn migrate_saves_every_known_bucket() {
    struct RecordingDest {
        saved: Vec<usize>,
    }

    impl DatedSource<FinanceRecord> for RecordingDest {
        fn load(&mut self, _files: Vec<FileWithDate>) -> Result<FinanceRecord, DbError> {
            panic!("load is not used here")
        }

        fn parse_date(&self, _info: &FileInfo) -> Result<usize, DbError> {
            panic!("parse_date is not used here")
        }

        fn save(
            &mut self,
            _data: &FinanceRecord,
            _path: &String,
            date: usize,
        ) -> Result<(), DbError> {
            self.saved.push(date);
            Ok(())
        }

        fn get_files(&mut self, _path: &String, _date: usize) -> Result<Vec<FileWithDate>, DbError> {
            Ok(Vec::new())
        }
    }

    let mut db = db_with_records(vec![
        (2, FinanceRecord::new(Vec::new())),
        (9, FinanceRecord::new(Vec::new())),
    ]);
    let mut dest = RecordingDest { saved: Vec::new() };
    db.migrate("dest".to_string(), &mut dest).unwrap();
    assert_eq!(dest.saved, vec![2, 9]);
}
