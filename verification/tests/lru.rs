//! Behaviour of the bounded LRU bucket cache.

use home_accounting_db::errors::DbError;
use home_accounting_db::time_series::{
    DatedSource, FileInfo, FileWithDate, IdentityIndex, TimeSeriesData,
};

struct TestData;

struct TestDataSource;

impl DatedSource<TestData> for TestDataSource {
    fn load(&mut self, _files: Vec<FileWithDate>) -> Result<TestData, DbError> {
        Ok(TestData)
    }

    fn parse_date(&self, _info: &FileInfo) -> Result<usize, DbError> {
        panic!("parse_date is not used here")
    }

    fn save(&mut self, _data: &TestData, _path: &String, _date: usize) -> Result<(), DbError> {
        panic!("save is not used here")
    }

    fn get_files(&mut self, _path: &String, _date: usize) -> Result<Vec<FileWithDate>, DbError> {
        Ok(Vec::new())
    }
}

/// A source that records which dates were saved, loaded and listed.
struct CountingSource {
    saves: Vec<usize>,
    listed: Vec<usize>,
}

impl DatedSource<TestData> for CountingSource {
    fn load(&mut self, _files: Vec<FileWithDate>) -> Result<TestData, DbError> {
        Ok(TestData)
    }

    fn parse_date(&self, _info: &FileInfo) -> Result<usize, DbError> {
        panic!("parse_date is not used here")
    }

    fn save(&mut self, _data: &TestData, _path: &String, date: usize) -> Result<(), DbError> {
        self.saves.push(date);
        Ok(())
    }

    fn get_files(&mut self, _path: &String, date: usize) -> Result<Vec<FileWithDate>, DbError> {
        self.listed.push(date);
        Ok(Vec::new())
    }
}

fn new_cache(
    max_active: usize,
    capacity: usize,
) -> TimeSeriesData<TestData, TestDataSource, IdentityIndex> {
    TimeSeriesData::new(String::new(), TestDataSource, IdentityIndex, max_active, capacity)
}

#[test]
fn test_lru_list() {
    let mut data = new_cache(500, 1000);
    for i in 0..3 {
        data.add(i, TestData, false).unwrap();
    }
    let head = data.get_head().unwrap();
    assert_eq!(head, 2);
    assert_eq!(data.get_tail().unwrap(), 0);
    assert_eq!(data.get_prev(head), None);
    assert_eq!(data.get_next(head), Some(1));
    assert_eq!(data.get_prev(1), Some(2));
    assert_eq!(data.get_next(1), Some(0));
    assert_eq!(data.get_prev(0), Some(1));
    assert_eq!(data.get_next(0), None);
}

#[test]
fn test_lru_expire_and_move_to_front() {
    let mut data = new_cache(500, 1000);
    for i in 0..1000 {
        data.add(i, TestData, false).unwrap();
    }
    let head = data.get_head().unwrap();
    assert_eq!(head, 999);
    assert_eq!(data.get_tail().unwrap(), 500);
    assert_eq!(data.get_active_items(), 500);

    assert_eq!(data.get_prev(500), Some(501));
    assert_eq!(data.get_next(500), None);
    assert_eq!(data.get_prev(999), None);
    assert_eq!(data.get_next(999), Some(998));

    let _ = data.get(501).unwrap();

    let head = data.get_head().unwrap();
    assert_eq!(head, 501);
    assert_eq!(data.get_tail().unwrap(), 500);
    assert_eq!(data.get_prev(head), None);
    assert_eq!(data.get_next(head), Some(999));
    assert_eq!(data.get_prev(998), Some(999));
    assert_eq!(data.get_next(998), Some(997));

    assert_eq!(data.get_prev(500), Some(502));
    assert_eq!(data.get_next(500), None);
    assert_eq!(data.get_prev(502), Some(503));
    assert_eq!(data.get_next(502), Some(500));
}

#[test]
fn test_lru_load() {
    let mut data = new_cache(500, 1000);
    for i in 0..1000 {
        data.add(i, TestData, false).unwrap();
    }

    let _ = data.get(499).unwrap();
    let head = data.get_head().unwrap();
    assert_eq!(head, 499);
    assert_eq!(data.get_tail().unwrap(), 501);
    assert_eq!(data.get_active_items(), 500);
}

#[test]
fn eviction_leaves_placeholders() {
    let mut data = new_cache(500, 1000);
    for i in 0..1000 {
        data.add(i, TestData, false).unwrap();
    }
    for i in 0..500 {
        assert!(data.placeholder_at(i));
        assert!(!data.resident_at(i));
    }
    for i in 500..1000 {
        assert!(data.resident_at(i));
    }
}

#[test]
fn dirty_write_back() {
    let source = CountingSource { saves: Vec::new(), listed: Vec::new() };
    let mut data: TimeSeriesData<TestData, CountingSource, IdentityIndex> =
        TimeSeriesData::new(String::new(), source, IdentityIndex, 2, 10);
    data.add(0, TestData, true).unwrap();
    data.add(1, TestData, false).unwrap();
    assert!(data.dirty_at(0));
    data.add(2, TestData, false).unwrap();
    data.add(3, TestData, false).unwrap();
    assert_eq!(data.get_source().saves, vec![0]);
    assert!(data.placeholder_at(0));
    assert!(!data.dirty_at(0));

    let loaded = data.get(0).unwrap();
    assert!(loaded.is_some());
    assert_eq!(data.get_source().listed, vec![0]);
    assert!(data.resident_at(0));
    assert!(!data.dirty_at(0));
    assert_eq!(data.get_head(), Some(0));
}

#[test]
fn flush_saves_and_clears_dirty() {
    let source = CountingSource { saves: Vec::new(), listed: Vec::new() };
    let mut data: TimeSeriesData<TestData, CountingSource, IdentityIndex> =
        TimeSeriesData::new(String::new(), source, IdentityIndex, 5, 10);
    data.add(4, TestData, true).unwrap();
    data.add(7, TestData, false).unwrap();
    data.flush().unwrap();
    assert_eq!(data.get_source().saves, vec![4]);
    assert!(!data.dirty_at(4));
    assert!(data.resident_at(4));
    assert!(data.resident_at(7));
}

#[test]
fn get_selects_greatest_key_at_most_index() {
    let mut data = new_cache(10, 100);
    data.add(2, TestData, false).unwrap();
    data.add(5, TestData, false).unwrap();
    assert!(data.get(3).unwrap().is_some());
    assert_eq!(data.get_head(), Some(2));
    assert!(data.get(5).unwrap().is_some());
    assert_eq!(data.get_head(), Some(5));
    assert!(data.get(1).unwrap().is_none());
}

#[test]
fn get_range_yields_known_keys_ascending() {
    let mut data = new_cache(10, 100);
    data.add(7, TestData, false).unwrap();
    data.add(1, TestData, false).unwrap();
    data.add(3, TestData, false).unwrap();
    let keys = data.get_range(2, 90).unwrap();
    assert_eq!(keys, vec![3, 7]);
    let all = data.get_range(0, 90).unwrap();
    assert_eq!(all, vec![1, 3, 7]);
    let none = data.get_range(8, 90).unwrap();
    assert_eq!(none, Vec::<usize>::new());
}

#[test]
fn get_range_on_empty_cache() {
    let mut data = new_cache(10, 100);
    let keys = data.get_range(0, 90).unwrap();
    assert_eq!(keys, Vec::<usize>::new());
}
