//! The flat binary time series and its file helpers.

use home_accounting_db::errors::DbError;
use home_accounting_db::series::{
    BinaryData, FileInfo, TimeSeriesData, TimeSeriesDataConfiguration,
};

struct Rec(u8);

impl BinaryData for Rec {
    // The ghost byte image is never evaluated at run time.
    fn bytes_spec(&self) -> vstd::seq::Seq<u8> {
        panic!("ghost function")
    }

    fn serialize(&self, output: &mut Vec<u8>) {
        output.push(self.0);
    }
}

struct TestConfig;

impl TimeSeriesDataConfiguration<Rec> for TestConfig {
    fn data_folder_path(&self) -> String {
        String::new()
    }

    fn load_file(&self, _file_info: &FileInfo) -> Result<Vec<(u64, Rec)>, DbError> {
        Ok(vec![(2, Rec(7)), (1, Rec(5))])
    }

    fn get_file_names(&self, _from: u64, _to: u64) -> Vec<(String, (u64, u64))> {
        Vec::new()
    }

    fn save_file(&self, _file_name: String, _data: Vec<u8>) -> Result<(), DbError> {
        Ok(())
    }
}

#[test]
fn json_suffix_is_detected() {
    assert!(FileInfo::new(String::new(), "a.json".to_string()).is_json());
    assert!(!FileInfo::new(String::new(), "ajson".to_string()).is_json());
    assert!(!FileInfo::new(String::new(), "a.json.bak".to_string()).is_json());
    assert!(!FileInfo::new(String::new(), "on".to_string()).is_json());
}

#[test]
fn folder_emptiness_is_reported() {
    assert!(FileInfo::new(String::new(), "x".to_string()).is_folder_empty());
    assert!(!FileInfo::new("20240101".to_string(), "x".to_string()).is_folder_empty());
}

#[test]
fn series_folder_names_parse() {
    let f = FileInfo::new("123".to_string(), "x".to_string());
    assert_eq!(f.convert_folder_name_to_number().unwrap(), 123);
    assert!(FileInfo::new("x1".to_string(), "y".to_string())
        .convert_folder_name_to_number()
        .is_err());
}

#[test]
fn encode_range_frames_records_with_a_count() {
    let files = vec![FileInfo::new(String::new(), "f".to_string())];
    let series = TimeSeriesData::load(TestConfig, "s".to_string(), files).unwrap();
    let bytes = series.encode_range(1, 3).unwrap();
    // Count 2, then index 1 with payload 5, then index 2 with payload 7.
    let mut expected: Vec<u8> = vec![2, 0, 0, 0, 0, 0, 0, 0];
    expected.extend(vec![1, 0, 0, 0, 0, 0, 0, 0, 5]);
    expected.extend(vec![2, 0, 0, 0, 0, 0, 0, 0, 7]);
    assert_eq!(bytes, expected);
}

#[test]
fn encode_range_is_empty_outside_the_span() {
    let files = vec![FileInfo::new(String::new(), "f".to_string())];
    let series = TimeSeriesData::load(TestConfig, "s".to_string(), files).unwrap();
    assert!(series.encode_range(3, 9).is_none());
    let one = series.encode_range(2, 3).unwrap();
    assert_eq!(one, vec![1, 0, 0, 0, 0, 0, 0, 0, 2, 0, 0, 0, 0, 0, 0, 0, 7]);
}

#[test]
fn save_writes_nothing_for_empty_ranges() {
    let files = vec![FileInfo::new(String::new(), "f".to_string())];
    let series = TimeSeriesData::load(TestConfig, "s".to_string(), files).unwrap();
    series.save(0, 10).unwrap();
}
