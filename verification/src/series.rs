//! A flat, fully resident time series persisted in framed binary
//! files: a sorted map from `u64` index to record, loaded by merging
//! per-file maps and saved as ranges with a leading record count.

use vstd::prelude::*;

use crate::common::{all_decimal_digits, decimal_value, parse_decimal};
use crate::errors::{DbError, DbErrorKind};
use crate::id_map::IdMap;

verus! {

/// A record that can append its binary serialisation to a buffer.
pub trait BinaryData {
    /// The byte image of this record.
    spec fn bytes_spec(&self) -> Seq<u8>;

    /// Appends this record's byte image to `output`.
    fn serialize(&self, output: &mut Vec<u8>)
        ensures
            final(output)@ == old(output)@ + self.bytes_spec(),
    ;
}

/// A discovered file of the flat series: the name of its parent
/// folder and its full path.
pub struct FileInfo {
    pub folder: String,
    pub name: String,
}

/// The characters of the `.json` file suffix.
pub open spec fn json_suffix() -> Seq<char> {
    seq!['.', 'j', 's', 'o', 'n']
}

/// Whether a file name ends in `.json`.
pub open spec fn is_json_name(s: Seq<char>) -> bool {
    s.len() >= 5 && s.subrange(s.len() - 5, s.len() as int) == json_suffix()
}

impl FileInfo {
    /// Builds a `FileInfo` from a parent-folder name and a full path.
    pub fn new(folder: String, name: String) -> (r: FileInfo)
        ensures
            r.folder == folder,
            r.name == name,
    {
        FileInfo { folder, name }
    }

    /// Whether the file name ends in `.json`.
    pub fn is_json(&self) -> (r: bool)
        ensures
            r == is_json_name(self.name@),
    {
        let n = self.name.as_str().unicode_len();
        if n < 5 {
            return false;
        }
        let s = self.name.as_str();
        let r = s.get_char(n - 5) == '.' && s.get_char(n - 4) == 'j' && s.get_char(n - 3) == 's'
            && s.get_char(n - 2) == 'o' && s.get_char(n - 1) == 'n';
        proof {
            if r {
                assert(self.name@.subrange(n - 5, n as int) =~= json_suffix());
            } else {
                if is_json_name(self.name@) {
                    assert(self.name@.subrange(n - 5, n as int)[0] == '.');
                    assert(self.name@.subrange(n - 5, n as int)[1] == 'j');
                    assert(self.name@.subrange(n - 5, n as int)[2] == 's');
                    assert(self.name@.subrange(n - 5, n as int)[3] == 'o');
                    assert(self.name@.subrange(n - 5, n as int)[4] == 'n');
                }
            }
        }
        r
    }

    /// Whether the file lies directly under the data root rather
    /// than in a dated folder.
    pub fn is_folder_empty(&self) -> (r: bool)
        ensures
            r == (self.folder@.len() == 0),
    {
        self.folder.as_str().is_empty()
    }

    /// Interprets the parent-folder name as a decimal number.
    pub fn convert_folder_name_to_number(&self) -> (r: Result<usize, DbError>)
        ensures
            (self.folder@.len() > 0 && all_decimal_digits(self.folder@)
                && decimal_value(self.folder@) <= usize::MAX as int)
                ==> (r matches Ok(v) && v as int == decimal_value(self.folder@)),
            !(self.folder@.len() > 0 && all_decimal_digits(self.folder@)
                && decimal_value(self.folder@) <= usize::MAX as int)
                ==> (r matches Err(e) && e.kind == DbErrorKind::InvalidData),
    {
        parse_decimal(self.folder.as_str())
    }
}

/// The backend of the flat series: it parses one file into a partial
/// map and writes one framed file back.
pub trait TimeSeriesDataConfiguration<T> {
    /// The root the series lives under.
    fn data_folder_path(&self) -> String;

    /// Reads one file into index-record pairs.
    fn load_file(&self, file_info: &FileInfo) -> Result<Vec<(u64, T)>, DbError>;

    /// Names the file holding each index range of a span, the range
    /// half-open.
    fn get_file_names(&self, from: u64, to: u64) -> Vec<(String, (u64, u64))>;

    /// Writes one file's bytes.
    fn save_file(&self, file_name: String, data: Vec<u8>) -> Result<(), DbError>;
}

/// How many entries of the sorted list fall in the half-open index
/// range `[lo, hi)`.
pub open spec fn count_in_range<T>(l: Seq<(u64, T)>, lo: u64, hi: u64) -> int
    decreases l.len(),
{
    if l.len() == 0 {
        0
    } else {
        count_in_range(l.drop_last(), lo, hi)
            + if lo <= l.last().0 && l.last().0 < hi { 1int } else { 0int }
    }
}

/// The byte image of the entries of the sorted list that fall in
/// the half-open index range `[lo, hi)`: each such record's
/// little-endian index followed by its bytes, in ascending index
/// order.
pub open spec fn encode_entries<T: BinaryData>(l: Seq<(u64, T)>, lo: u64, hi: u64) -> Seq<u8>
    decreases l.len(),
{
    if l.len() == 0 {
        Seq::empty()
    } else {
        encode_entries(l.drop_last(), lo, hi) + (if lo <= l.last().0 && l.last().0 < hi {
            vstd::bytes::spec_u64_to_le_bytes(l.last().0) + l.last().1.bytes_spec()
        } else {
            Seq::empty()
        })
    }
}

/// The flat series: every record resident, sorted by index.
pub struct TimeSeriesData<T, C: TimeSeriesDataConfiguration<T>> {
    configuration: C,
    suffix: String,
    pub map: IdMap<T>,
}

impl<T: BinaryData, C: TimeSeriesDataConfiguration<T>> TimeSeriesData<T, C> {
    /// The stored index is sorted and duplicate-free.
    pub closed spec fn wf(&self) -> bool {
        self.map.wf()
    }

    /// The stored entries, sorted by index.
    pub closed spec fn entries_spec(&self) -> Seq<(u64, T)> {
        self.map.entries_view()
    }

    /// Loads the series by merging the maps parsed from the given
    /// files; a later file's record replaces an earlier one with the
    /// same index.
    pub fn load(configuration: C, suffix: String, files: Vec<FileInfo>)
        -> (r: Result<TimeSeriesData<T, C>, DbError>)
        ensures
            files@.len() == 0 ==> r is Ok,
            r matches Ok(t) ==> t.wf(),
    {
        let mut map = IdMap::new();
        let n = files.len();
        let mut i: usize = 0;
        while i < n
            invariant
                i <= n,
                n == files@.len(),
                map.wf(),
            decreases n - i,
        {
            let mut data = match configuration.load_file(&files[i]) {
                Ok(d) => d,
                Err(e) => {
                    return Err(e);
                },
            };
            let m = data.len();
            let mut j: usize = 0;
            while j < m
                invariant
                    j <= m,
                    data@.len() == m - j,
                    map.wf(),
                decreases m - j,
            {
                let pair = data.remove(0);
                map.insert(pair.0, pair.1);
                j = j + 1;
            }
            i = i + 1;
        }
        Ok(TimeSeriesData { configuration, suffix, map })
    }

    /// Encodes the records whose index lies in the half-open range
    /// `[lo, hi)`: a little-endian record count, then each record's
    /// little-endian index followed by its serialised bytes.  Yields
    /// nothing when the range is empty.
    pub fn encode_range(&self, lo: u64, hi: u64) -> (r: Option<Vec<u8>>)
        requires
            self.wf(),
        ensures
            ({
                let count = count_in_range(self.entries_spec(), lo, hi);
                match r {
                    Some(bytes) => count > 0
                        && bytes@ == vstd::bytes::spec_u64_to_le_bytes(count as u64)
                            + encode_entries(self.entries_spec(), lo, hi),
                    None => count == 0,
                }
            }),
    {
        let entries = self.map.entries();
        let n = entries.len();
        let ghost ev = self.map.entries_view();
        let mut data: Vec<u8> = Vec::new();
        let mut counter: u64 = 0;
        let mut i: usize = 0;
        proof {
            assert(count_in_range(ev.take(0), lo, hi) == 0);
            assert(encode_entries(ev.take(0), lo, hi) =~= Seq::<u8>::empty());
        }
        while i < n
            invariant
                i <= n,
                n == ev.len(),
                ev == self.map.entries_view(),
                entries@ == ev,
                self.wf(),
                counter as int == count_in_range(ev.take(i as int), lo, hi),
                counter <= i,
                data@ == encode_entries(ev.take(i as int), lo, hi),
            decreases n - i,
        {
            proof {
                assert(ev.take(i + 1).drop_last() =~= ev.take(i as int));
                assert(ev.take(i + 1).last() == ev[i as int]);
            }
            let index = entries[i].0;
            if lo <= index && index < hi {
                let mut index_bytes = vstd::bytes::u64_to_le_bytes(index);
                data.append(&mut index_bytes);
                entries[i].1.serialize(&mut data);
                counter = counter + 1;
            }
            i = i + 1;
        }
        proof {
            assert(ev.take(n as int) =~= ev);
        }
        if counter == 0 {
            return None;
        }
        let mut output = vstd::bytes::u64_to_le_bytes(counter);
        output.append(&mut data);
        Some(output)
    }

    /// Saves every file of the span `[from, to]` that holds at least
    /// one record, each framed by its record count.
    pub fn save(&self, from: u64, to: u64) -> (r: Result<(), DbError>)
        requires
            self.wf(),
        ensures
            self.entries_spec().len() == 0 ==> r is Ok,
    {
        let file_names = self.configuration.get_file_names(from, to);
        let n = file_names.len();
        let mut i: usize = 0;
        while i < n
            invariant
                i <= n,
                n == file_names@.len(),
                self.wf(),
            decreases n - i,
        {
            let lo = file_names[i].1.0;
            let hi = file_names[i].1.1;
            match self.encode_range(lo, hi) {
                Some(output) => {
                    let full_name = self.suffix.clone().concat("/").concat(file_names[i].0.as_str());
                    match self.configuration.save_file(full_name, output) {
                        Ok(()) => {},
                        Err(e) => {
                            return Err(e);
                        },
                    }
                },
                None => {},
            }
            i = i + 1;
        }
        Ok(())
    }
}

} // verus!
