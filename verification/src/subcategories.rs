//! Subcategories and categories: the reference data that drives the
//! operation semantics.

use vstd::prelude::*;

use crate::data_source::DataSource;
use crate::errors::{DbError, DbErrorKind};
use crate::id_map::{map_of_pairs, IdMap};

verus! {

/// The special-handling code of a subcategory.
#[derive(Clone, Copy, PartialEq, Eq, Structural, Debug)]
pub enum SubcategoryCode {
    Comb,
    Comc,
    Fuel,
    Prcn,
    Incc,
    Expc,
    Exch,
    Trfr,
    NoCode,
}

/// The coarse kind of a subcategory: income, expenditure or special.
#[derive(Clone, Copy, PartialEq, Eq, Structural, Debug)]
pub enum SubcategoryOperationCode {
    Incm,
    Expn,
    Spcl,
}

/// One subcategory record.
#[derive(Clone, Debug)]
pub struct Subcategory {
    pub id: u64,
    pub name: String,
    pub code: SubcategoryCode,
    pub operation_code: SubcategoryOperationCode,
    pub category: u64,
}

/// One category record.
#[derive(Clone, Debug)]
pub struct Category {
    pub id: u64,
    pub name: String,
}

/// Decodes an optional subcategory-code string; an absent value means
/// no special handling, an unrecognised one is invalid data.
pub fn parse_subcategory_code(v: &Option<String>) -> (r: Result<SubcategoryCode, DbError>)
    ensures
        match v {
            Option::None => r matches Ok(c) && c == SubcategoryCode::NoCode,
            Some(s) => {
                if s@ == "COMB"@ { r matches Ok(c) && c == SubcategoryCode::Comb }
                else if s@ == "COMC"@ { r matches Ok(c) && c == SubcategoryCode::Comc }
                else if s@ == "FUEL"@ { r matches Ok(c) && c == SubcategoryCode::Fuel }
                else if s@ == "PRCN"@ { r matches Ok(c) && c == SubcategoryCode::Prcn }
                else if s@ == "INCC"@ { r matches Ok(c) && c == SubcategoryCode::Incc }
                else if s@ == "EXPC"@ { r matches Ok(c) && c == SubcategoryCode::Expc }
                else if s@ == "EXCH"@ { r matches Ok(c) && c == SubcategoryCode::Exch }
                else if s@ == "TRFR"@ { r matches Ok(c) && c == SubcategoryCode::Trfr }
                else { r matches Err(e) && e.kind == DbErrorKind::InvalidData }
            },
        },
{
    match v {
        Option::None => Ok(SubcategoryCode::NoCode),
        Some(s) => {
            if *s == "COMB".to_owned() { Ok(SubcategoryCode::Comb) }
            else if *s == "COMC".to_owned() { Ok(SubcategoryCode::Comc) }
            else if *s == "FUEL".to_owned() { Ok(SubcategoryCode::Fuel) }
            else if *s == "PRCN".to_owned() { Ok(SubcategoryCode::Prcn) }
            else if *s == "INCC".to_owned() { Ok(SubcategoryCode::Incc) }
            else if *s == "EXPC".to_owned() { Ok(SubcategoryCode::Expc) }
            else if *s == "EXCH".to_owned() { Ok(SubcategoryCode::Exch) }
            else if *s == "TRFR".to_owned() { Ok(SubcategoryCode::Trfr) }
            else { Err(DbError::new(DbErrorKind::InvalidData, "invalid subcategory code".to_owned())) }
        },
    }
}

/// Decodes an operation-code string; anything but the three known
/// kinds is invalid data.
pub fn parse_operation_code(s: &String) -> (r: Result<SubcategoryOperationCode, DbError>)
    ensures
        if s@ == "INCM"@ { r matches Ok(c) && c == SubcategoryOperationCode::Incm }
        else if s@ == "EXPN"@ { r matches Ok(c) && c == SubcategoryOperationCode::Expn }
        else if s@ == "SPCL"@ { r matches Ok(c) && c == SubcategoryOperationCode::Spcl }
        else { r matches Err(e) && e.kind == DbErrorKind::InvalidData },
{
    if *s == "INCM".to_owned() { Ok(SubcategoryOperationCode::Incm) }
    else if *s == "EXPN".to_owned() { Ok(SubcategoryOperationCode::Expn) }
    else if *s == "SPCL".to_owned() { Ok(SubcategoryOperationCode::Spcl) }
    else { Err(DbError::new(DbErrorKind::InvalidData, "invalid subcategory operation code".to_owned())) }
}

/// The id-to-record pairs of a subcategory list.
pub open spec fn subcategory_pairs(l: Seq<Subcategory>) -> Seq<(u64, Subcategory)> {
    l.map(|i: int, c: Subcategory| (c.id, c))
}

/// The id-to-record pairs of a category list.
pub open spec fn category_pairs(l: Seq<Category>) -> Seq<(u64, Category)> {
    l.map(|i: int, c: Category| (c.id, c))
}

/// The subcategories, indexed by id.
pub struct Subcategories {
    map: IdMap<Subcategory>,
}

impl Subcategories {
    /// The underlying index is sorted and duplicate-free.
    pub closed spec fn wf(&self) -> bool {
        self.map.wf()
    }

    /// The subcategories as a mathematical map from id to record.
    pub closed spec fn as_map(&self) -> Map<u64, Subcategory> {
        self.map.as_map()
    }

    /// Indexes a list of subcategories by id; a later record replaces
    /// an earlier one with the same id.
    pub fn from_vec(list: Vec<Subcategory>) -> (r: Subcategories)
        ensures
            r.wf(),
            r.as_map() == map_of_pairs(subcategory_pairs(list@)),
    {
        let ghost orig = list@;
        let mut l = list;
        let mut map = IdMap::new();
        proof {
            assert(subcategory_pairs(orig.take(0)) =~= Seq::<(u64, Subcategory)>::empty());
        }
        while l.len() > 0
            invariant
                map.wf(),
                l@.len() <= orig.len(),
                l@ == orig.skip(orig.len() - l@.len()),
                map.as_map() == map_of_pairs(subcategory_pairs(orig.take(orig.len() - l@.len()))),
            decreases l@.len(),
        {
            let ghost done = orig.len() - l@.len();
            let c = l.remove(0);
            proof {
                assert(c == orig[done]);
                assert(l@ =~= orig.skip(orig.len() - l@.len()));
                let p = subcategory_pairs(orig.take(done + 1));
                assert(p.drop_last() =~= subcategory_pairs(orig.take(done)));
                assert(p.last() == (c.id, c));
            }
            map.insert(c.id, c);
        }
        proof {
            assert(orig.take(orig.len() as int) =~= orig);
        }
        Subcategories { map }
    }

    /// Loads the subcategory file through the given source and
    /// indexes it by id.
    pub fn load<DS: DataSource<Vec<Subcategory>>>(data_folder_path: String, source: &DS)
        -> (r: Result<Subcategories, DbError>)
        ensures
            r matches Ok(s) ==> s.wf(),
    {
        let list = match source.load(data_folder_path.concat("/subcategories"), true) {
            Ok(l) => l,
            Err(e) => {
                return Err(e);
            },
        };
        Ok(Self::from_vec(list))
    }

    /// Looks a subcategory up by id; an unknown id is invalid data.
    pub fn get(&self, id: u64) -> (r: Result<&Subcategory, DbError>)
        requires
            self.wf(),
        ensures
            match r {
                Ok(s) => self.as_map().contains_key(id) && *s == self.as_map()[id],
                Err(e) => !self.as_map().contains_key(id) && e.kind == DbErrorKind::InvalidData,
            },
    {
        match self.map.get(id) {
            Some(s) => Ok(s),
            Option::None => Err(DbError::new(DbErrorKind::InvalidData, "invalid subcategory id".to_owned())),
        }
    }
}

/// The categories, indexed by id.
pub struct Categories {
    map: IdMap<Category>,
}

impl Categories {
    /// The underlying index is sorted and duplicate-free.
    pub closed spec fn wf(&self) -> bool {
        self.map.wf()
    }

    /// The categories as a mathematical map from id to record.
    pub closed spec fn as_map(&self) -> Map<u64, Category> {
        self.map.as_map()
    }

    /// Indexes a list of categories by id; a later record replaces an
    /// earlier one with the same id.
    pub fn from_vec(list: Vec<Category>) -> (r: Categories)
        ensures
            r.wf(),
            r.as_map() == map_of_pairs(category_pairs(list@)),
    {
        let ghost orig = list@;
        let mut l = list;
        let mut map = IdMap::new();
        proof {
            assert(category_pairs(orig.take(0)) =~= Seq::<(u64, Category)>::empty());
        }
        while l.len() > 0
            invariant
                map.wf(),
                l@.len() <= orig.len(),
                l@ == orig.skip(orig.len() - l@.len()),
                map.as_map() == map_of_pairs(category_pairs(orig.take(orig.len() - l@.len()))),
            decreases l@.len(),
        {
            let ghost done = orig.len() - l@.len();
            let c = l.remove(0);
            proof {
                assert(c == orig[done]);
                assert(l@ =~= orig.skip(orig.len() - l@.len()));
                let p = category_pairs(orig.take(done + 1));
                assert(p.drop_last() =~= category_pairs(orig.take(done)));
                assert(p.last() == (c.id, c));
            }
            map.insert(c.id, c);
        }
        proof {
            assert(orig.take(orig.len() as int) =~= orig);
        }
        Categories { map }
    }

    /// Loads the category file through the given source and indexes
    /// it by id.
    pub fn load<DS: DataSource<Vec<Category>>>(data_folder_path: String, source: &DS)
        -> (r: Result<Categories, DbError>)
        ensures
            r matches Ok(c) ==> c.wf(),
    {
        let list = match source.load(data_folder_path.concat("/categories"), true) {
            Ok(l) => l,
            Err(e) => {
                return Err(e);
            },
        };
        Ok(Self::from_vec(list))
    }

    /// Looks a category up by id; an unknown id is invalid data.
    pub fn get(&self, id: u64) -> (r: Result<&Category, DbError>)
        requires
            self.wf(),
        ensures
            match r {
                Ok(c) => self.as_map().contains_key(id) && *c == self.as_map()[id],
                Err(e) => !self.as_map().contains_key(id) && e.kind == DbErrorKind::InvalidData,
            },
    {
        match self.map.get(id) {
            Some(c) => Ok(c),
            Option::None => Err(DbError::new(DbErrorKind::InvalidData, "invalid category id".to_owned())),
        }
    }
}

} // verus!
