//! The accounting database: a bucket cache keyed by month, the
//! reference data, and the ledger sweep that carries closing balances
//! from each bucket into the next.

use vstd::prelude::*;

use crate::accounts::{Account, Accounts};
use crate::data_source::DataSource;
use crate::errors::{DbError, DbErrorKind};
use crate::finance::{
    apply_seq_within, changes_of_totals, op_view, ops_with_date, seq_ok_within, totals_of,
    FinanceChanges, FinanceOperation, FinanceRecord,
};
use crate::subcategories::{Categories, Category, Subcategories, Subcategory};
use crate::time_series::{DatedSource, FileInfo, IndexCalculator, TimeSeriesData};

verus! {

/// Bucket keys run from 0 to this bound: one slot per month of dates
/// up to 99999999.
pub const MONTH_KEY_CAPACITY: usize = 1000000;

/// The largest date the database handles.
pub const MAX_DATE: usize = 99999999;

/// The index function of the database: a date `yyyymmdd` falls into
/// the bucket of its month `yyyymm`.  An index beyond the machine's
/// signed range is clamped; such dates are rejected by the capacity
/// bound anyway.
pub struct MonthIndex;

impl IndexCalculator for MonthIndex {
    open spec fn index_spec(&self, date: usize) -> int {
        if date as int / 100 > isize::MAX as int {
            isize::MAX as int
        } else {
            date as int / 100
        }
    }

    fn index(&self, date: usize) -> (r: isize)
        ensures
            r as int == self.index_spec(date),
    {
        let k = date / 100;
        if k > isize::MAX as usize {
            isize::MAX
        } else {
            k as isize
        }
    }

    proof fn lemma_monotonic(&self, d1: usize, d2: usize)
        ensures
            self.index_spec(d1) <= self.index_spec(d2),
    {
        assert(d1 as int / 100 <= d2 as int / 100) by (nonlinear_arith)
            requires d1 <= d2;
    }
}

/// The set of sources a storage configuration provides: one dated
/// source for the buckets and one plain source per reference file.
pub trait DBConfiguration {
    type MainSource: DatedSource<FinanceRecord>;
    type AccountsSource: DataSource<Vec<Account>>;
    type CategoriesSource: DataSource<Vec<Category>>;
    type SubcategoriesSource: DataSource<Vec<Subcategory>>;

    /// The source that reads and writes buckets.
    fn get_main_data_source(&self) -> Self::MainSource;

    /// The source that reads the account file.
    fn get_accounts_source(&self) -> Self::AccountsSource;

    /// The source that reads the category file.
    fn get_categories_source(&self) -> Self::CategoriesSource;

    /// The source that reads the subcategory file.
    fn get_subcategories_source(&self) -> Self::SubcategoriesSource;
}

/// The closing balances a bucket hands to its successor: the totals
/// it carries, with all of its operations applied.
pub open spec fn close_of(
    rec: FinanceRecord,
    subs: Map<u64, Subcategory>,
    accs: Map<u64, Account>,
) -> Map<u64, i64> {
    totals_of(apply_seq_within(
        changes_of_totals(rec.totals.as_map()),
        rec.operations@,
        0,
        usize::MAX,
        subs,
        accs,
    ))
}

/// The balance sheet a bucket produces while closing.
pub open spec fn sheet_of(
    rec: FinanceRecord,
    subs: Map<u64, Subcategory>,
    accs: Map<u64, Account>,
) -> Map<u64, crate::finance::FinanceChange> {
    apply_seq_within(
        changes_of_totals(rec.totals.as_map()),
        rec.operations@,
        0,
        usize::MAX,
        subs,
        accs,
    )
}


/// The keys known to the cache at or above `k`, in ascending order.
pub open spec fn known_keys_from<MS: DatedSource<FinanceRecord>>(
    c: TimeSeriesData<FinanceRecord, MS, MonthIndex>,
    k: int,
) -> Seq<usize>
    recommends
        0 <= k,
    decreases c.capacity() - k,
{
    if k < 0 || k >= c.capacity() {
        Seq::empty()
    } else if c.is_known(k) {
        seq![k as usize] + known_keys_from(c, k + 1)
    } else {
        known_keys_from(c, k + 1)
    }
}

/// `known_keys_from` lists exactly the known keys at or above `k`,
/// strictly ascending.
proof fn lemma_known_keys_from<MS: DatedSource<FinanceRecord>>(
    c: TimeSeriesData<FinanceRecord, MS, MonthIndex>,
    k: int,
)
    requires
        0 <= k,
    ensures
        forall|x: usize| known_keys_from(c, k).contains(x)
            <==> (k <= x as int && c.is_known(x as int)),
        forall|a: int, b: int| 0 <= a < b < known_keys_from(c, k).len()
            ==> known_keys_from(c, k)[a] < known_keys_from(c, k)[b],
        forall|a: int| 0 <= a < known_keys_from(c, k).len()
            ==> k <= (#[trigger] known_keys_from(c, k)[a]) as int
                && c.is_known(known_keys_from(c, k)[a] as int),
    decreases c.capacity() - k,
{
    c.lemma_known_bounds();
    let s = known_keys_from(c, k);
    if k >= c.capacity() {
        assert forall|x: usize| k <= x as int && c.is_known(x as int)
            implies s.contains(x) by {
            assert((x as int) < c.capacity());
        }
    } else {
        lemma_known_keys_from(c, k + 1);
        let t = known_keys_from(c, k + 1);
        if c.is_known(k) {
            assert(s == seq![k as usize] + t);
            assert forall|x: usize| s.contains(x)
                implies (k <= x as int && c.is_known(x as int)) by {
                let i = choose|i: int| 0 <= i < s.len() && s[i] == x;
                if i > 0 {
                    assert(t[i - 1] == x);
                    assert(t.contains(x));
                }
            }
            assert forall|x: usize| (k <= x as int && c.is_known(x as int))
                implies s.contains(x) by {
                if x as int == k {
                    assert(s[0] == x);
                } else {
                    assert(t.contains(x));
                    let i = choose|i: int| 0 <= i < t.len() && t[i] == x;
                    assert(s[i + 1] == x);
                }
            }
            assert forall|a: int| 0 <= a < s.len()
                implies k <= (#[trigger] s[a]) as int && c.is_known(s[a] as int) by {
                if a > 0 {
                    assert(s[a] == t[a - 1]);
                }
            }
            assert forall|a: int, b: int| 0 <= a < b < s.len()
                implies s[a] < s[b] by {
                assert(s[b] == t[b - 1]);
                if a > 0 {
                    assert(s[a] == t[a - 1]);
                } else {
                    assert(k + 1 <= t[b - 1] as int);
                }
            }
        } else {
            assert(s == t);
            assert forall|x: usize| (k <= x as int && c.is_known(x as int))
                implies s.contains(x) by {
                assert(x as int != k);
            }
        }
    }
}

/// Two strictly ascending sequences with the same members are equal.
proof fn lemma_sorted_unique(s1: Seq<usize>, s2: Seq<usize>)
    requires
        forall|a: int, b: int| 0 <= a < b < s1.len() ==> s1[a] < s1[b],
        forall|a: int, b: int| 0 <= a < b < s2.len() ==> s2[a] < s2[b],
        forall|x: usize| s1.contains(x) <==> s2.contains(x),
    ensures
        s1 == s2,
    decreases s1.len(),
{
    if s1.len() == 0 {
        if s2.len() > 0 {
            assert(s2.contains(s2[0]));
            assert(s1.contains(s2[0]));
        }
        assert(s1 =~= s2);
    } else {
        assert(s1.contains(s1[0]));
        assert(s2.len() > 0) by {
            assert(s2.contains(s1[0]));
        }
        assert(s1[0] == s2[0]) by {
            assert(s2.contains(s1[0]));
            let i = choose|i: int| 0 <= i < s2.len() && s2[i] == s1[0];
            if i > 0 {
                assert(s2[0] < s2[i]);
            }
            assert(s1.contains(s2[0]));
            let j = choose|j: int| 0 <= j < s1.len() && s1[j] == s2[0];
            if j > 0 {
                assert(s1[0] < s1[j]);
            }
        }
        let t1 = s1.subrange(1, s1.len() as int);
        let t2 = s2.subrange(1, s2.len() as int);
        assert forall|x: usize| t1.contains(x) <==> t2.contains(x) by {
            if t1.contains(x) {
                let i = choose|i: int| 0 <= i < t1.len() && t1[i] == x;
                assert(s1[i + 1] == x);
                assert(s1.contains(x) && s1[0] < x);
                assert(s2.contains(x));
                let j = choose|j: int| 0 <= j < s2.len() && s2[j] == x;
                assert(j > 0) by {
                    if j == 0 {
                        assert(s2[0] == x);
                    }
                }
                assert(t2[j - 1] == x);
            }
            if t2.contains(x) {
                let i = choose|i: int| 0 <= i < t2.len() && t2[i] == x;
                assert(s2[i + 1] == x);
                assert(s2.contains(x) && s2[0] < x);
                assert(s1.contains(x));
                let j = choose|j: int| 0 <= j < s1.len() && s1[j] == x;
                assert(j > 0) by {
                    if j == 0 {
                        assert(s1[0] == x);
                    }
                }
                assert(t1[j - 1] == x);
            }
        }
        lemma_sorted_unique(t1, t2);
        assert(s1.len() == s2.len());
        assert forall|i: int| 0 <= i < s1.len() implies s1[i] == s2[i] by {
            if i > 0 {
                assert(s1[i] == t1[i - 1]);
                assert(s2[i] == t2[i - 1]);
            }
        }
        assert(s1 =~= s2);
    }
}

/// The model of one bucket of a sweep: its carried totals, its
/// operations, and whether its stored totals index is well-formed.
pub open spec fn bucket_models<MS: DatedSource<FinanceRecord>>(
    c: TimeSeriesData<FinanceRecord, MS, MonthIndex>,
    ks: Seq<usize>,
) -> Seq<(Map<u64, i64>, Seq<FinanceOperation>, bool)> {
    ks.map(|i: int, k: usize| (
        c.payload(k as int).totals.as_map(),
        c.payload(k as int).operations@,
        c.payload(k as int).totals.wf(),
    ))
}

/// The sheet the `j`-th bucket of a sweep closes with, its carried
/// totals taken from the predecessor's closing balances.
pub open spec fn sweep_sheet(
    l: Seq<(Map<u64, i64>, Seq<FinanceOperation>, bool)>,
    j: int,
    subs: Map<u64, Subcategory>,
    accs: Map<u64, Account>,
) -> Map<u64, crate::finance::FinanceChange>
    recommends
        0 <= j < l.len(),
    decreases j,
{
    let totals_j = if j <= 0 {
        l[0].0
    } else {
        totals_of(sweep_sheet(l, j - 1, subs, accs))
    };
    apply_seq_within(changes_of_totals(totals_j), l[j].1, 0, usize::MAX, subs, accs)
}

/// Every link of a sweep goes through: each bucket's stored totals
/// index is well-formed, each predecessor's closing balances fit the
/// machine range, and each bucket's operations are interpretable and
/// in range on the sheet carried to it.
pub open spec fn sweep_ok(
    l: Seq<(Map<u64, i64>, Seq<FinanceOperation>, bool)>,
    subs: Map<u64, Subcategory>,
    accs: Map<u64, Account>,
) -> bool {
    forall|j: int| 0 <= j < l.len() ==> {
        let totals_j = if j == 0 { l[0].0 } else { totals_of(sweep_sheet(l, j - 1, subs, accs)) };
        &&& (#[trigger] l[j]).2
        &&& (j > 0 ==> forall|a: u64|
            #[trigger] sweep_sheet(l, j - 1, subs, accs).contains_key(a)
                ==> sweep_sheet(l, j - 1, subs, accs)[a].end_fits())
        &&& seq_ok_within(changes_of_totals(totals_j), l[j].1, 0, usize::MAX, subs, accs)
    }
}

/// The first bucket index a sweep from `from` considers.
pub open spec fn sweep_lo(from: usize) -> int {
    if MonthIndex.index_spec(from) < 0 {
        0int
    } else {
        MonthIndex.index_spec(from)
    }
}

/// The keys a sweep from `from` visits, in ascending order.
pub open spec fn sweep_keys<MS: DatedSource<FinanceRecord>>(
    c: TimeSeriesData<FinanceRecord, MS, MonthIndex>,
    from: usize,
) -> Seq<usize> {
    known_keys_from(c, sweep_lo(from))
}

/// A sweep can run entirely in memory: every known bucket at or
/// above the starting index is resident, and the whole chain of
/// closings is interpretable and in range.
pub open spec fn sweep_ready<MS: DatedSource<FinanceRecord>>(
    c: TimeSeriesData<FinanceRecord, MS, MonthIndex>,
    from: usize,
    subs: Map<u64, Subcategory>,
    accs: Map<u64, Account>,
) -> bool {
    &&& (forall|a: int| 0 <= a < sweep_keys(c, from).len()
        ==> c.is_resident((#[trigger] sweep_keys(c, from)[a]) as int))
    &&& sweep_ok(bucket_models(c, sweep_keys(c, from)), subs, accs)
}

/// The database: the bucket cache and the three reference indexes.
pub struct HomeAccountingDB<MS: DatedSource<FinanceRecord>> {
    data: TimeSeriesData<FinanceRecord, MS, MonthIndex>,
    accounts: Accounts,
    categories: Categories,
    subcategories: Subcategories,
}

impl<MS: DatedSource<FinanceRecord>> HomeAccountingDB<MS> {
    /// All components are well-formed and the cache spans one slot
    /// per month.
    pub closed spec fn wf(&self) -> bool {
        &&& self.data.wf()
        &&& self.data.capacity() == MONTH_KEY_CAPACITY as int
        &&& self.accounts.wf()
        &&& self.categories.wf()
        &&& self.subcategories.wf()
        &&& forall|d: usize| self.data.index_of(d) == MonthIndex.index_spec(d)
    }

    /// The bucket cache.
    pub closed spec fn cache_spec(&self) -> TimeSeriesData<FinanceRecord, MS, MonthIndex> {
        self.data
    }

    /// The account index.
    pub closed spec fn accounts_map(&self) -> Map<u64, Account> {
        self.accounts.as_map()
    }

    /// The subcategory index.
    pub closed spec fn subcategories_map(&self) -> Map<u64, Subcategory> {
        self.subcategories.as_map()
    }

    /// A borrow of the bucket cache.
    pub fn cache(&self) -> (r: &TimeSeriesData<FinanceRecord, MS, MonthIndex>)
        ensures
            *r == self.cache_spec(),
    {
        &self.data
    }

    /// A borrow of the account index.
    pub fn accounts(&self) -> (r: &Accounts)
        ensures
            r.as_map() == self.accounts_map(),
    {
        &self.accounts
    }

    /// Assembles a database from its parts.
    pub fn from_components(
        data: TimeSeriesData<FinanceRecord, MS, MonthIndex>,
        accounts: Accounts,
        categories: Categories,
        subcategories: Subcategories,
    ) -> (r: Self)
        requires
            data.wf(),
            data.capacity() == MONTH_KEY_CAPACITY as int,
            accounts.wf(),
            categories.wf(),
            subcategories.wf(),
            forall|d: usize| data.index_of(d) == MonthIndex.index_spec(d),
        ensures
            r.wf(),
            r.cache_spec() == data,
            r.accounts_map() == accounts.as_map(),
            r.subcategories_map() == subcategories.as_map(),
    {
        HomeAccountingDB { data, accounts, categories, subcategories }
    }

    /// Opens a database without reading any bucket: the cache starts
    /// empty and the three reference files are loaded through the
    /// configuration's sources.
    pub fn new<C: DBConfiguration<MainSource = MS>>(
        data_folder_path: String,
        data_source: &C,
        max_active_items: usize,
    ) -> (r: Result<Self, DbError>)
        requires
            max_active_items >= 1,
        ensures
            r matches Ok(db) ==> db.wf(),
    {
        let data = TimeSeriesData::new(
            data_folder_path.clone().concat("/dates"),
            data_source.get_main_data_source(),
            MonthIndex,
            max_active_items,
            MONTH_KEY_CAPACITY,
        );
        let accounts = match Accounts::load(
            data_folder_path.clone(), &data_source.get_accounts_source()) {
            Ok(a) => a,
            Err(e) => {
                return Err(e);
            },
        };
        let categories = match Categories::load(
            data_folder_path.clone(), &data_source.get_categories_source()) {
            Ok(c) => c,
            Err(e) => {
                return Err(e);
            },
        };
        let subcategories = match Subcategories::load(
            data_folder_path, &data_source.get_subcategories_source()) {
            Ok(s) => s,
            Err(e) => {
                return Err(e);
            },
        };
        Ok(HomeAccountingDB { data, accounts, categories, subcategories })
    }

    /// Opens a database over the given discovered bucket files: every
    /// bucket is loaded under the eviction discipline, the reference
    /// files are loaded, and one ledger sweep propagates the totals.
    pub fn load<C: DBConfiguration<MainSource = MS>>(
        data_folder_path: String,
        data_source: &C,
        max_active_items: usize,
        files: Vec<FileInfo>,
    ) -> (r: Result<Self, DbError>)
        requires
            max_active_items >= 1,
        ensures
            r matches Ok(db) ==> db.wf(),
    {
        let data = match TimeSeriesData::load(
            data_folder_path.clone().concat("/dates"),
            data_source.get_main_data_source(),
            MonthIndex,
            max_active_items,
            MONTH_KEY_CAPACITY,
            files,
        ) {
            Ok(d) => d,
            Err(e) => {
                return Err(e);
            },
        };
        let accounts = match Accounts::load(
            data_folder_path.clone(), &data_source.get_accounts_source()) {
            Ok(a) => a,
            Err(e) => {
                return Err(e);
            },
        };
        let categories = match Categories::load(
            data_folder_path.clone(), &data_source.get_categories_source()) {
            Ok(c) => c,
            Err(e) => {
                return Err(e);
            },
        };
        let subcategories = match Subcategories::load(
            data_folder_path, &data_source.get_subcategories_source()) {
            Ok(s) => s,
            Err(e) => {
                return Err(e);
            },
        };
        let mut db = HomeAccountingDB { data, accounts, categories, subcategories };
        match db.build_totals(0) {
            Ok(()) => {},
            Err(e) => {
                return Err(e);
            },
        }
        Ok(db)
    }

    /// One ledger sweep from `from` onward: every known bucket is
    /// visited in ascending key order; from the second visited bucket
    /// on, the bucket's carried totals are overwritten with the
    /// closing balances of its predecessor, and the bucket's own
    /// closing sheet is computed for the next step.  Buckets are not
    /// marked dirty.  Afterwards, any two consecutively known buckets
    /// in the swept range that are both still resident stand in the
    /// carried-totals relation.
    pub fn build_totals(&mut self, from: usize) -> (r: Result<(), DbError>)
        requires
            old(self).wf(),
        ensures
            final(self).wf(),
            forall|k: int| final(self).cache_spec().is_known(k)
                == old(self).cache_spec().is_known(k),
            forall|k: int| final(self).cache_spec().is_dirty(k)
                ==> old(self).cache_spec().is_dirty(k),
            final(self).accounts_map() == old(self).accounts_map(),
            final(self).subcategories_map() == old(self).subcategories_map(),
            old(self).cache_spec().max_known() is None ==> r is Ok,
            (forall|j: int| MonthIndex.index_spec(from) <= j
                ==> !old(self).cache_spec().is_known(j)) ==> r is Ok,
            sweep_ready(old(self).cache_spec(), from, old(self).subcategories_map(),
                old(self).accounts_map()) ==> r is Ok,
            (sweep_ready(old(self).cache_spec(), from, old(self).subcategories_map(),
                old(self).accounts_map())
                && sweep_keys(old(self).cache_spec(), from).len() > 0) ==> (
                final(self).cache_spec().payload(
                    sweep_keys(old(self).cache_spec(), from)[0] as int)
                == old(self).cache_spec().payload(
                    sweep_keys(old(self).cache_spec(), from)[0] as int)
            ),
            r is Ok ==> ({
                let subs = final(self).subcategories_map();
                let accs = final(self).accounts_map();
                let c = final(self).cache_spec();
                let lo = MonthIndex.index_spec(from);
                forall|k1: int, k2: int|
                    #![trigger c.payload(k1), c.payload(k2)]
                    c.is_resident(k1) && c.is_resident(k2)
                    && lo <= k1 < k2
                    && (forall|km: int| k1 < km < k2 ==> !c.is_known(km))
                    && old(self).cache_spec().is_known(k1)
                    && old(self).cache_spec().is_known(k2)
                    ==> c.payload(k2).totals.as_map()
                        == close_of(c.payload(k1), subs, accs)
            }),
    {
        let ghost subs = self.subcategories.as_map();
        let ghost accs = self.accounts.as_map();
        let ghost orig = self.data;
        let ghost lo = MonthIndex.index_spec(from);
        let ghost lo0 = sweep_lo(from);
        let ghost ks0 = sweep_keys(orig, from);
        let ghost models = bucket_models(orig, ks0);
        let ghost hyp: bool = sweep_ready(orig, from, subs, accs);
        proof {
            lemma_known_keys_from(orig, lo0);
            orig.lemma_known_bounds();
            if hyp {
                assert forall|a: int| 0 <= a < ks0.len()
                    implies orig.is_resident((#[trigger] ks0[a]) as int) by {
                    assert(ks0[a] == sweep_keys(orig, from)[a]);
                }
                assert forall|j: int| lo0 <= j <= 999999 && orig.is_known(j)
                    implies orig.is_resident(j) by {
                    assert(ks0.contains(j as usize));
                    let a = choose|a: int| 0 <= a < ks0.len() && ks0[a] == j as usize;
                    assert(orig.is_resident(ks0[a] as int));
                }
            }
        }
        let keys = match self.data.get_range(from, MAX_DATE) {
            Ok(k) => k,
            Err(e) => {
                proof {
                    assert(MonthIndex.index_spec(MAX_DATE) == 999999int);
                    if forall|j: int| MonthIndex.index_spec(from) <= j
                        ==> !old(self).cache_spec().is_known(j) {
                        assert(false);
                    }
                    if hyp {
                        assert(false);
                    }
                }
                return Err(e);
            },
        };
        proof {
            assert(MonthIndex.index_spec(MAX_DATE) == 999999int);
            assert forall|a: int| 0 <= a < keys@.len()
                implies self.data.is_known((#[trigger] keys@[a]) as int) by {
                assert(keys@.contains(keys@[a]));
            }
            if hyp {
                assert forall|x: usize| keys@.contains(x) implies ks0.contains(x) by {}
                assert forall|x: usize| ks0.contains(x) implies keys@.contains(x) by {
                    assert(lo0 <= x as int && orig.is_known(x as int));
                    assert((x as int) < orig.capacity());
                }
                lemma_sorted_unique(keys@, ks0);
                assert(keys@ == ks0);
            }
        }
        let ghost ks = keys@;
        proof {
            if hyp {
                assert forall|a: int| 0 <= a < ks.len()
                    implies self.data.is_resident((#[trigger] ks[a]) as int)
                        && self.data.payload(ks[a] as int) == orig.payload(ks[a] as int)
                        && models[a] == (orig.payload(ks[a] as int).totals.as_map(),
                            orig.payload(ks[a] as int).operations@,
                            orig.payload(ks[a] as int).totals.wf()) by {
                    assert(ks[a] == ks0[a]);
                    assert(orig.is_resident(ks0[a] as int));
                    assert(self.data.is_resident(ks[a] as int)
                        == orig.is_resident(ks[a] as int));
                    assert(self.data.payload(ks[a] as int) == orig.payload(ks[a] as int));
                }
            }
        }
        let n = keys.len();
        let mut changes: Option<FinanceChanges> = None;
        let mut j: usize = 0;
        while j < n
            invariant
                orig == old(self).cache_spec(),
                lo == MonthIndex.index_spec(from),
                accs == old(self).accounts_map(),
                subs == old(self).subcategories_map(),
                self.accounts == old(self).accounts,
                self.subcategories == old(self).subcategories,
                self.categories == old(self).categories,
                self.accounts.wf(),
                self.subcategories.wf(),
                self.categories.wf(),
                subs == self.subcategories.as_map(),
                accs == self.accounts.as_map(),
                self.data.wf(),
                self.data.capacity() == MONTH_KEY_CAPACITY as int,
                forall|d: usize| self.data.index_of(d) == MonthIndex.index_spec(d),
                j <= n,
                n == ks.len(),
                ks == keys@,
                old(self).cache_spec().max_known() is Some || n == 0,
                forall|a: int, b: int| 0 <= a < b < ks.len() ==> ks[a] < ks[b],
                forall|a: int| 0 <= a < ks.len()
                    ==> self.data.is_known((#[trigger] ks[a]) as int),
                forall|x: usize| ks.contains(x)
                    <==> (self.data.is_known(x as int) && lo <= x as int <= 999999),
                forall|k: int| self.data.is_known(k) == orig.is_known(k),
                forall|k: int| self.data.is_dirty(k) ==> orig.is_dirty(k),
                lo0 == sweep_lo(from),
                ks0 == sweep_keys(orig, from),
                models == bucket_models(orig, ks0),
                hyp == sweep_ready(orig, from, subs, accs),
                hyp ==> sweep_ok(models, subs, accs),
                hyp ==> ks == ks0,
                hyp ==> (forall|a: int| 0 <= a < ks.len()
                    ==> self.data.is_resident((#[trigger] ks[a]) as int)),
                hyp ==> (forall|a: int| 0 <= a < ks.len()
                    ==> self.data.payload((#[trigger] ks[a]) as int).operations@
                        == models[a].1),
                hyp ==> (forall|a: int| j <= a < ks.len()
                    ==> self.data.payload((#[trigger] ks[a]) as int).totals.as_map()
                        == models[a].0
                        && self.data.payload(ks[a] as int).totals.wf()),
                hyp ==> (j > 0 ==> (changes matches Some(chv)
                    && chv.as_map() == sweep_sheet(models, j - 1, subs, accs))),
                hyp ==> (ks.len() > 0 ==> self.data.payload(ks[0] as int)
                    == orig.payload(ks[0] as int)),
                changes is None <==> j == 0,
                (changes matches Some(ch) ==> ch.wf()),
                (changes matches Some(ch)
                    ==> (self.data.is_resident(ks[j - 1] as int)
                        ==> ch.as_map() == sheet_of(self.data.payload(ks[j - 1] as int), subs, accs))),
                forall|a: int| 0 < a < j
                    && self.data.is_resident(ks[a - 1] as int)
                    && self.data.is_resident(#[trigger] ks[a] as int)
                    ==> self.data.payload(ks[a] as int).totals.as_map()
                        == close_of(self.data.payload(ks[a - 1] as int), subs, accs),
            decreases n - j,
        {
            let key = keys[j];
            proof {
                assert(ks.contains(ks[j as int]));
                assert(ks.contains(ks[0]));
                assert(orig.is_known(ks[0] as int) && lo <= ks[0] as int);
            }
            let ghost pr = self.data;
            proof {
                if hyp {
                    assert(pr.is_resident(ks[j as int] as int));
                }
            }
            match self.data.touch(key) {
                Ok(()) => {},
                Err(e) => {
                    proof {
                        if hyp {
                            assert(false);
                        }
                    }
                    return Err(e);
                },
            }
            proof {
                if hyp {
                    assert forall|a: int| 0 <= a < ks.len()
                        implies self.data.is_resident((#[trigger] ks[a]) as int)
                            && self.data.payload(ks[a] as int) == pr.payload(ks[a] as int) by {
                        assert(pr.is_resident(ks[a] as int));
                    }
                }
            }
            let ghost pt = self.data;
            let rec_check = self.data.payload_ref(key);
            if !rec_check.totals.is_well_formed() {
                proof {
                    if hyp {
                        assert(self.data.payload(ks[j as int] as int).totals.wf());
                        assert(false);
                    }
                }
                return Err(DbError::new(
                    DbErrorKind::InvalidData, "invalid bucket totals".to_owned()));
            }
            match &changes {
                Some(ch) => {
                    proof {
                        if hyp {
                            assert(ch.as_map() == sweep_sheet(models, j - 1, subs, accs));
                        }
                    }
                    let totals = match ch.build_totals() {
                        Ok(t) => t,
                        Err(e) => {
                            proof {
                                if hyp {
                                    assert(false);
                                }
                            }
                            return Err(e);
                        },
                    };
                    let dummy = FinanceRecord::new(Vec::new());
                    let mut rec = self.data.replace_payload(key, dummy);
                    let ghost pm = self.data;
                    rec.totals = totals;
                    self.data.replace_payload(key, rec);
                    proof {
                        if hyp {
                            assert(self.data.payload(ks[j as int] as int).totals.as_map()
                                == totals_of(sweep_sheet(models, j - 1, subs, accs)));
                            assert(self.data.payload(ks[j as int] as int).operations@
                                == models[j as int].1);
                            assert forall|a: int| 0 <= a < ks.len() && a != j as int
                                implies self.data.payload((#[trigger] ks[a]) as int)
                                    == pt.payload(ks[a] as int) by {
                                if a < j as int {
                                    assert(ks[a] < ks[j as int]);
                                } else {
                                    assert(ks[j as int] < ks[a]);
                                }
                                assert(pt.is_known(ks[a] as int));
                                pt.lemma_known_bounds();
                                assert(0 <= (ks[a] as int) && (ks[a] as int) < pt.capacity());
                                assert(pm.payload(ks[a] as int) == pt.payload(ks[a] as int));
                                assert(self.data.payload(ks[a] as int)
                                    == pm.payload(ks[a] as int));
                            }
                        }
                    }
                },
                None => {},
            }
            let rec_ref = self.data.payload_ref(key);
            proof {
                if hyp {
                    assert(rec_ref.totals.as_map() == (if j == 0 { models[0].0 }
                        else { totals_of(sweep_sheet(models, j - 1, subs, accs)) }));
                    assert(rec_ref.operations@ == models[j as int].1);
                    assert(seq_ok_within(changes_of_totals(rec_ref.totals.as_map()),
                        rec_ref.operations@, 0, usize::MAX, subs, accs));
                }
            }
            let ch2 = match rec_ref.build_changes(&self.accounts, &self.subcategories) {
                Ok(c) => c,
                Err(e) => {
                    proof {
                        if hyp {
                            assert(false);
                        }
                    }
                    return Err(e);
                },
            };
            proof {
                if hyp {
                    assert(ch2.as_map() == sweep_sheet(models, j as int, subs, accs));
                }
            }
            changes = Some(ch2);
            proof {
                assert forall|a: int| 0 < a < j + 1
                    && self.data.is_resident(ks[a - 1] as int)
                    && self.data.is_resident(#[trigger] ks[a] as int)
                    implies self.data.payload(ks[a] as int).totals.as_map()
                        == close_of(self.data.payload(ks[a - 1] as int), subs, accs) by {
                    if a < j {
                        assert(ks[a] < ks[j as int]);
                        assert(ks[a - 1] < ks[j as int]);
                    }
                }
            }
            j = j + 1;
        }
        proof {
            let c = self.data;
            assert forall|k1: int, k2: int|
                #![trigger c.payload(k1), c.payload(k2)]
                c.is_resident(k1) && c.is_resident(k2)
                && lo <= k1 < k2
                && (forall|km: int| k1 < km < k2 ==> !c.is_known(km))
                && orig.is_known(k1)
                && orig.is_known(k2)
                implies c.payload(k2).totals.as_map()
                    == close_of(c.payload(k1), subs, accs) by {
                assert(c.is_known(k1) && c.is_known(k2));
                c.lemma_known_bounds();
                assert(k1 <= 999999 && k2 <= 999999);
                assert(ks.contains(k1 as usize));
                assert(ks.contains(k2 as usize));
                let a1 = choose|a: int| 0 <= a < ks.len() && ks[a] == k1 as usize;
                let a2 = choose|a: int| 0 <= a < ks.len() && ks[a] == k2 as usize;
                assert(a1 < a2) by {
                    if a2 < a1 {
                        assert(ks[a2] < ks[a1]);
                    }
                }
                assert(a2 == a1 + 1) by {
                    if a1 + 1 < a2 {
                        assert(ks[a1] < ks[a1 + 1] && ks[a1 + 1] < ks[a2]);
                        assert(ks.contains(ks[a1 + 1]));
                        assert(!c.is_known(ks[a1 + 1] as int));
                    }
                }
            }
        }
        Ok(())
    }

    /// The operations dated exactly `date` and the balance sheet of
    /// that day: the bucket covering the date is located, a sheet is
    /// built from its totals with every earlier operation applied,
    /// and a fresh sheet opened at those intermediate totals takes
    /// the day's own operations.  A date no known bucket covers
    /// yields no operations and an empty sheet.
    pub fn build_ops_and_changes(&mut self, date: usize)
        -> (r: Result<(Vec<FinanceOperation>, FinanceChanges), DbError>)
        requires
            old(self).wf(),
            1 <= date,
            MonthIndex.index_spec(date) < MONTH_KEY_CAPACITY as int,
        ensures
            final(self).wf(),
            forall|k: int| final(self).cache_spec().is_known(k)
                == old(self).cache_spec().is_known(k),
            final(self).accounts_map() == old(self).accounts_map(),
            final(self).subcategories_map() == old(self).subcategories_map(),
            ({
                let idx = MonthIndex.index_spec(date);
                let k = old(self).cache_spec().greatest_known_le(idx);
                let subs = old(self).subcategories_map();
                let accs = old(self).accounts_map();
                &&& (idx >= 0 && k == -1 ==> (r matches Ok(p)
                    && p.0@ == Seq::<FinanceOperation>::empty()
                    && p.1.as_map() == Map::<u64, crate::finance::FinanceChange>::empty()))
                &&& (k >= 0 ==> (r matches Ok(p) ==> ({
                    let c = final(self).cache_spec();
                    let rec = c.payload(k);
                    let sheet1 = apply_seq_within(
                        changes_of_totals(rec.totals.as_map()),
                        rec.operations@, 0, (date - 1) as usize, subs, accs);
                    &&& c.is_resident(k)
                    &&& p.0@.map_values(|o: FinanceOperation| op_view(o))
                        == ops_with_date(rec.operations@, date)
                    &&& p.1.wf()
                    &&& p.1.as_map() == apply_seq_within(
                        changes_of_totals(totals_of(sheet1)),
                        rec.operations@, date, date, subs, accs)
                })))
                &&& ({
                    let rec0 = old(self).cache_spec().payload(k);
                    let init0 = changes_of_totals(rec0.totals.as_map());
                    let sheet0 = apply_seq_within(
                        init0, rec0.operations@, 0, (date - 1) as usize, subs, accs);
                    (k >= 0 && old(self).cache_spec().is_resident(k)
                        && rec0.totals.wf()
                        && seq_ok_within(init0, rec0.operations@, 0, (date - 1) as usize,
                            subs, accs)
                        && (forall|a: u64| #[trigger] sheet0.contains_key(a)
                            ==> sheet0[a].end_fits())
                        && seq_ok_within(changes_of_totals(totals_of(sheet0)),
                            rec0.operations@, date, date, subs, accs))
                        ==> r is Ok
                })
            }),
    {
        let ghost subs = self.subcategories.as_map();
        let ghost accs = self.accounts.as_map();
        let ghost idx = MonthIndex.index_spec(date);
        let ghost k = old(self).cache_spec().greatest_known_le(idx);
        let ghost rec0 = old(self).cache_spec().payload(k);
        let ghost init0 = changes_of_totals(rec0.totals.as_map());
        let ghost sheet0 = apply_seq_within(
            init0, rec0.operations@, 0, (date - 1) as usize, subs, accs);
        let ghost hyp: bool = k >= 0 && old(self).cache_spec().is_resident(k)
            && rec0.totals.wf()
            && seq_ok_within(init0, rec0.operations@, 0, (date - 1) as usize, subs, accs)
            && (forall|a: u64| #[trigger] sheet0.contains_key(a) ==> sheet0[a].end_fits())
            && seq_ok_within(changes_of_totals(totals_of(sheet0)),
                rec0.operations@, date, date, subs, accs);
        match self.data.get(date) {
            Err(e) => {
                proof {
                    if hyp {
                        assert(false);
                    }
                }
                Err(e)
            },
            Ok(None) => Ok((Vec::new(), FinanceChanges::empty())),
            Ok(Some(record)) => {
                proof {
                    if hyp {
                        assert(*record == rec0);
                    }
                }
                if !record.totals.is_well_formed() {
                    proof {
                        if hyp {
                            assert(false);
                        }
                    }
                    return Err(DbError::new(
                        DbErrorKind::InvalidData, "invalid bucket totals".to_owned()));
                }
                let mut changes = record.create_changes();
                match record.update_changes(
                    &mut changes, 0, date - 1, &self.accounts, &self.subcategories) {
                    Ok(()) => {},
                    Err(e) => {
                        proof {
                            if hyp {
                                assert(false);
                            }
                        }
                        return Err(e);
                    },
                }
                let totals = match changes.build_totals() {
                    Ok(t) => t,
                    Err(e) => {
                        proof {
                            if hyp {
                                assert(changes.as_map() == sheet0);
                                assert(false);
                            }
                        }
                        return Err(e);
                    },
                };
                let mut day_changes = FinanceChanges::new(&totals);
                match record.update_changes(
                    &mut day_changes, date, date, &self.accounts, &self.subcategories) {
                    Ok(()) => {},
                    Err(e) => {
                        proof {
                            if hyp {
                                assert(day_changes.as_map()
                                    == changes_of_totals(totals_of(sheet0)));
                                assert(false);
                            }
                        }
                        return Err(e);
                    },
                }
                let ops = record.get_ops(date);
                Ok((ops, day_changes))
            },
        }
    }

    /// Re-encodes the store: every known bucket is faulted in through
    /// this database's source and saved under `dest_folder` through
    /// the destination source.
    pub fn migrate<S2: DatedSource<FinanceRecord>>(&mut self, dest_folder: String, dest: &mut S2)
        -> (r: Result<(), DbError>)
        requires
            old(self).wf(),
        ensures
            final(self).wf(),
            forall|k: int| final(self).cache_spec().is_known(k)
                == old(self).cache_spec().is_known(k),
            final(self).accounts_map() == old(self).accounts_map(),
            final(self).subcategories_map() == old(self).subcategories_map(),
            old(self).cache_spec().max_known() is None ==> r is Ok,
    {
        let ghost orig = self.data;
        let keys = match self.data.get_range(0, MAX_DATE) {
            Ok(k) => k,
            Err(e) => {
                return Err(e);
            },
        };
        proof {
            assert forall|a: int| 0 <= a < keys@.len()
                implies self.data.is_known((#[trigger] keys@[a]) as int) by {
                assert(keys@.contains(keys@[a]));
            }
        }
        let ghost ks = keys@;
        let n = keys.len();
        let mut j: usize = 0;
        while j < n
            invariant
                orig == old(self).cache_spec(),
                self.accounts == old(self).accounts,
                self.subcategories == old(self).subcategories,
                self.categories == old(self).categories,
                self.accounts.wf(),
                self.subcategories.wf(),
                self.categories.wf(),
                self.data.wf(),
                self.data.capacity() == MONTH_KEY_CAPACITY as int,
                forall|d: usize| self.data.index_of(d) == MonthIndex.index_spec(d),
                j <= n,
                n == ks.len(),
                ks == keys@,
                forall|a: int| 0 <= a < ks.len()
                    ==> self.data.is_known((#[trigger] ks[a]) as int),
                forall|k: int| self.data.is_known(k) == orig.is_known(k),
                orig.max_known() is Some || n == 0,
            decreases n - j,
        {
            let key = keys[j];
            match self.data.touch(key) {
                Ok(()) => {},
                Err(e) => {
                    return Err(e);
                },
            }
            let rec = self.data.payload_ref(key);
            match dest.save(rec, &dest_folder, key) {
                Ok(()) => {},
                Err(e) => {
                    return Err(e);
                },
            }
            j = j + 1;
        }
        Ok(())
    }
}

} // verus!
