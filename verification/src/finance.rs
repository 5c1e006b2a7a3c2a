//! Finance operations and their semantics: how one operation changes
//! a per-account balance sheet, and how a bucket of operations builds
//! its closing totals.

use vstd::prelude::*;

use crate::accounts::{Account, Accounts};
use crate::errors::{DbError, DbErrorKind};
use crate::id_map::IdMap;
use crate::subcategories::{Subcategories, Subcategory, SubcategoryCode, SubcategoryOperationCode};

verus! {

/// A tagged operation parameter.
#[derive(Clone, Debug)]
pub enum FinOpParameter {
    Amou(u64),
    Dist(u64),
    Netw(String),
    Ppto(u64),
    Seca(u64),
    Typ(String),
}

/// One finance operation.  `date` is the full calendar date the
/// operation belongs to; `summa` is in hundredths of currency and
/// `amount`, when present, in thousandths of a physical quantity.
pub struct FinanceOperation {
    pub date: usize,
    pub account: u64,
    pub subcategory: u64,
    pub amount: Option<u64>,
    pub summa: i64,
    pub parameters: Vec<FinOpParameter>,
}

/// The per-account accumulator: an opening balance plus the income
/// and expenditure seen so far.
#[derive(Clone, Copy, PartialEq, Eq, Structural, Debug)]
pub struct FinanceChange {
    pub start_balance: i64,
    pub income: i64,
    pub expenditure: i64,
}

impl FinanceChange {
    /// The mathematical closing balance.
    pub open spec fn end_balance_spec(&self) -> int {
        self.start_balance + self.income - self.expenditure
    }

    /// The closing balance fits a machine word.
    pub open spec fn end_fits(&self) -> bool {
        i64::MIN <= self.end_balance_spec() <= i64::MAX
    }

    /// A fresh accumulator opening at the given balance.
    pub fn new(start_balance: i64) -> (r: FinanceChange)
        ensures
            r == (FinanceChange { start_balance, income: 0, expenditure: 0 }),
    {
        FinanceChange { start_balance, income: 0, expenditure: 0 }
    }

    /// The closing balance `start + income - expenditure`, or invalid
    /// data when it exceeds the machine range.
    pub fn get_end_balance(&self) -> (r: Result<i64, DbError>)
        ensures
            self.end_fits() ==> (r matches Ok(v) && v == self.end_balance_spec()),
            !self.end_fits() ==> (r matches Err(e) && e.kind == DbErrorKind::InvalidData),
    {
        match self.start_balance.checked_add(self.income) {
            Some(s) => match s.checked_sub(self.expenditure) {
                Some(v) => Ok(v),
                None => Err(DbError::new(DbErrorKind::InvalidData, "balance overflow".to_owned())),
            },
            None => {
                // The two-step sum may overflow even when the final
                // balance fits; fall back over the subtraction first.
                match self.start_balance.checked_sub(self.expenditure) {
                    Some(s) => match s.checked_add(self.income) {
                        Some(v) => Ok(v),
                        None => Err(DbError::new(DbErrorKind::InvalidData, "balance overflow".to_owned())),
                    },
                    None => Err(DbError::new(DbErrorKind::InvalidData, "balance overflow".to_owned())),
                }
            },
        }
    }

    /// Adds income; an addition leaving the machine range is invalid
    /// data and changes nothing.
    pub fn handle_income(&mut self, summa: i64) -> (r: Result<(), DbError>)
        ensures
            (i64::MIN <= old(self).income + summa <= i64::MAX) ==> (
                r is Ok
                && final(self).income == old(self).income + summa
                && final(self).start_balance == old(self).start_balance
                && final(self).expenditure == old(self).expenditure
            ),
            !(i64::MIN <= old(self).income + summa <= i64::MAX) ==> (
                (r matches Err(e) && e.kind == DbErrorKind::InvalidData)
                && *final(self) == *old(self)
            ),
    {
        match self.income.checked_add(summa) {
            Some(v) => {
                self.income = v;
                Ok(())
            },
            None => Err(DbError::new(DbErrorKind::InvalidData, "income overflow".to_owned())),
        }
    }

    /// Adds expenditure; an addition leaving the machine range is
    /// invalid data and changes nothing.
    pub fn handle_expenditure(&mut self, summa: i64) -> (r: Result<(), DbError>)
        ensures
            (i64::MIN <= old(self).expenditure + summa <= i64::MAX) ==> (
                r is Ok
                && final(self).expenditure == old(self).expenditure + summa
                && final(self).start_balance == old(self).start_balance
                && final(self).income == old(self).income
            ),
            !(i64::MIN <= old(self).expenditure + summa <= i64::MAX) ==> (
                (r matches Err(e) && e.kind == DbErrorKind::InvalidData)
                && *final(self) == *old(self)
            ),
    {
        match self.expenditure.checked_add(summa) {
            Some(v) => {
                self.expenditure = v;
                Ok(())
            },
            None => Err(DbError::new(DbErrorKind::InvalidData, "expenditure overflow".to_owned())),
        }
    }
}

/// The accumulator a balance sheet holds for an account it has not
/// seen yet.
pub open spec fn zero_change() -> FinanceChange {
    FinanceChange { start_balance: 0, income: 0, expenditure: 0 }
}

/// The accumulator of `account` in the sheet, zero when absent.
pub open spec fn change_at(m: Map<u64, FinanceChange>, account: u64) -> FinanceChange {
    if m.contains_key(account) {
        m[account]
    } else {
        zero_change()
    }
}

/// Whether adding `summa` of income to `account` stays in range.
pub open spec fn income_fits(m: Map<u64, FinanceChange>, account: u64, summa: int) -> bool {
    i64::MIN <= change_at(m, account).income + summa <= i64::MAX
}

/// The sheet after adding `summa` of income to `account`.
pub open spec fn with_income(m: Map<u64, FinanceChange>, account: u64, summa: int)
    -> Map<u64, FinanceChange> {
    let c = change_at(m, account);
    m.insert(account, FinanceChange { income: (c.income + summa) as i64, ..c })
}

/// Whether adding `summa` of expenditure to `account` stays in range.
pub open spec fn expenditure_fits(m: Map<u64, FinanceChange>, account: u64, summa: int) -> bool {
    i64::MIN <= change_at(m, account).expenditure + summa <= i64::MAX
}

/// The sheet after adding `summa` of expenditure to `account`.
pub open spec fn with_expenditure(m: Map<u64, FinanceChange>, account: u64, summa: int)
    -> Map<u64, FinanceChange> {
    let c = change_at(m, account);
    m.insert(account, FinanceChange { expenditure: (c.expenditure + summa) as i64, ..c })
}

/// The account a transfer-like operation routes its income to: the
/// target of the single `Seca` parameter, if the parameters are
/// exactly that.
pub open spec fn seca_target(params: Seq<FinOpParameter>) -> Option<u64> {
    if params.len() == 1 && params[0] is Seca {
        Some(params[0]->Seca_0)
    } else {
        None
    }
}

/// The transfer step shared by exchanges and transfers: expenditure
/// of `s` from the operation's account, then, when a single `Seca`
/// parameter names a destination, income of the operation's summa
/// there.
pub open spec fn trfr_step(m: Map<u64, FinanceChange>, op: FinanceOperation, s: int)
    -> Map<u64, FinanceChange> {
    let m1 = with_expenditure(m, op.account, s);
    match seca_target(op.parameters@) {
        Some(dst) => with_income(m1, dst, op.summa as int),
        None => m1,
    }
}

/// Whether the transfer step stays in range.
pub open spec fn trfr_fits(m: Map<u64, FinanceChange>, op: FinanceOperation, s: int) -> bool {
    &&& expenditure_fits(m, op.account, s)
    &&& (seca_target(op.parameters@) matches Some(dst)
        ==> income_fits(with_expenditure(m, op.account, s), dst, op.summa as int))
}

/// The effect of one operation on a balance sheet, given its resolved
/// subcategory and the cash account consulted for the cash-routing
/// codes.  An invalid code leaves the sheet unchanged; the
/// executable path rejects it instead.
pub open spec fn op_effect(
    m: Map<u64, FinanceChange>,
    op: FinanceOperation,
    sub: Subcategory,
    cash: Option<u64>,
) -> Map<u64, FinanceChange> {
    match sub.operation_code {
        SubcategoryOperationCode::Incm => with_income(m, op.account, op.summa as int),
        SubcategoryOperationCode::Expn => with_expenditure(m, op.account, op.summa as int),
        SubcategoryOperationCode::Spcl => match sub.code {
            SubcategoryCode::Incc => {
                let m1 = with_income(m, op.account, op.summa as int);
                match cash {
                    Some(a) => with_expenditure(m1, a, op.summa as int),
                    None => m1,
                }
            },
            SubcategoryCode::Expc => {
                let m1 = with_expenditure(m, op.account, op.summa as int);
                match cash {
                    Some(a) => with_income(m1, a, op.summa as int),
                    None => m1,
                }
            },
            SubcategoryCode::Exch => match op.amount {
                Some(a) => trfr_step(m, op, a as int / 10),
                None => m,
            },
            SubcategoryCode::Trfr => trfr_step(m, op, op.summa as int),
            _ => m,
        },
    }
}

/// Whether the arithmetic of one operation's effect stays in range.
pub open spec fn op_fits(
    m: Map<u64, FinanceChange>,
    op: FinanceOperation,
    sub: Subcategory,
    cash: Option<u64>,
) -> bool {
    match sub.operation_code {
        SubcategoryOperationCode::Incm => income_fits(m, op.account, op.summa as int),
        SubcategoryOperationCode::Expn => expenditure_fits(m, op.account, op.summa as int),
        SubcategoryOperationCode::Spcl => match sub.code {
            SubcategoryCode::Incc => income_fits(m, op.account, op.summa as int)
                && (cash matches Some(a) ==> expenditure_fits(
                    with_income(m, op.account, op.summa as int), a, op.summa as int)),
            SubcategoryCode::Expc => expenditure_fits(m, op.account, op.summa as int)
                && (cash matches Some(a) ==> income_fits(
                    with_expenditure(m, op.account, op.summa as int), a, op.summa as int)),
            SubcategoryCode::Exch => (op.amount matches Some(a)
                ==> a as int / 10 <= i64::MAX && trfr_fits(m, op, a as int / 10)),
            SubcategoryCode::Trfr => trfr_fits(m, op, op.summa as int),
            _ => true,
        },
    }
}

/// Whether the reference data can interpret the operation: its
/// subcategory exists, a special subcategory carries one of the four
/// handled codes, and the cash-routing codes find the account.
pub open spec fn op_applicable(
    op: FinanceOperation,
    subs: Map<u64, Subcategory>,
    accs: Map<u64, Account>,
) -> bool {
    &&& subs.contains_key(op.subcategory)
    &&& (subs[op.subcategory].operation_code is Spcl ==> {
        ||| subs[op.subcategory].code is Incc
        ||| subs[op.subcategory].code is Expc
        ||| subs[op.subcategory].code is Exch
        ||| subs[op.subcategory].code is Trfr
    })
    &&& ((subs[op.subcategory].operation_code is Spcl
        && (subs[op.subcategory].code is Incc || subs[op.subcategory].code is Expc))
        ==> accs.contains_key(op.account))
}

/// The cash account the operation consults, if its code routes cash.
pub open spec fn op_cash(
    op: FinanceOperation,
    subs: Map<u64, Subcategory>,
    accs: Map<u64, Account>,
) -> Option<u64> {
    if subs.contains_key(op.subcategory)
        && subs[op.subcategory].operation_code is Spcl
        && (subs[op.subcategory].code is Incc || subs[op.subcategory].code is Expc)
        && accs.contains_key(op.account) {
        accs[op.account].cash_account
    } else {
        None
    }
}

/// The sheet after one operation, resolved against the reference
/// data.
pub open spec fn apply_op_spec(
    m: Map<u64, FinanceChange>,
    op: FinanceOperation,
    subs: Map<u64, Subcategory>,
    accs: Map<u64, Account>,
) -> Map<u64, FinanceChange> {
    op_effect(m, op, subs[op.subcategory], op_cash(op, subs, accs))
}

/// Whether one resolved operation's arithmetic stays in range.
pub open spec fn apply_op_fits(
    m: Map<u64, FinanceChange>,
    op: FinanceOperation,
    subs: Map<u64, Subcategory>,
    accs: Map<u64, Account>,
) -> bool {
    op_fits(m, op, subs[op.subcategory], op_cash(op, subs, accs))
}

/// Whether an operation's date lies in `[from, to]`.
pub open spec fn within_spec(op: FinanceOperation, from: usize, to: usize) -> bool {
    from <= op.date <= to
}

/// The sheet after applying, in order, every operation of the
/// sequence whose date lies in `[from, to]`.
pub open spec fn apply_seq_within(
    m: Map<u64, FinanceChange>,
    t: Seq<FinanceOperation>,
    from: usize,
    to: usize,
    subs: Map<u64, Subcategory>,
    accs: Map<u64, Account>,
) -> Map<u64, FinanceChange>
    decreases t.len(),
{
    if t.len() == 0 {
        m
    } else {
        let m1 = apply_seq_within(m, t.drop_last(), from, to, subs, accs);
        if within_spec(t.last(), from, to) {
            apply_op_spec(m1, t.last(), subs, accs)
        } else {
            m1
        }
    }
}

/// Whether every selected operation of the sequence is applicable
/// and its arithmetic stays in range, each against the sheet left by
/// its predecessors.
pub open spec fn seq_ok_within(
    m: Map<u64, FinanceChange>,
    t: Seq<FinanceOperation>,
    from: usize,
    to: usize,
    subs: Map<u64, Subcategory>,
    accs: Map<u64, Account>,
) -> bool
    decreases t.len(),
{
    if t.len() == 0 {
        true
    } else {
        let m1 = apply_seq_within(m, t.drop_last(), from, to, subs, accs);
        seq_ok_within(m, t.drop_last(), from, to, subs, accs)
            && (within_spec(t.last(), from, to) ==> op_applicable(t.last(), subs, accs)
                && apply_op_fits(m1, t.last(), subs, accs))
    }
}

/// The sheet opened from a totals map: every account starts at its
/// carried balance with no income or expenditure yet.
pub open spec fn changes_of_totals(t: Map<u64, i64>) -> Map<u64, FinanceChange> {
    Map::new(
        |k: u64| t.contains_key(k),
        |k: u64| FinanceChange { start_balance: t[k], income: 0, expenditure: 0 },
    )
}

/// The closing balances of a sheet.
pub open spec fn totals_of(m: Map<u64, FinanceChange>) -> Map<u64, i64> {
    Map::new(
        |k: u64| m.contains_key(k),
        |k: u64| (m[k].start_balance + m[k].income - m[k].expenditure) as i64,
    )
}

/// A balance sheet: one accumulator per account, auto-inserting a
/// zeroed entry on first touch.
pub struct FinanceChanges {
    changes: IdMap<FinanceChange>,
}

impl FinanceChanges {
    /// The underlying index is sorted and duplicate-free.
    pub closed spec fn wf(&self) -> bool {
        self.changes.wf()
    }

    /// The sheet as a mathematical map.
    pub closed spec fn as_map(&self) -> Map<u64, FinanceChange> {
        self.changes.as_map()
    }

    /// An empty sheet.
    pub fn empty() -> (r: FinanceChanges)
        ensures
            r.wf(),
            r.as_map() == Map::<u64, FinanceChange>::empty(),
    {
        FinanceChanges { changes: IdMap::new() }
    }

    /// Opens a sheet from carried totals.
    pub fn new(totals: &IdMap<i64>) -> (r: FinanceChanges)
        requires
            totals.wf(),
        ensures
            r.wf(),
            r.as_map() == changes_of_totals(totals.as_map()),
    {
        proof {
            totals.lemma_entries_in_map();
        }
        let entries = totals.entries();
        let n = entries.len();
        let ghost ev = totals.entries_view();
        let mut changes = IdMap::new();
        let mut i: usize = 0;
        while i < n
            invariant
                totals.wf(),
                changes.wf(),
                i <= n,
                n == ev.len(),
                ev == totals.entries_view(),
                entries@ == ev,
                forall|k: u64| changes.as_map().contains_key(k)
                    <==> exists|j: int| 0 <= j < i && (#[trigger] ev[j]).0 == k,
                forall|j: int| 0 <= j < i ==> changes.as_map()[(#[trigger] ev[j]).0]
                    == (FinanceChange { start_balance: ev[j].1, income: 0, expenditure: 0 }),
            decreases n - i,
        {
            let (account, balance) = (entries[i].0, entries[i].1);
            changes.insert(account, FinanceChange::new(balance));
            proof {
                totals.lemma_entries_in_map();
                assert(ev[i as int].0 == account);
                assert forall|j: int| 0 <= j < i + 1
                    implies changes.as_map()[(#[trigger] ev[j]).0]
                        == (FinanceChange { start_balance: ev[j].1, income: 0, expenditure: 0 }) by {
                    if j < i {
                        assert(ev[j].0 < ev[i as int].0);
                    }
                }
            }
            i = i + 1;
        }
        proof {
            totals.lemma_entries_in_map();
            assert forall|k: u64| changes.as_map().contains_key(k)
                implies totals.as_map().contains_key(k)
                    && changes.as_map()[k] == (FinanceChange {
                        start_balance: totals.as_map()[k], income: 0, expenditure: 0 }) by {
                let j = choose|j: int| 0 <= j < n && (#[trigger] ev[j]).0 == k;
                assert(changes.as_map()[ev[j].0]
                    == (FinanceChange { start_balance: ev[j].1, income: 0, expenditure: 0 }));
            }
            assert(changes.as_map() =~= changes_of_totals(totals.as_map()));
        }
        FinanceChanges { changes }
    }

    /// The entries of the sheet, sorted by account id: each stored
    /// pair is in the map, every key of the map is stored, and the
    /// ids strictly ascend.
    pub fn entries(&self) -> (r: &Vec<(u64, FinanceChange)>)
        requires
            self.wf(),
        ensures
            forall|j: int| 0 <= j < r@.len()
                ==> self.as_map().contains_key((#[trigger] r@[j]).0)
                    && self.as_map()[r@[j].0] == r@[j].1,
            forall|k: u64| #[trigger] self.as_map().contains_key(k)
                ==> exists|j: int| 0 <= j < r@.len() && (#[trigger] r@[j]).0 == k,
            forall|a: int, b: int| 0 <= a < b < r@.len()
                ==> (#[trigger] r@[a]).0 < (#[trigger] r@[b]).0,
    {
        proof {
            self.changes.lemma_entries_in_map();
        }
        self.changes.entries()
    }

    /// Adds income to an account, creating its zeroed entry first if
    /// it was absent.  An addition leaving the machine range is
    /// invalid data and leaves the sheet unchanged.
    pub fn add_income(&mut self, account: u64, summa: i64) -> (r: Result<(), DbError>)
        requires
            old(self).wf(),
        ensures
            final(self).wf(),
            income_fits(old(self).as_map(), account, summa as int) ==> (
                r is Ok
                && final(self).as_map() == with_income(old(self).as_map(), account, summa as int)
            ),
            !income_fits(old(self).as_map(), account, summa as int) ==> (
                (r matches Err(e) && e.kind == DbErrorKind::InvalidData)
                && final(self).as_map() == old(self).as_map()
            ),
    {
        let cur = match self.changes.get(account) {
            Some(c) => *c,
            None => FinanceChange::new(0),
        };
        match cur.income.checked_add(summa) {
            Some(v) => {
                self.changes.insert(account, FinanceChange {
                    start_balance: cur.start_balance,
                    income: v,
                    expenditure: cur.expenditure,
                });
                Ok(())
            },
            None => Err(DbError::new(DbErrorKind::InvalidData, "income overflow".to_owned())),
        }
    }

    /// Adds expenditure to an account, creating its zeroed entry
    /// first if it was absent.  An addition leaving the machine range
    /// is invalid data and leaves the sheet unchanged.
    pub fn add_expenditure(&mut self, account: u64, summa: i64) -> (r: Result<(), DbError>)
        requires
            old(self).wf(),
        ensures
            final(self).wf(),
            expenditure_fits(old(self).as_map(), account, summa as int) ==> (
                r is Ok
                && final(self).as_map()
                    == with_expenditure(old(self).as_map(), account, summa as int)
            ),
            !expenditure_fits(old(self).as_map(), account, summa as int) ==> (
                (r matches Err(e) && e.kind == DbErrorKind::InvalidData)
                && final(self).as_map() == old(self).as_map()
            ),
    {
        let cur = match self.changes.get(account) {
            Some(c) => *c,
            None => FinanceChange::new(0),
        };
        match cur.expenditure.checked_add(summa) {
            Some(v) => {
                self.changes.insert(account, FinanceChange {
                    start_balance: cur.start_balance,
                    income: cur.income,
                    expenditure: v,
                });
                Ok(())
            },
            None => Err(DbError::new(DbErrorKind::InvalidData, "expenditure overflow".to_owned())),
        }
    }

    /// The closing balances of the sheet, or invalid data when some
    /// account's closing balance leaves the machine range.
    pub fn build_totals(&self) -> (r: Result<IdMap<i64>, DbError>)
        requires
            self.wf(),
        ensures
            match r {
                Ok(t) => {
                    &&& t.wf()
                    &&& forall|k: u64| #[trigger] self.as_map().contains_key(k)
                        ==> self.as_map()[k].end_fits()
                    &&& t.as_map() == totals_of(self.as_map())
                },
                Err(e) => {
                    e.kind == DbErrorKind::InvalidData
                        && exists|k: u64| #[trigger] self.as_map().contains_key(k)
                            && !self.as_map()[k].end_fits()
                },
            },
    {
        proof {
            self.changes.lemma_entries_in_map();
        }
        let entries = self.changes.entries();
        let n = entries.len();
        let ghost ev = self.changes.entries_view();
        let mut totals = IdMap::new();
        let mut i: usize = 0;
        while i < n
            invariant
                self.wf(),
                totals.wf(),
                i <= n,
                n == ev.len(),
                ev == self.changes.entries_view(),
                entries@ == ev,
                forall|j: int| 0 <= j < i ==> (#[trigger] ev[j]).1.end_fits(),
                forall|k: u64| totals.as_map().contains_key(k)
                    <==> exists|j: int| 0 <= j < i && (#[trigger] ev[j]).0 == k,
                forall|j: int| 0 <= j < i ==> totals.as_map()[(#[trigger] ev[j]).0]
                    == (ev[j].1.end_balance_spec()) as i64,
            decreases n - i,
        {
            let c = entries[i].1;
            let v = match c.get_end_balance() {
                Ok(v) => v,
                Err(e) => {
                    proof {
                        self.changes.lemma_entries_in_map();
                        assert(self.as_map().contains_key(ev[i as int].0));
                        assert(self.as_map()[ev[i as int].0] == ev[i as int].1);
                    }
                    return Err(e);
                },
            };
            totals.insert(entries[i].0, v);
            proof {
                self.changes.lemma_entries_in_map();
                assert(ev[i as int].1 == c);
                assert forall|j: int| 0 <= j < i + 1
                    implies totals.as_map()[(#[trigger] ev[j]).0]
                        == (ev[j].1.end_balance_spec()) as i64 by {
                    if j < i {
                        assert(ev[j].0 < ev[i as int].0);
                    }
                }
            }
            i = i + 1;
        }
        proof {
            self.changes.lemma_entries_in_map();
            assert forall|k: u64| #[trigger] self.as_map().contains_key(k)
                implies self.as_map()[k].end_fits() by {
                let j = choose|j: int| 0 <= j < ev.len() && (#[trigger] ev[j]).0 == k
                    && ev[j].1 == self.as_map()[k];
                assert(ev[j].1.end_fits());
            }
            assert forall|k: u64| totals.as_map().contains_key(k)
                implies self.as_map().contains_key(k)
                    && totals.as_map()[k] == (self.as_map()[k].end_balance_spec()) as i64 by {
                let j = choose|j: int| 0 <= j < n && (#[trigger] ev[j]).0 == k;
                assert(totals.as_map()[ev[j].0] == (ev[j].1.end_balance_spec()) as i64);
                assert(self.as_map()[ev[j].0] == ev[j].1);
            }
            assert(totals.as_map() =~= totals_of(self.as_map()));
        }
        Ok(totals)
    }
}

impl FinanceOperation {
    /// Whether this operation's date lies in `[from, to]`.
    pub fn within(&self, from: usize, to: usize) -> (r: bool)
        ensures
            r == within_spec(*self, from, to),
    {
        self.date >= from && self.date <= to
    }

    /// The transfer step shared by exchanges and transfers.
    fn handle_trfr_with_summa(&self, changes: &mut FinanceChanges, summa: i64)
        -> (r: Result<(), DbError>)
        requires
            old(changes).wf(),
        ensures
            final(changes).wf(),
            trfr_fits(old(changes).as_map(), *self, summa as int) <==> r is Ok,
            r is Ok ==> final(changes).as_map()
                == trfr_step(old(changes).as_map(), *self, summa as int),
            r matches Err(e) ==> e.kind == DbErrorKind::InvalidData,
    {
        match changes.add_expenditure(self.account, summa) {
            Ok(()) => {},
            Err(e) => {
                return Err(e);
            },
        }
        if self.parameters.len() == 1 {
            match &self.parameters[0] {
                FinOpParameter::Seca(a) => {
                    return changes.add_income(*a, self.summa);
                },
                _ => {},
            }
        }
        Ok(())
    }

    /// Applies this operation to the balance sheet, resolving its
    /// subcategory and, for the cash-routing codes, the account's
    /// cash account.  The call succeeds exactly when the reference
    /// data can interpret the operation and its arithmetic stays in
    /// range; any failure is invalid data, and a failure before the
    /// first arithmetic step leaves the sheet unchanged.
    pub fn apply(&self, changes: &mut FinanceChanges, accounts: &Accounts,
        subcategories: &Subcategories) -> (r: Result<(), DbError>)
        requires
            old(changes).wf(),
            accounts.wf(),
            subcategories.wf(),
        ensures
            final(changes).wf(),
            ({
                let subs = subcategories.as_map();
                let accs = accounts.as_map();
                let m = old(changes).as_map();
                &&& ((op_applicable(*self, subs, accs) && apply_op_fits(m, *self, subs, accs))
                    <==> r is Ok)
                &&& (r is Ok ==> final(changes).as_map() == apply_op_spec(m, *self, subs, accs))
                &&& (r matches Err(e) ==> e.kind == DbErrorKind::InvalidData)
                &&& (!op_applicable(*self, subs, accs) ==> final(changes).as_map() == m)
            }),
    {
        let sub = match subcategories.get(self.subcategory) {
            Ok(s) => s,
            Err(e) => {
                return Err(e);
            },
        };
        match sub.operation_code {
            SubcategoryOperationCode::Incm => changes.add_income(self.account, self.summa),
            SubcategoryOperationCode::Expn => changes.add_expenditure(self.account, self.summa),
            SubcategoryOperationCode::Spcl => match sub.code {
                SubcategoryCode::Incc => {
                    let cash = match accounts.get_cash_account(self.account) {
                        Ok(c) => c,
                        Err(e) => {
                            return Err(e);
                        },
                    };
                    match changes.add_income(self.account, self.summa) {
                        Ok(()) => {},
                        Err(e) => {
                            return Err(e);
                        },
                    }
                    match cash {
                        Some(a) => changes.add_expenditure(a, self.summa),
                        None => Ok(()),
                    }
                },
                SubcategoryCode::Expc => {
                    let cash = match accounts.get_cash_account(self.account) {
                        Ok(c) => c,
                        Err(e) => {
                            return Err(e);
                        },
                    };
                    match changes.add_expenditure(self.account, self.summa) {
                        Ok(()) => {},
                        Err(e) => {
                            return Err(e);
                        },
                    }
                    match cash {
                        Some(a) => changes.add_income(a, self.summa),
                        None => Ok(()),
                    }
                },
                SubcategoryCode::Exch => match self.amount {
                    Some(a) => {
                        let s = a / 10;
                        if s > i64::MAX as u64 {
                            return Err(DbError::new(
                                DbErrorKind::InvalidData, "amount overflow".to_owned()));
                        }
                        self.handle_trfr_with_summa(changes, s as i64)
                    },
                    None => Ok(()),
                },
                SubcategoryCode::Trfr => self.handle_trfr_with_summa(changes, self.summa),
                _ => Err(DbError::new(
                    DbErrorKind::InvalidData, "invalid subcategory code".to_owned())),
            },
        }
    }
}

/// The mathematical image of one operation: its plain fields with the
/// parameter vector abstracted to a sequence.
pub ghost struct OpModel {
    pub date: usize,
    pub account: u64,
    pub subcategory: u64,
    pub amount: Option<u64>,
    pub summa: i64,
    pub parameters: Seq<FinOpParameter>,
}

/// The mathematical image of an operation.
pub open spec fn op_view(op: FinanceOperation) -> OpModel {
    OpModel {
        date: op.date,
        account: op.account,
        subcategory: op.subcategory,
        amount: op.amount,
        summa: op.summa,
        parameters: op.parameters@,
    }
}

/// The images of the operations of the sequence dated exactly `date`,
/// in their original order.
pub open spec fn ops_with_date(t: Seq<FinanceOperation>, date: usize) -> Seq<OpModel>
    decreases t.len(),
{
    if t.len() == 0 {
        Seq::empty()
    } else {
        let s = ops_with_date(t.drop_last(), date);
        if t.last().date == date {
            s.push(op_view(t.last()))
        } else {
            s
        }
    }
}

/// Duplicates a parameter vector element by element.
fn clone_params(v: &Vec<FinOpParameter>) -> (r: Vec<FinOpParameter>)
    ensures
        r@ == v@,
{
    let n = v.len();
    let mut r: Vec<FinOpParameter> = Vec::new();
    let mut i: usize = 0;
    while i < n
        invariant
            i <= n,
            n == v@.len(),
            r@ == v@.take(i as int),
        decreases n - i,
    {
        match &v[i] {
            FinOpParameter::Amou(x) => r.push(FinOpParameter::Amou(*x)),
            FinOpParameter::Dist(x) => r.push(FinOpParameter::Dist(*x)),
            FinOpParameter::Netw(sv) => r.push(FinOpParameter::Netw(sv.clone())),
            FinOpParameter::Ppto(x) => r.push(FinOpParameter::Ppto(*x)),
            FinOpParameter::Seca(x) => r.push(FinOpParameter::Seca(*x)),
            FinOpParameter::Typ(sv) => r.push(FinOpParameter::Typ(sv.clone())),
        }
        proof {
            assert(r@.last() == v@[i as int]);
            assert(r@ =~= v@.take(i + 1));
        }
        i = i + 1;
    }
    proof {
        assert(v@.take(n as int) =~= v@);
    }
    r
}

/// One bucket: its ordered operations and the opening balances
/// carried in from the previous non-empty bucket.
pub struct FinanceRecord {
    pub operations: Vec<FinanceOperation>,
    pub totals: IdMap<i64>,
}

impl FinanceRecord {
    /// The carried totals index is sorted and duplicate-free.
    pub open spec fn wf(&self) -> bool {
        self.totals.wf()
    }

    /// A bucket holding the given operations and empty totals.
    pub fn new(operations: Vec<FinanceOperation>) -> (r: FinanceRecord)
        ensures
            r.wf(),
            r.operations == operations,
            r.totals.as_map() == Map::<u64, i64>::empty(),
    {
        FinanceRecord { operations, totals: IdMap::new() }
    }

    /// Opens a balance sheet from this bucket's carried totals.
    pub fn create_changes(&self) -> (r: FinanceChanges)
        requires
            self.wf(),
        ensures
            r.wf(),
            r.as_map() == changes_of_totals(self.totals.as_map()),
    {
        FinanceChanges::new(&self.totals)
    }

    /// Applies every operation of this bucket whose date lies in
    /// `[from, to]`, in order, to the given sheet.  The call succeeds
    /// exactly when each selected operation is interpretable and in
    /// range against the sheet its predecessors left.
    pub fn update_changes(&self, ch: &mut FinanceChanges, from: usize, to: usize,
        accounts: &Accounts, subcategories: &Subcategories) -> (r: Result<(), DbError>)
        requires
            old(ch).wf(),
            accounts.wf(),
            subcategories.wf(),
        ensures
            final(ch).wf(),
            ({
                let subs = subcategories.as_map();
                let accs = accounts.as_map();
                let m = old(ch).as_map();
                let t = self.operations@;
                &&& (seq_ok_within(m, t, from, to, subs, accs) <==> r is Ok)
                &&& (r is Ok ==> final(ch).as_map()
                    == apply_seq_within(m, t, from, to, subs, accs))
                &&& (r matches Err(e) ==> e.kind == DbErrorKind::InvalidData)
            }),
    {
        let ghost subs = subcategories.as_map();
        let ghost accs = accounts.as_map();
        let ghost m0 = old(ch).as_map();
        let ghost t = self.operations@;
        let n = self.operations.len();
        let mut i: usize = 0;
        proof {
            assert(t.take(0) =~= Seq::<FinanceOperation>::empty());
        }
        while i < n
            invariant
                i <= n,
                n == t.len(),
                t == self.operations@,
                subs == subcategories.as_map(),
                accs == accounts.as_map(),
                m0 == old(ch).as_map(),
                ch.wf(),
                accounts.wf(),
                subcategories.wf(),
                seq_ok_within(m0, t.take(i as int), from, to, subs, accs),
                ch.as_map() == apply_seq_within(m0, t.take(i as int), from, to, subs, accs),
            decreases n - i,
        {
            let op = &self.operations[i];
            let ghost pre = ch.as_map();
            if op.within(from, to) {
                match op.apply(ch, accounts, subcategories) {
                    Ok(()) => {},
                    Err(e) => {
                        proof {
                            if seq_ok_within(m0, t, from, to, subs, accs) {
                                Self::lemma_seq_ok_within_take(
                                    m0, t, from, to, subs, accs, i + 1);
                                assert(t.take(i + 1).drop_last() =~= t.take(i as int));
                                assert(t.take(i + 1).last() == t[i as int]);
                                assert(false);
                            }
                        }
                        return Err(e);
                    },
                }
            }
            proof {
                assert(t.take(i + 1).drop_last() =~= t.take(i as int));
                assert(t.take(i + 1).last() == t[i as int]);
            }
            i = i + 1;
        }
        proof {
            assert(t.take(n as int) =~= t);
        }
        Ok(())
    }

    /// A well-formed selected prefix: every prefix of an interpretable
    /// in-range sequence is itself interpretable and in range.
    proof fn lemma_seq_ok_within_take(
        m: Map<u64, FinanceChange>,
        t: Seq<FinanceOperation>,
        from: usize,
        to: usize,
        subs: Map<u64, Subcategory>,
        accs: Map<u64, Account>,
        i: int,
    )
        requires
            seq_ok_within(m, t, from, to, subs, accs),
            0 <= i <= t.len(),
        ensures
            seq_ok_within(m, t.take(i), from, to, subs, accs),
        decreases t.len() - i,
    {
        if i == t.len() {
            assert(t.take(i) =~= t);
        } else {
            Self::lemma_seq_ok_within_take(m, t, from, to, subs, accs, i + 1);
            assert(t.take(i + 1).drop_last() =~= t.take(i));
        }
    }

    /// Opens a sheet at this bucket's carried totals and applies all
    /// of its operations in order.
    pub fn build_changes(&self, accounts: &Accounts, subcategories: &Subcategories)
        -> (r: Result<FinanceChanges, DbError>)
        requires
            self.wf(),
            accounts.wf(),
            subcategories.wf(),
        ensures
            ({
                let subs = subcategories.as_map();
                let accs = accounts.as_map();
                let init = changes_of_totals(self.totals.as_map());
                let t = self.operations@;
                &&& (seq_ok_within(init, t, 0, usize::MAX, subs, accs) <==> r is Ok)
                &&& (r matches Ok(ch) ==> ch.wf()
                    && ch.as_map() == apply_seq_within(init, t, 0, usize::MAX, subs, accs))
                &&& (r matches Err(e) ==> e.kind == DbErrorKind::InvalidData)
            }),
    {
        let mut ch = self.create_changes();
        match self.update_changes(&mut ch, 0, usize::MAX, accounts, subcategories) {
            Ok(()) => Ok(ch),
            Err(e) => Err(e),
        }
    }

    /// The operations of this bucket dated exactly `date`, copied in
    /// their original order.
    pub fn get_ops(&self, date: usize) -> (r: Vec<FinanceOperation>)
        ensures
            r@.map_values(|o: FinanceOperation| op_view(o))
                == ops_with_date(self.operations@, date),
    {
        let ghost t = self.operations@;
        let n = self.operations.len();
        let mut r: Vec<FinanceOperation> = Vec::new();
        let mut i: usize = 0;
        proof {
            assert(t.take(0) =~= Seq::<FinanceOperation>::empty());
            assert(r@.map_values(|o: FinanceOperation| op_view(o))
                =~= ops_with_date(t.take(0), date));
        }
        while i < n
            invariant
                i <= n,
                n == t.len(),
                t == self.operations@,
                r@.map_values(|o: FinanceOperation| op_view(o))
                    == ops_with_date(t.take(i as int), date),
            decreases n - i,
        {
            let op = &self.operations[i];
            proof {
                assert(t.take(i + 1).drop_last() =~= t.take(i as int));
                assert(t.take(i + 1).last() == t[i as int]);
            }
            if op.date == date {
                let copied = FinanceOperation {
                    date: op.date,
                    account: op.account,
                    subcategory: op.subcategory,
                    amount: op.amount,
                    summa: op.summa,
                    parameters: clone_params(&op.parameters),
                };
                proof {
                    assert(op_view(copied) == op_view(t[i as int]));
                }
                r.push(copied);
                proof {
                    assert(r@.map_values(|o: FinanceOperation| op_view(o))
                        =~= ops_with_date(t.take(i + 1), date));
                }
            }
            i = i + 1;
        }
        proof {
            assert(t.take(n as int) =~= t);
        }
        r
    }
}


/// Decodes one tagged operation parameter from its parts: the
/// property code names the variant and dictates whether the numeric
/// or the string value must be present.  An unknown code or a missing
/// value of the required shape is invalid data.
pub fn parameter_from_parts(code: &String, numeric_value: Option<u64>, string_value: Option<String>)
    -> (r: Result<FinOpParameter, DbError>)
    ensures
        ({
            if code@ == "AMOU"@ {
                match numeric_value {
                    Some(v) => r matches Ok(p) && p == FinOpParameter::Amou(v),
                    None => r matches Err(e) && e.kind == DbErrorKind::InvalidData,
                }
            } else if code@ == "DIST"@ {
                match numeric_value {
                    Some(v) => r matches Ok(p) && p == FinOpParameter::Dist(v),
                    None => r matches Err(e) && e.kind == DbErrorKind::InvalidData,
                }
            } else if code@ == "PPTO"@ {
                match numeric_value {
                    Some(v) => r matches Ok(p) && p == FinOpParameter::Ppto(v),
                    None => r matches Err(e) && e.kind == DbErrorKind::InvalidData,
                }
            } else if code@ == "SECA"@ {
                match numeric_value {
                    Some(v) => r matches Ok(p) && p == FinOpParameter::Seca(v),
                    None => r matches Err(e) && e.kind == DbErrorKind::InvalidData,
                }
            } else if code@ == "NETW"@ {
                match string_value {
                    Some(v) => r matches Ok(p) && p == FinOpParameter::Netw(v),
                    None => r matches Err(e) && e.kind == DbErrorKind::InvalidData,
                }
            } else if code@ == "TYPE"@ {
                match string_value {
                    Some(v) => r matches Ok(p) && p == FinOpParameter::Typ(v),
                    None => r matches Err(e) && e.kind == DbErrorKind::InvalidData,
                }
            } else {
                r matches Err(e) && e.kind == DbErrorKind::InvalidData
            }
        }),
{
    if *code == "AMOU".to_owned() {
        match numeric_value {
            Some(v) => Ok(FinOpParameter::Amou(v)),
            None => Err(DbError::new(DbErrorKind::InvalidData, "AMOU: numeric value expected".to_owned())),
        }
    } else if *code == "DIST".to_owned() {
        match numeric_value {
            Some(v) => Ok(FinOpParameter::Dist(v)),
            None => Err(DbError::new(DbErrorKind::InvalidData, "DIST: numeric value expected".to_owned())),
        }
    } else if *code == "PPTO".to_owned() {
        match numeric_value {
            Some(v) => Ok(FinOpParameter::Ppto(v)),
            None => Err(DbError::new(DbErrorKind::InvalidData, "PPTO: numeric value expected".to_owned())),
        }
    } else if *code == "SECA".to_owned() {
        match numeric_value {
            Some(v) => Ok(FinOpParameter::Seca(v)),
            None => Err(DbError::new(DbErrorKind::InvalidData, "SECA: numeric value expected".to_owned())),
        }
    } else if *code == "NETW".to_owned() {
        match string_value {
            Some(v) => Ok(FinOpParameter::Netw(v)),
            None => Err(DbError::new(DbErrorKind::InvalidData, "NETW: string value expected".to_owned())),
        }
    } else if *code == "TYPE".to_owned() {
        match string_value {
            Some(v) => Ok(FinOpParameter::Typ(v)),
            None => Err(DbError::new(DbErrorKind::InvalidData, "TYPE: string value expected".to_owned())),
        }
    } else {
        Err(DbError::new(DbErrorKind::InvalidData, "invalid parameter code".to_owned()))
    }
}

} // verus!
