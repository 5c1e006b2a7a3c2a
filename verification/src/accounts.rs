//! Accounts, with the cash-account resolution performed at load time.
//!
//! An account whose `cash_account` is `None` is itself a cash account
//! for its currency; one whose `cash_account` is `Some(_)` routes cash
//! flows to the cash account of its currency, and loading resolves
//! that reference to the concrete account id.

use vstd::prelude::*;

use crate::data_source::DataSource;
use crate::errors::{DbError, DbErrorKind};
use crate::id_map::{map_of_pairs, IdMap};

verus! {

/// One account record.  After loading, `cash_account` is `None` for a
/// cash account and `Some(id)` of the canonical cash account of the
/// currency otherwise.
#[derive(Clone, Debug)]
pub struct Account {
    pub id: u64,
    pub name: String,
    pub currency: String,
    pub active_to: Option<u64>,
    pub cash_account: Option<u64>,
}

/// The id of the cash account for `currency`: the last account of the
/// list that is itself a cash account in that currency.
pub open spec fn cash_account_for(l: Seq<Account>, currency: Seq<char>) -> Option<u64>
    decreases l.len(),
{
    if l.len() == 0 {
        None
    } else if l.last().cash_account is None && l.last().currency@ == currency {
        Some(l.last().id)
    } else {
        cash_account_for(l.drop_last(), currency)
    }
}

/// Whether the cash-account reference of `a` can be resolved against
/// the list.
pub open spec fn account_resolvable(l: Seq<Account>, a: Account) -> bool {
    a.cash_account is Some ==> cash_account_for(l, a.currency@) is Some
}

/// The account with its cash-account reference resolved.
pub open spec fn resolve_account(l: Seq<Account>, a: Account) -> Account {
    if a.cash_account is Some {
        Account {
            cash_account: cash_account_for(l, a.currency@),
            ..a
        }
    } else {
        a
    }
}

/// The id-to-record pairs of a resolved account list.
pub open spec fn resolved_pairs(l: Seq<Account>) -> Seq<(u64, Account)> {
    l.map(|i: int, a: Account| (a.id, resolve_account(l, a)))
}

/// The accounts, indexed by id, with cash accounts resolved.
pub struct Accounts {
    map: IdMap<Account>,
}

impl Accounts {
    /// The underlying index is sorted and duplicate-free.
    pub closed spec fn wf(&self) -> bool {
        self.map.wf()
    }

    /// The accounts as a mathematical map from id to record.
    pub closed spec fn as_map(&self) -> Map<u64, Account> {
        self.map.as_map()
    }

    /// Scans the list for the cash account of `currency`.
    fn find_cash_account(list: &Vec<Account>, currency: &String) -> (r: Option<u64>)
        ensures
            r == cash_account_for(list@, currency@),
    {
        let n = list.len();
        let mut i: usize = n;
        proof {
            assert(list@.take(n as int) =~= list@);
        }
        while i > 0
            invariant
                i <= n,
                n == list@.len(),
                cash_account_for(list@, currency@) == cash_account_for(list@.take(i as int), currency@),
            decreases i,
        {
            i = i - 1;
            let a = &list[i];
            if a.cash_account.is_none() && a.currency == *currency {
                proof {
                    assert(list@.take(i + 1).last() == list@[i as int]);
                }
                return Some(a.id);
            }
            proof {
                assert(list@.take(i + 1).last() == list@[i as int]);
                assert(list@.take(i + 1).drop_last() =~= list@.take(i as int));
            }
        }
        proof {
            assert(list@.take(0) =~= Seq::<Account>::empty());
        }
        None
    }

    /// Indexes a list of accounts by id, resolving every cash-account
    /// reference; fails with invalid data when some referenced
    /// currency has no cash account.  A later record replaces an
    /// earlier one with the same id.
    pub fn from_accounts(list: Vec<Account>) -> (r: Result<Accounts, DbError>)
        ensures
            match r {
                Ok(accs) => {
                    &&& accs.wf()
                    &&& forall|i: int| 0 <= i < list@.len()
                        ==> account_resolvable(list@, #[trigger] list@[i])
                    &&& accs.as_map() == map_of_pairs(resolved_pairs(list@))
                },
                Err(e) => {
                    e.kind == DbErrorKind::InvalidData
                        && exists|i: int| 0 <= i < list@.len()
                            && !account_resolvable(list@, #[trigger] list@[i])
                },
            },
    {
        let n = list.len();
        let mut map = IdMap::new();
        let mut i: usize = 0;
        proof {
            assert(resolved_pairs(list@).take(0) =~= Seq::<(u64, Account)>::empty());
        }
        while i < n
            invariant
                i <= n,
                n == list@.len(),
                map.wf(),
                forall|j: int| 0 <= j < i ==> account_resolvable(list@, #[trigger] list@[j]),
                map.as_map() == map_of_pairs(resolved_pairs(list@).take(i as int)),
            decreases n - i,
        {
            let a = &list[i];
            let resolved = if a.cash_account.is_some() {
                match Self::find_cash_account(&list, &a.currency) {
                    Some(cash) => Account {
                        id: a.id,
                        name: a.name.clone(),
                        currency: a.currency.clone(),
                        active_to: a.active_to,
                        cash_account: Some(cash),
                    },
                    None => {
                        return Err(DbError::new(
                            DbErrorKind::InvalidData,
                            "load - no cash account found".to_owned(),
                        ));
                    },
                }
            } else {
                Account {
                    id: a.id,
                    name: a.name.clone(),
                    currency: a.currency.clone(),
                    active_to: a.active_to,
                    cash_account: None,
                }
            };
            proof {
                assert(resolved == resolve_account(list@, list@[i as int]));
                let p = resolved_pairs(list@).take(i + 1);
                assert(p.drop_last() =~= resolved_pairs(list@).take(i as int));
                assert(p.last() == (resolved.id, resolved));
            }
            map.insert(resolved.id, resolved);
            i = i + 1;
        }
        proof {
            assert(resolved_pairs(list@).take(n as int) =~= resolved_pairs(list@));
        }
        Ok(Accounts { map })
    }

    /// Loads the account file through the given source and indexes it
    /// by id with cash accounts resolved.
    pub fn load<DS: DataSource<Vec<Account>>>(data_folder_path: String, source: &DS)
        -> (r: Result<Accounts, DbError>)
        ensures
            r matches Ok(a) ==> a.wf(),
    {
        let list = match source.load(data_folder_path.concat("/accounts"), true) {
            Ok(l) => l,
            Err(e) => {
                return Err(e);
            },
        };
        Self::from_accounts(list)
    }

    /// The cash-account reference of the given account: `None` when
    /// it is itself a cash account.  An unknown id is invalid data.
    pub fn get_cash_account(&self, account: u64) -> (r: Result<Option<u64>, DbError>)
        requires
            self.wf(),
        ensures
            match r {
                Ok(c) => self.as_map().contains_key(account)
                    && c == self.as_map()[account].cash_account,
                Err(e) => !self.as_map().contains_key(account)
                    && e.kind == DbErrorKind::InvalidData,
            },
    {
        match self.map.get(account) {
            Some(a) => Ok(a.cash_account),
            None => Err(DbError::new(DbErrorKind::InvalidData, "invalid account id".to_owned())),
        }
    }

    /// Looks an account up by id; an unknown id is invalid data.
    pub fn get(&self, id: u64) -> (r: Result<&Account, DbError>)
        requires
            self.wf(),
        ensures
            match r {
                Ok(a) => self.as_map().contains_key(id) && *a == self.as_map()[id],
                Err(e) => !self.as_map().contains_key(id) && e.kind == DbErrorKind::InvalidData,
            },
    {
        match self.map.get(id) {
            Some(a) => Ok(a),
            None => Err(DbError::new(DbErrorKind::InvalidData, "invalid account id".to_owned())),
        }
    }
}

} // verus!
