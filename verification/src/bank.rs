//! A toy double-entry ledger: a bank keeps a roster of named accounts, each
//! with a credit line and a signed balance, and supports transfers, interest
//! accrual and merging with another bank.
//!
//! Accounts are kept in insertion order with unique names; the roster is
//! modelled in specifications as a sequence of `(name, credit line, balance)`
//! records.

use vstd::prelude::*;

use vstd::string::StrSliceExecFns;
use vstd::string::StringExecFns;

verus! {

/// One account holder.
pub struct User {
    pub name: String,
    pub credit_line: u64,
    pub balance: i64,
}

/// A bank: a roster of accounts plus its interest rates in basis points.
pub struct Bank {
    pub users: Vec<User>,
    pub name: String,
    pub credit_interest: u64,
    pub debit_interest: u64,
}

/// The record an account is modelled by: name, credit line, balance.
pub open spec fn user_rec(u: User) -> (Seq<char>, u64, i64) {
    (u.name@, u.credit_line, u.balance)
}

/// The roster as a sequence of records.
pub open spec fn accounts(s: Seq<User>) -> Seq<(Seq<char>, u64, i64)> {
    Seq::new(s.len(), |i: int| user_rec(s[i]))
}

/// The index of the first account with the given name, or `-1`.
pub open spec fn find_account(s: Seq<(Seq<char>, u64, i64)>, name: Seq<char>) -> int
    decreases s.len(),
{
    if s.len() == 0 {
        -1
    } else if s[0].0 == name {
        0
    } else {
        let r = find_account(s.drop_first(), name);
        if r < 0 {
            -1
        } else {
            r + 1
        }
    }
}

/// `find_account` returns the first index bearing the name, or `-1` when no
/// account bears it.
pub proof fn lemma_find_account(s: Seq<(Seq<char>, u64, i64)>, name: Seq<char>)
    ensures
        -1 <= find_account(s, name) < s.len(),
        find_account(s, name) >= 0 ==> s[find_account(s, name)].0 == name,
        find_account(s, name) >= 0 ==> forall|k: int|
            0 <= k < find_account(s, name) ==> s[k].0 != name,
        find_account(s, name) < 0 ==> forall|k: int| 0 <= k < s.len() ==> s[k].0 != name,
    decreases s.len(),
{
    if s.len() > 0 && s[0].0 != name {
        let t = s.drop_first();
        lemma_find_account(t, name);
        let f = find_account(s, name);
        if f >= 0 {
            assert forall|k: int| 0 <= k < f implies s[k].0 != name by {
                if k > 0 {
                    assert(t[k - 1].0 != name);
                }
            }
        } else {
            assert forall|k: int| 0 <= k < s.len() implies s[k].0 != name by {
                if k > 0 {
                    assert(t[k - 1].0 != name);
                }
            }
        }
    }
}

/// Sum of the positive balances in the roster.
pub open spec fn sum_pos(s: Seq<(Seq<char>, u64, i64)>) -> int
    decreases s.len(),
{
    if s.len() == 0 {
        0
    } else {
        sum_pos(s.drop_last()) + if s.last().2 > 0 {
            s.last().2 as int
        } else {
            0
        }
    }
}

/// Sum of the magnitudes of the negative balances in the roster.
pub open spec fn sum_neg(s: Seq<(Seq<char>, u64, i64)>) -> int
    decreases s.len(),
{
    if s.len() == 0 {
        0
    } else {
        sum_neg(s.drop_last()) + if s.last().2 < 0 {
            -(s.last().2 as int)
        } else {
            0
        }
    }
}

/// Both sums are non-negative and grow with the prefix.
proof fn lemma_sums_prefix(s: Seq<(Seq<char>, u64, i64)>, n: nat)
    requires
        n <= s.len(),
    ensures
        0 <= sum_pos(s.take(n as int)) <= sum_pos(s),
        0 <= sum_neg(s.take(n as int)) <= sum_neg(s),
    decreases s.len() - n,
{
    lemma_sums_nonneg(s.take(n as int));
    if n == s.len() {
        assert(s.take(n as int) =~= s);
    } else {
        lemma_sums_prefix(s, (n + 1) as nat);
        assert(s.take(n as int + 1).drop_last() =~= s.take(n as int));
        assert(s.take(n as int + 1).last() == s[n as int]);
    }
}

proof fn lemma_sums_nonneg(s: Seq<(Seq<char>, u64, i64)>)
    ensures
        sum_pos(s) >= 0,
        sum_neg(s) >= 0,
    decreases s.len(),
{
    if s.len() > 0 {
        lemma_sums_nonneg(s.drop_last());
    }
}

/// The balance after one round of interest for one account, or `None` when
/// a step of the computation overflows.  Negative balances are charged
/// `ci` basis points on their magnitude, positive ones earn `di` basis
/// points; a zero balance is left alone.
pub open spec fn accrue_bal(b: i64, ci: u64, di: u64) -> Option<i64> {
    if b < 0 {
        let prod = (0 - b) * ci;
        if prod > u64::MAX {
            None
        } else {
            let interest = prod / 10000;
            if interest > i64::MAX {
                None
            } else if b - interest < i64::MIN {
                None
            } else {
                Some((b - interest) as i64)
            }
        }
    } else if b > 0 {
        let prod = b * di;
        if prod > u64::MAX {
            None
        } else {
            let interest = prod / 10000;
            if interest > i64::MAX {
                None
            } else if b + interest > i64::MAX {
                None
            } else {
                Some((b + interest) as i64)
            }
        }
    } else {
        Some(b)
    }
}

/// The first roster index where interest accrual overflows, or the roster
/// length when every account succeeds.
pub open spec fn first_accrue_fail(s: Seq<(Seq<char>, u64, i64)>, ci: u64, di: u64) -> int
    decreases s.len(),
{
    if s.len() == 0 {
        0
    } else if accrue_bal(s[0].2, ci, di) is None {
        0
    } else {
        1 + first_accrue_fail(s.drop_first(), ci, di)
    }
}

proof fn lemma_first_accrue_fail(s: Seq<(Seq<char>, u64, i64)>, ci: u64, di: u64)
    ensures
        0 <= first_accrue_fail(s, ci, di) <= s.len(),
        forall|k: int|
            0 <= k < first_accrue_fail(s, ci, di) ==> accrue_bal(s[k].2, ci, di) is Some,
        first_accrue_fail(s, ci, di) < s.len() ==> accrue_bal(
            s[first_accrue_fail(s, ci, di)].2,
            ci,
            di,
        ) is None,
    decreases s.len(),
{
    if s.len() > 0 && accrue_bal(s[0].2, ci, di) is Some {
        let t = s.drop_first();
        lemma_first_accrue_fail(t, ci, di);
        let f = first_accrue_fail(s, ci, di);
        assert forall|k: int| 0 <= k < f implies accrue_bal(s[k].2, ci, di) is Some by {
            if k > 0 {
                assert(accrue_bal(t[k - 1].2, ci, di) is Some);
            }
        }
        if f < s.len() {
            assert(s[f] == t[f - 1]);
        }
    }
}

/// Merges one incoming account into a roster: an existing account of the
/// same name absorbs the incoming balance (or the merge fails on overflow),
/// a new name is appended.
pub open spec fn merge_into(
    acc: Seq<(Seq<char>, u64, i64)>,
    u: (Seq<char>, u64, i64),
) -> Option<Seq<(Seq<char>, u64, i64)>> {
    let i = find_account(acc, u.0);
    if i >= 0 {
        let nb = acc[i].2 + u.2;
        if i64::MIN <= nb <= i64::MAX {
            Some(acc.update(i, (acc[i].0, acc[i].1, nb as i64)))
        } else {
            None
        }
    } else {
        Some(acc.push(u))
    }
}

/// Runs the merge over every incoming account in order, stopping at the
/// first overflow: the roster reached, and whether every step succeeded.
pub open spec fn merge_run(
    acc: Seq<(Seq<char>, u64, i64)>,
    others: Seq<(Seq<char>, u64, i64)>,
) -> (Seq<(Seq<char>, u64, i64)>, bool)
    decreases others.len(),
{
    if others.len() == 0 {
        (acc, true)
    } else {
        match merge_into(acc, others[0]) {
            Some(a2) => merge_run(a2, others.drop_first()),
            None => (acc, false),
        }
    }
}

/// One account's interest step, mirroring `accrue_bal`; a failure carries
/// the message naming the account.
fn accrue_step(b: i64, ci: u64, di: u64, name: &str) -> (r: Result<i64, String>)
    requires
        b > i64::MIN,
    ensures
        r is Ok <==> accrue_bal(b, ci, di) is Some,
        r is Ok ==> r->Ok_0 == accrue_bal(b, ci, di)->0,
{
    if b < 0 {
        let abs_bal = (-b) as u64;
        let interest = match abs_bal.checked_mul(ci) {
            Some(p) => p / 10000,
            None => {
                return Err(
                    String::from_str("Interest calculation overflow for user ").concat(name),
                );
            },
        };
        if interest > i64::MAX as u64 {
            return Err(
                String::from_str("Interest too large to convert to i64 for user ").concat(name),
            );
        }
        match b.checked_sub(interest as i64) {
            Some(nb) => Ok(nb),
            None => Err(
                String::from_str("Balance underflow when applying interest for user ").concat(
                    name,
                ),
            ),
        }
    } else if b > 0 {
        let pos_bal = b as u64;
        let interest = match pos_bal.checked_mul(di) {
            Some(p) => p / 10000,
            None => {
                return Err(
                    String::from_str("Interest calculation overflow for user ").concat(name),
                );
            },
        };
        if interest > i64::MAX as u64 {
            return Err(
                String::from_str("Interest too large to convert to i64 for user ").concat(name),
            );
        }
        match b.checked_add(interest as i64) {
            Some(nb) => Ok(nb),
            None => Err(
                String::from_str("Balance overflow when applying interest for user ").concat(
                    name,
                ),
            ),
        }
    } else {
        Ok(b)
    }
}

/// Compares two strings character by character.
fn str_eq(a: &str, b: &str) -> (r: bool)
    ensures
        r == (a@ == b@),
{
    let la = a.unicode_len();
    let lb = b.unicode_len();
    if la != lb {
        return false;
    }
    let mut i: usize = 0;
    while i < la
        invariant
            0 <= i <= la,
            la == a@.len() == b@.len(),
            forall|k: int| 0 <= k < i ==> a@[k] == b@[k],
        decreases la - i,
    {
        if a.get_char(i) != b.get_char(i) {
            return false;
        }
        i = i + 1;
    }
    proof {
        assert(a@ =~= b@);
    }
    true
}

/// The index of the first account with the given name, if any.
fn find_index(users: &Vec<User>, name: &str) -> (r: Option<usize>)
    ensures
        r is Some <==> find_account(accounts(users@), name@) >= 0,
        r is Some ==> r->0 == find_account(accounts(users@), name@) && r->0 < users@.len(),
{
    let ghost s = accounts(users@);
    let mut i: usize = 0;
    while i < users.len()
        invariant
            0 <= i <= users@.len(),
            s == accounts(users@),
            forall|k: int| 0 <= k < i ==> s[k].0 != name@,
        decreases users@.len() - i,
    {
        if str_eq(users[i].name.as_str(), name) {
            proof {
                lemma_find_account(s, name@);
                let f = find_account(s, name@);
                assert(s[i as int].0 == name@);
                if f < 0 {
                    assert(s[i as int].0 != name@);
                } else if f < i {
                    assert(s[f].0 != name@);
                } else if f > i {
                    assert(s[i as int].0 != name@);
                }
            }
            return Some(i);
        }
        i = i + 1;
    }
    proof {
        lemma_find_account(s, name@);
        let f = find_account(s, name@);
        if f >= 0 {
            assert(s[f].0 == name@);
            assert(s[f].0 != name@);
        }
    }
    None
}

impl Bank {
    /// The roster of accounts as records.
    pub open spec fn accounts_view(&self) -> Seq<(Seq<char>, u64, i64)> {
        accounts(self.users@)
    }

    /// A new bank with no accounts.
    pub fn new(name: String, credit_interest: u64, debit_interest: u64) -> (r: Self)
        ensures
            r.accounts_view() =~= Seq::<(Seq<char>, u64, i64)>::empty(),
            r.name@ == name@,
            r.credit_interest == credit_interest,
            r.debit_interest == debit_interest,
    {
        Bank { name, users: Vec::new(), credit_interest, debit_interest }
    }

    /// Adds an account; a name already on the roster is rejected and the
    /// bank is left unchanged.
    pub fn add_user(&mut self, user: User) -> (r: Result<(), String>)
        ensures
            r is Ok <==> find_account(old(self).accounts_view(), user.name@) < 0,
            r is Ok ==> final(self).accounts_view() =~= old(self).accounts_view().push(
                user_rec(user),
            ),
            r is Err ==> final(self).accounts_view() =~= old(self).accounts_view(),
            final(self).name@ == old(self).name@,
            final(self).credit_interest == old(self).credit_interest,
            final(self).debit_interest == old(self).debit_interest,
    {
        match find_index(&self.users, user.name.as_str()) {
            Some(_) => Err(
                String::from_str("User '").concat(user.name.as_str()).concat("' already exists"),
            ),
            None => {
                self.users.push(user);
                proof {
                    assert(final(self).accounts_view() =~= old(self).accounts_view().push(
                        user_rec(user),
                    ));
                }
                Ok(())
            },
        }
    }

    /// Total liabilities (positive balances) and assets (magnitudes of
    /// negative balances).
    pub fn calc_balance(&self) -> (r: (u64, u64))
        requires
            forall|k: int|
                0 <= k < self.accounts_view().len() ==> #[trigger] self.accounts_view()[k].2
                    > i64::MIN,
            sum_pos(self.accounts_view()) <= u64::MAX,
            sum_neg(self.accounts_view()) <= u64::MAX,
        ensures
            r.0 == sum_pos(self.accounts_view()),
            r.1 == sum_neg(self.accounts_view()),
    {
        let ghost s = self.accounts_view();
        let mut liability: u64 = 0;
        let mut asset: u64 = 0;
        let mut i: usize = 0;
        proof {
            assert(s.take(0) =~= Seq::<(Seq<char>, u64, i64)>::empty());
        }
        while i < self.users.len()
            invariant
                0 <= i <= self.users@.len(),
                s == self.accounts_view(),
                forall|k: int| 0 <= k < s.len() ==> #[trigger] s[k].2 > i64::MIN,
                sum_pos(s) <= u64::MAX,
                sum_neg(s) <= u64::MAX,
                liability == sum_pos(s.take(i as int)),
                asset == sum_neg(s.take(i as int)),
            decreases self.users@.len() - i,
        {
            proof {
                lemma_sums_prefix(s, (i + 1) as nat);
                assert(s.take(i + 1).drop_last() =~= s.take(i as int));
                assert(s.take(i + 1).last() == s[i as int]);
            }
            let b = self.users[i].balance;
            proof {
                assert(s[i as int] == user_rec(self.users@[i as int]));
                assert(s[i as int].2 > i64::MIN);
            }
            if b > 0 {
                liability = liability + (b as u64);
            } else if b < 0 {
                asset = asset + ((-b) as u64);
            }
            i = i + 1;
        }
        proof {
            assert(s.take(s.len() as int) =~= s);
        }
        (liability, asset)
    }

    /// Moves `amount` from one account to another.  Both names must exist,
    /// the amount must fit in a signed balance, the sender must stay within
    /// its credit line, and neither balance may overflow; on any failure the
    /// bank is left exactly as it was.
    pub fn transfer_funds(&mut self, from: &str, to: &str, amount: u64) -> (r: Result<
        (),
        String,
    >)
        ensures
            final(self).name@ == old(self).name@,
            final(self).credit_interest == old(self).credit_interest,
            final(self).debit_interest == old(self).debit_interest,
            r is Err ==> final(self).accounts_view() =~= old(self).accounts_view(),
            ({
                let s = old(self).accounts_view();
                let fi = find_account(s, from@);
                let ti = find_account(s, to@);
                let ok = fi >= 0 && ti >= 0 && amount <= i64::MAX && s[fi].2 - amount
                    >= i64::MIN && s[fi].1 <= i64::MAX && s[fi].2 - amount >= -(s[fi].1 as int)
                    && (if ti == fi {
                    s[fi].2 - amount
                } else {
                    s[ti].2 as int
                }) + amount <= i64::MAX;
                &&& (r is Ok <==> ok)
                &&& (ok ==> final(self).accounts_view() =~= s.update(
                    fi,
                    (s[fi].0, s[fi].1, (s[fi].2 - amount) as i64),
                ).update(
                    ti,
                    (
                        s[ti].0,
                        s[ti].1,
                        ((if ti == fi {
                            s[fi].2 - amount
                        } else {
                            s[ti].2 as int
                        }) + amount) as i64,
                    ),
                ))
            }),
    {
        let ghost s = old(self).accounts_view();
        let fi = match find_index(&self.users, from) {
            Some(i) => i,
            None => {
                return Err(String::from_str("User '").concat(from).concat("' not found"));
            },
        };
        let ti = match find_index(&self.users, to) {
            Some(i) => i,
            None => {
                return Err(String::from_str("User '").concat(to).concat("' not found"));
            },
        };
        if amount > i64::MAX as u64 {
            return Err(String::from_str("Amount too large to process"));
        }
        let amount_i64 = amount as i64;
        proof {
            assert(s[fi as int] == user_rec(self.users@[fi as int]));
            assert(s[ti as int] == user_rec(self.users@[ti as int]));
        }
        let from_bal = self.users[fi].balance;
        let new_balance = match from_bal.checked_sub(amount_i64) {
            Some(nb) => nb,
            None => {
                return Err(String::from_str("Arithmetic overflow in balance calculation"));
            },
        };
        if self.users[fi].credit_line > i64::MAX as u64 {
            return Err(String::from_str("Credit line too large to process"));
        }
        let credit_line_i64 = self.users[fi].credit_line as i64;
        if new_balance < -credit_line_i64 {
            return Err(String::from_str("Insufficient credit line"));
        }
        self.users[fi].balance = new_balance;
        let to_bal = self.users[ti].balance;
        match to_bal.checked_add(amount_i64) {
            Some(nb) => {
                self.users[ti].balance = nb;
                proof {
                    assert(final(self).accounts_view() =~= s.update(
                        fi as int,
                        (s[fi as int].0, s[fi as int].1, (s[fi as int].2 - amount) as i64),
                    ).update(
                        ti as int,
                        (
                            s[ti as int].0,
                            s[ti as int].1,
                            ((if ti == fi {
                                s[fi as int].2 - amount
                            } else {
                                s[ti as int].2 as int
                            }) + amount) as i64,
                        ),
                    ));
                }
                Ok(())
            },
            None => {
                self.users[fi].balance = from_bal;
                proof {
                    assert(final(self).accounts_view() =~= s);
                }
                Err(String::from_str("Arithmetic overflow when adding to receiver"))
            },
        }
    }

    /// Applies one round of interest to every account in roster order,
    /// stopping with an error at the first account whose computation
    /// overflows; accounts before it keep their new balances.
    pub fn accrue_interest(&mut self) -> (r: Result<(), String>)
        requires
            forall|k: int|
                0 <= k < old(self).accounts_view().len() ==> #[trigger] old(
                    self,
                ).accounts_view()[k].2 > i64::MIN,
        ensures
            final(self).name@ == old(self).name@,
            final(self).credit_interest == old(self).credit_interest,
            final(self).debit_interest == old(self).debit_interest,
            ({
                let s = old(self).accounts_view();
                let ci = old(self).credit_interest;
                let di = old(self).debit_interest;
                let f = first_accrue_fail(s, ci, di);
                &&& (r is Ok <==> f == s.len())
                &&& final(self).accounts_view() =~= Seq::new(
                    s.len(),
                    |k: int|
                        if k < f {
                            (s[k].0, s[k].1, accrue_bal(s[k].2, ci, di)->0)
                        } else {
                            s[k]
                        },
                )
            }),
    {
        let ghost s = old(self).accounts_view();
        let ci = self.credit_interest;
        let di = self.debit_interest;
        proof {
            lemma_first_accrue_fail(s, ci, di);
        }
        let ghost f = first_accrue_fail(s, ci, di);
        let mut i: usize = 0;
        while i < self.users.len()
            invariant
                0 <= i <= s.len(),
                s.len() == self.users@.len(),
                ci == old(self).credit_interest,
                di == old(self).debit_interest,
                self.credit_interest == old(self).credit_interest,
                self.debit_interest == old(self).debit_interest,
                self.name@ == old(self).name@,
                s == old(self).accounts_view(),
                f == first_accrue_fail(s, ci, di),
                0 <= f <= s.len(),
                forall|k: int| 0 <= k < f ==> accrue_bal(s[k].2, ci, di) is Some,
                f < s.len() ==> accrue_bal(s[f].2, ci, di) is None,
                i <= f,
                forall|k: int| 0 <= k < s.len() ==> #[trigger] s[k].2 > i64::MIN,
                accounts(self.users@) =~= Seq::new(
                    s.len(),
                    |k: int|
                        if k < i {
                            (s[k].0, s[k].1, accrue_bal(s[k].2, ci, di)->0)
                        } else {
                            s[k]
                        },
                ),
            decreases s.len() - i,
        {
            let b = self.users[i].balance;
            proof {
                assert(accounts(self.users@)[i as int] == s[i as int]);
                assert(b == s[i as int].2);
                assert(s[i as int].2 > i64::MIN);
            }
            let step = accrue_step(b, ci, di, self.users[i].name.as_str());
            match step {
                Ok(nb) => {
                    let ghost upre = self.users@;
                    self.users[i].balance = nb;
                    proof {
                        assert(accrue_bal(s[i as int].2, ci, di) is Some);
                        assert(nb == accrue_bal(s[i as int].2, ci, di)->0);
                        let target = Seq::new(
                            s.len(),
                            |k: int|
                                if k < i + 1 {
                                    (s[k].0, s[k].1, accrue_bal(s[k].2, ci, di)->0)
                                } else {
                                    s[k]
                                },
                        );
                        assert forall|k: int| 0 <= k < s.len() implies accounts(self.users@)[k]
                            == target[k] by {
                            if k == i {
                                assert(user_rec(upre[k]) == s[k]);
                                assert(self.users@[k].name@ == upre[k].name@);
                            } else {
                                assert(self.users@[k] == upre[k]);
                                assert(accounts(upre)[k] == user_rec(upre[k]));
                            }
                        }
                        assert(accounts(self.users@) =~= target);
                    }
                },
                Err(msg) => {
                    proof {
                        assert(accrue_bal(s[i as int].2, ci, di) is None);
                        if f > i {
                            assert(accrue_bal(s[i as int].2, ci, di) is Some);
                        }
                        assert(f == i);
                        assert(final(self).accounts_view() =~= Seq::new(
                            s.len(),
                            |k: int|
                                if k < f {
                                    (s[k].0, s[k].1, accrue_bal(s[k].2, ci, di)->0)
                                } else {
                                    s[k]
                                },
                        ));
                    }
                    return Err(msg);
                },
            }
            i = i + 1;
        }
        Ok(())
    }

    /// Folds another bank's accounts into this one in roster order: an
    /// existing name absorbs the incoming balance, a new name is appended,
    /// and the interest rates become the averages of the two banks'.  The
    /// first overflow stops the merge with an error, keeping what was merged
    /// so far.
    pub fn merge_bank(&mut self, other: Bank) -> (r: Result<(), String>)
        ensures
            final(self).name@ == old(self).name@,
            ({
                let (su, ok) = merge_run(old(self).accounts_view(), other.accounts_view());
                let ci_sum = old(self).credit_interest + other.credit_interest;
                let di_sum = old(self).debit_interest + other.debit_interest;
                &&& final(self).accounts_view() =~= su
                &&& (r is Ok <==> ok && ci_sum <= u64::MAX && di_sum <= u64::MAX)
                &&& (!ok ==> final(self).credit_interest == old(self).credit_interest
                    && final(self).debit_interest == old(self).debit_interest)
                &&& (ok && ci_sum > u64::MAX ==> final(self).credit_interest == old(
                    self,
                ).credit_interest && final(self).debit_interest == old(self).debit_interest)
                &&& (ok && ci_sum <= u64::MAX ==> final(self).credit_interest == ci_sum / 2)
                &&& (ok && ci_sum <= u64::MAX && di_sum > u64::MAX ==> final(self).debit_interest
                    == old(self).debit_interest)
                &&& (ok && ci_sum <= u64::MAX && di_sum <= u64::MAX ==> final(self).debit_interest
                    == di_sum / 2)
            }),
    {
        let ghost ov = other.accounts_view();
        let ghost oci = other.credit_interest;
        let ghost odi = other.debit_interest;
        let n_exec = other.users.len();
        let mut incoming = other;
        let mut processed: usize = 0;
        let ghost n_total = ov.len();
        proof {
            assert(n_total == n_exec);
            assert(n_total <= usize::MAX);
        }
        proof {
            assert(ov.skip(0) =~= ov);
            assert(accounts(incoming.users@) =~= ov.skip(0));
        }
        while incoming.users.len() > 0
            invariant
                self.name@ == old(self).name@,
                self.credit_interest == old(self).credit_interest,
                self.debit_interest == old(self).debit_interest,
                processed + incoming.users@.len() == n_total,
                ov.len() == n_total,
                ov == other.accounts_view(),
                oci == other.credit_interest,
                odi == other.debit_interest,
                n_total <= usize::MAX,
                incoming.credit_interest == oci,
                incoming.debit_interest == odi,
                accounts(incoming.users@) =~= ov.skip(processed as int),
                merge_run(old(self).accounts_view(), ov) == merge_run(
                    accounts(self.users@),
                    ov.skip(processed as int),
                ),
            decreases incoming.users@.len(),
        {
            let ghost pre = incoming.users@;
            let u = incoming.users.remove(0);
            let ghost acc0 = accounts(self.users@);
            proof {
                pre.remove_ensures(0);
                assert(pre.len() > 0);
                assert(u == pre[0]);
                assert(accounts(pre) =~= ov.skip(processed as int));
                assert(accounts(pre)[0] == user_rec(pre[0]));
                assert(accounts(pre)[0] == ov.skip(processed as int)[0]);
                assert(ov.skip(processed as int)[0] == user_rec(u));
                assert(incoming.users@ =~= pre.drop_first());
                assert forall|k: int| 0 <= k < incoming.users@.len() implies accounts(
                    incoming.users@,
                )[k] == ov.skip(processed as int + 1)[k] by {
                    assert(processed + pre.len() == n_total);
                    assert(ov.len() == n_total);
                    assert(incoming.users@ == pre.remove(0));
                    assert(incoming.users@.len() == pre.len() - 1);
                    assert(0 <= k + 1 < pre.len());
                    assert(processed + 1 + k < ov.len());
                    assert(pre.remove(0)[k] == pre[k + 1]);
                    assert(incoming.users@[k] == pre[k + 1]);
                    assert(accounts(incoming.users@)[k] == user_rec(incoming.users@[k]));
                    assert(accounts(pre)[k + 1] == user_rec(pre[k + 1]));
                    assert(ov.skip(processed as int)[k + 1] == accounts(pre)[k + 1]);
                    assert(ov.skip(processed as int)[k + 1] == ov[processed + 1 + k]);
                    assert(ov.skip(processed as int + 1)[k] == ov[processed + 1 + k]);
                }
                assert(accounts(incoming.users@) =~= ov.skip(processed as int + 1));
                lemma_find_account(acc0, u.name@);
            }
            match find_index(&self.users, u.name.as_str()) {
                Some(i) => {
                    let nb = match self.users[i].balance.checked_add(u.balance) {
                        Some(nb) => nb,
                        None => {
                            proof {
                                assert(acc0[find_account(acc0, u.name@)].2 == self.users@[
                                    find_account(acc0, u.name@)].balance);
                                assert(merge_into(acc0, user_rec(u)) is None);
                                assert(merge_run(acc0, ov.skip(processed as int)) == (
                                    acc0,
                                    false,
                                ));
                            }
                            return Err(
                                String::from_str("Balance overflow when merging user ").concat(
                                    u.name.as_str(),
                                ),
                            );
                        },
                    };
                    self.users[i].balance = nb;
                    proof {
                        assert(accounts(self.users@) =~= acc0.update(
                            i as int,
                            (acc0[i as int].0, acc0[i as int].1, nb),
                        ));
                        assert(merge_into(acc0, user_rec(u)) == Some(accounts(self.users@)));
                    }
                },
                None => {
                    let ghost ur = user_rec(u);
                    self.users.push(u);
                    proof {
                        assert(accounts(self.users@) =~= acc0.push(ur));
                        assert(merge_into(acc0, ur) == Some(accounts(self.users@)));
                    }
                },
            }
            proof {
                assert(ov.skip(processed as int).drop_first() =~= ov.skip(processed as int + 1));
                assert(merge_run(old(self).accounts_view(), ov) == merge_run(
                    accounts(self.users@),
                    ov.skip(processed as int + 1),
                ));
            }
            processed = processed + 1;
        }
        proof {
            assert(ov.skip(processed as int) =~= Seq::<(Seq<char>, u64, i64)>::empty());
            assert(merge_run(accounts(self.users@), ov.skip(processed as int)) == (
                accounts(self.users@),
                true,
            ));
        }
        let ci = match self.credit_interest.checked_add(incoming.credit_interest) {
            Some(sum) => sum / 2,
            None => {
                return Err(String::from_str("Credit interest overflow during merge"));
            },
        };
        self.credit_interest = ci;
        let di = match self.debit_interest.checked_add(incoming.debit_interest) {
            Some(sum) => sum / 2,
            None => {
                return Err(String::from_str("Debit interest overflow during merge"));
            },
        };
        self.debit_interest = di;
        Ok(())
    }
}

} // verus!
