//! The store itself: a user index (user to account ids) over an account
//! table (id to record) and a monotonic id counter, with the two-phase
//! addition (mutate, then settle against the measured storage growth) that
//! lets an underpaid addition be rolled back exactly.
use std::collections::HashMap;
use vstd::prelude::*;
use crate::accounting::{refund_of, required_cost, storage_cost};
use crate::codec::{decode, encode};
use crate::model::{
    add_spec, detach_users, has_site, ids_of, lemma_add_keeps_inv, lemma_index_unique, lemma_remove_keeps_inv,
    lemma_rollback_exact, lemma_seq_remove, lookup, owns, remove_spec, stored_as, undo_info, undo_spec,
    vault_inv, AccountView, UndoInfo, UserAccount, UserAccountId, Vault, VaultError,
};

verus! {

broadcast use vstd::std_specs::hash::group_hash_axioms;

struct UserEntry {
    user_id: String,
    ids: Vec<UserAccountId>,
}

/// An addition that waits to be paid for: what undoes it, and the
/// prepayment that came with it.
struct PendingAdd {
    id: UserAccountId,
    user_id: String,
    previous: Option<UserAccount>,
    counter_before: u128,
    deposit: u128,
    info: Ghost<UndoInfo>,
    before: Ghost<Vault>,
    website: Ghost<Seq<char>>,
    username: Ghost<Seq<char>>,
    password: Ghost<Seq<char>>,
}

/// The credential store of many users.
pub struct PassManager {
    owner_id: String,
    accounts_per_user: Vec<UserEntry>,
    accounts_by_id: HashMap<UserAccountId, UserAccount>,
    account_id_counter: UserAccountId,
    users: Ghost<Map<Seq<char>, Seq<u128>>>,
    plain: Ghost<Map<u128, AccountView>>,
    pending: Option<PendingAdd>,
}

impl View for PassManager {
    type V = Vault;

    closed spec fn view(&self) -> Vault {
        Vault { users: self.users@, table: self.plain@, counter: self.account_id_counter as int }
    }
}

impl PassManager {
    spec fn users_linked(&self) -> bool {
        let e = self.accounts_per_user@;
        let m = self.users@;
        &&& forall|i: int, j: int| 0 <= i < e.len() && 0 <= j < e.len() && i != j
            ==> #[trigger] e[i].user_id@ != #[trigger] e[j].user_id@
        &&& forall|i: int| 0 <= i < e.len() ==> m.contains_key(#[trigger] e[i].user_id@) && m[e[i].user_id@] == e[i].ids@
        &&& forall|u: Seq<char>| #[trigger] m.contains_key(u) ==> exists|i: int| 0 <= i < e.len() && #[trigger] e[i].user_id@ == u
        &&& m.dom().len() == e.len()
    }

    spec fn table_linked(&self) -> bool {
        let t = self.accounts_by_id@;
        let p = self.plain@;
        &&& t.dom() == p.dom()
        &&& forall|x: u128| #[trigger] t.contains_key(x) ==> stored_as(t[x], p[x])
    }

    spec fn pending_ok(&self) -> bool {
        match self.pending {
            None => true,
            Some(p) => {
                &&& vault_inv(p.before@)
                &&& p.before@.counter < u128::MAX
                &&& self@ == add_spec(p.before@, p.user_id@, p.website@, p.username@, p.password@)
                &&& p.info@ == undo_info(p.before@, p.user_id@, p.website@)
                &&& p.id == p.info@.id
                &&& p.counter_before == p.before@.counter
                &&& (p.previous is Some <==> p.info@.previous is Some)
                &&& p.previous is Some ==> stored_as(p.previous->Some_0, p.info@.previous->Some_0)
            },
        }
    }

    /// What undoes the addition that waits to be paid for, if one does.
    pub closed spec fn pending_undo(&self) -> Option<UndoInfo> {
        match self.pending {
            None => None,
            Some(p) => Some(p.info@),
        }
    }

    /// The prepayment of the addition that waits to be paid for.
    pub closed spec fn pending_deposit(&self) -> u128 {
        match self.pending {
            None => 0,
            Some(p) => p.deposit,
        }
    }

    spec fn same_but_users(&self, o: &Self) -> bool {
        &&& self.owner_id == o.owner_id
        &&& self.accounts_by_id == o.accounts_by_id
        &&& self.account_id_counter == o.account_id_counter
        &&& self.plain == o.plain
        &&& self.pending == o.pending
    }

    /// The store is well formed: the abstract state meets its invariant and
    /// the concrete index and table hold exactly that state.
    pub closed spec fn wf(&self) -> bool {
        &&& vault_inv(self@)
        &&& self.users_linked()
        &&& self.table_linked()
        &&& self.pending_ok()
    }

    pub closed spec fn owner_view(&self) -> Seq<char> {
        self.owner_id@
    }

    /// An empty store owned by `owner_id`.
    pub fn new(owner_id: String) -> (r: Self)
        ensures
            r.wf(),
            r.owner_view() == owner_id@,
            r@.users == Map::<Seq<char>, Seq<u128>>::empty(),
            r@.table == Map::<u128, AccountView>::empty(),
            r@.counter == 0,
            r.pending_undo() is None,
    {
        PassManager {
            owner_id,
            accounts_per_user: Vec::new(),
            accounts_by_id: HashMap::new(),
            account_id_counter: 0,
            users: Ghost(Map::empty()),
            plain: Ghost(Map::empty()),
            pending: None,
        }
    }

    /// The identifier of the system that owns the store.
    pub fn owner_id(&self) -> (r: &String)
        ensures
            r@ == self.owner_view(),
    {
        &self.owner_id
    }

    /// The last id handed out.
    pub fn account_id_counter(&self) -> (r: u128)
        requires
            self.wf(),
        ensures
            r == self@.counter,
    {
        self.account_id_counter
    }

    /// Position of the index entry of `user_id`, if it has one.
    fn find_user(&self, user_id: &String) -> (r: Option<usize>)
        requires
            self.users_linked(),
        ensures
            r is None ==> !self.users@.contains_key(user_id@),
            r is Some ==> r->Some_0 < self.accounts_per_user@.len()
                && self.accounts_per_user@[r->Some_0 as int].user_id@ == user_id@,
    {
        let n = self.accounts_per_user.len();
        let mut i: usize = 0;
        while i < n
            invariant
                self.users_linked(),
                n == self.accounts_per_user@.len(),
                i <= n,
                forall|j: int| 0 <= j < i ==> #[trigger] self.accounts_per_user@[j].user_id@ != user_id@,
            decreases n - i,
        {
            if self.accounts_per_user[i].user_id == *user_id {
                return Some(i);
            }
            i = i + 1;
        }
        None
    }

    /// Adds `account_id` at the end of the ids of `user_id`, making the
    /// user's entry where there is none.
    fn add_account_to_user(&mut self, user_id: &String, account_id: UserAccountId)
        requires
            old(self).users_linked(),
            old(self).users@.dom().finite(),
        ensures
            final(self).users_linked(),
            final(self).same_but_users(old(self)),
            final(self).users@ == old(self).users@.insert(user_id@, ids_of(old(self).users@, user_id@).push(account_id)),
    {
        let ghost m = self.users@;
        let ghost e0 = self.accounts_per_user@;
        let ghost nm = m.insert(user_id@, ids_of(m, user_id@).push(account_id));
        match self.find_user(user_id) {
            Some(i) => {
                let mut entry = self.accounts_per_user.remove(i);
                entry.ids.push(account_id);
                self.accounts_per_user.insert(i, entry);
                self.users = Ghost(nm);
                proof {
                    let e = self.accounts_per_user@;
                    assert(e =~= e0.update(i as int, entry));
                    assert(m.contains_key(user_id@));
                    assert(nm.dom() =~= m.dom());
                    assert forall|a: Seq<char>| #[trigger] nm.contains_key(a) implies exists|j: int| 0 <= j < e.len() && #[trigger] e[j].user_id@ == a by {
                        assert(m.contains_key(a));
                        let j = choose|j: int| 0 <= j < e0.len() && #[trigger] e0[j].user_id@ == a;
                        assert(e[j].user_id@ == a);
                    }
                    assert forall|j: int| 0 <= j < e.len() implies nm.contains_key(#[trigger] e[j].user_id@) && nm[e[j].user_id@] == e[j].ids@ by {
                        if j != i {
                            assert(e0[j].user_id@ != e0[i as int].user_id@);
                        }
                    }
                }
            },
            None => {
                let mut ids: Vec<UserAccountId> = Vec::new();
                ids.push(account_id);
                self.accounts_per_user.push(UserEntry { user_id: user_id.clone(), ids });
                self.users = Ghost(nm);
                proof {
                    let e = self.accounts_per_user@;
                    assert(e.len() == e0.len() + 1);
                    assert(ids@ =~= ids_of(m, user_id@).push(account_id));
                    assert forall|j: int| 0 <= j < e0.len() implies #[trigger] e0[j].user_id@ != user_id@ by {
                        assert(m.contains_key(e0[j].user_id@));
                    }
                    assert forall|a: Seq<char>| #[trigger] nm.contains_key(a) implies exists|j: int| 0 <= j < e.len() && #[trigger] e[j].user_id@ == a by {
                        if a == user_id@ {
                            assert(e[e0.len() as int].user_id@ == a);
                        } else {
                            assert(m.contains_key(a));
                            let j = choose|j: int| 0 <= j < e0.len() && #[trigger] e0[j].user_id@ == a;
                            assert(e[j].user_id@ == a);
                        }
                    }
                    assert forall|j: int| 0 <= j < e.len() implies nm.contains_key(#[trigger] e[j].user_id@) && nm[e[j].user_id@] == e[j].ids@ by {
                        if j < e0.len() {
                            assert(e[j] == e0[j]);
                        }
                    }
                    assert forall|j: int, k: int| 0 <= j < e.len() && 0 <= k < e.len() && j != k
                        implies #[trigger] e[j].user_id@ != #[trigger] e[k].user_id@ by {
                        if j < e0.len() && k < e0.len() {
                            assert(e[j] == e0[j] && e[k] == e0[k]);
                        } else if j < e0.len() {
                            assert(e[j] == e0[j]);
                        } else {
                            assert(e[k] == e0[k]);
                        }
                    }
                    assert(nm.dom() =~= m.dom().insert(user_id@));
                }
            },
        }
    }

    /// Position of `account_id` among the ids of entry `i`, if it is there.
    fn position_in_entry(&self, i: usize, account_id: UserAccountId) -> (r: Option<usize>)
        requires
            i < self.accounts_per_user@.len(),
        ensures
            r is None ==> !self.accounts_per_user@[i as int].ids@.contains(account_id),
            r is Some ==> r->Some_0 < self.accounts_per_user@[i as int].ids@.len()
                && self.accounts_per_user@[i as int].ids@[r->Some_0 as int] == account_id,
    {
        let ids = &self.accounts_per_user[i].ids;
        let n = ids.len();
        let mut k: usize = 0;
        while k < n
            invariant
                i < self.accounts_per_user@.len(),
                ids@ == self.accounts_per_user@[i as int].ids@,
                n == ids@.len(),
                k <= n,
                forall|j: int| 0 <= j < k ==> #[trigger] ids@[j] != account_id,
            decreases n - k,
        {
            if ids[k] == account_id {
                return Some(k);
            }
            k = k + 1;
        }
        None
    }

    /// Takes `account_id` out of the ids of `user_id`, and the user's entry
    /// with it where no id is left. Tells whether the id was there; a user
    /// with no entry is an error.
    fn remove_account_from_user(&mut self, user_id: &String, account_id: UserAccountId) -> (r: Result<bool, VaultError>)
        requires
            old(self).users_linked(),
            old(self).users@.dom().finite(),
            forall|a: Seq<char>| #[trigger] old(self).users@.contains_key(a)
                ==> old(self).users@[a].len() > 0 && old(self).users@[a].no_duplicates(),
        ensures
            final(self).users_linked(),
            final(self).same_but_users(old(self)),
            !old(self).users@.contains_key(user_id@) ==> r == Err::<bool, VaultError>(VaultError::UnknownUser)
                && final(self).users@ == old(self).users@,
            old(self).users@.contains_key(user_id@) && !old(self).users@[user_id@].contains(account_id)
                ==> r == Ok::<bool, VaultError>(false) && final(self).users@ == old(self).users@,
            old(self).users@.contains_key(user_id@) && old(self).users@[user_id@].contains(account_id)
                ==> r == Ok::<bool, VaultError>(true) && final(self).users@ == detach_users(old(self).users@, user_id@, account_id),
    {
        let ghost m = self.users@;
        let ghost e0 = self.accounts_per_user@;
        let i = match self.find_user(user_id) {
            None => return Err(VaultError::UnknownUser),
            Some(i) => i,
        };
        proof {
            assert(m[user_id@] == e0[i as int].ids@);
        }
        let k = match self.position_in_entry(i, account_id) {
            None => return Ok(false),
            Some(k) => k,
        };
        let ghost ids = e0[i as int].ids@;
        proof {
            lemma_index_unique(ids, k as int);
            lemma_seq_remove(ids, k as int);
        }
        let ghost nm = detach_users(m, user_id@, account_id);
        let mut entry = self.accounts_per_user.remove(i);
        entry.ids.remove(k);
        if entry.ids.len() > 0 {
            self.accounts_per_user.insert(i, entry);
            self.users = Ghost(nm);
            proof {
                let e = self.accounts_per_user@;
                assert(e =~= e0.update(i as int, entry));
                assert(nm == m.insert(user_id@, entry.ids@));
                assert(nm.dom() =~= m.dom());
                assert forall|a: Seq<char>| #[trigger] nm.contains_key(a) implies exists|j: int| 0 <= j < e.len() && #[trigger] e[j].user_id@ == a by {
                    assert(m.contains_key(a));
                    let j = choose|j: int| 0 <= j < e0.len() && #[trigger] e0[j].user_id@ == a;
                    assert(e[j].user_id@ == a);
                }
                assert forall|j: int| 0 <= j < e.len() implies nm.contains_key(#[trigger] e[j].user_id@) && nm[e[j].user_id@] == e[j].ids@ by {
                    if j != i {
                        assert(e0[j].user_id@ != e0[i as int].user_id@);
                    }
                }
            }
        } else {
            self.users = Ghost(nm);
            proof {
                let e = self.accounts_per_user@;
                assert(nm == m.remove(user_id@));
                assert(e =~= e0.remove(i as int));
                assert forall|j: int| 0 <= j < e.len() implies #[trigger] e[j] == (if j < i { e0[j] } else { e0[j + 1] }) by {}
                assert forall|a: Seq<char>| #[trigger] nm.contains_key(a) implies exists|j: int| 0 <= j < e.len() && #[trigger] e[j].user_id@ == a by {
                    assert(m.contains_key(a));
                    let j = choose|j: int| 0 <= j < e0.len() && #[trigger] e0[j].user_id@ == a;
                    if j < i {
                        assert(e[j].user_id@ == a);
                    } else {
                        assert(j != i);
                        assert(e[j - 1].user_id@ == a);
                    }
                }
                assert forall|j: int| 0 <= j < e.len() implies nm.contains_key(#[trigger] e[j].user_id@) && nm[e[j].user_id@] == e[j].ids@ by {
                    if j < i {
                        assert(e0[j].user_id@ != e0[i as int].user_id@);
                    } else {
                        assert(e0[j + 1].user_id@ != e0[i as int].user_id@);
                    }
                }
                assert forall|j: int, l: int| 0 <= j < e.len() && 0 <= l < e.len() && j != l
                    implies #[trigger] e[j].user_id@ != #[trigger] e[l].user_id@ by {
                    let jj = if j < i { j } else { j + 1 };
                    let ll = if l < i { l } else { l + 1 };
                    assert(e[j] == e0[jj] && e[l] == e0[ll]);
                }
                assert(m.dom().contains(user_id@));
                assert(nm.dom() =~= m.dom().remove(user_id@));
            }
        }
        Ok(true)
    }

    /// Whether an addition waits to be paid for.
    pub fn has_pending(&self) -> (r: bool)
        ensures
            r == self.pending_undo() is Some,
    {
        self.pending.is_some()
    }

    /// Adds the record of `user_id` for `website`, or updates it in place
    /// where there is one: the id is kept and the credentials are stored
    /// encoded. A new record takes the next id. The addition then waits to be
    /// paid for with `settle_add` (an earlier one that still waited is kept
    /// and no longer waits); an addition with no prepayment is refused and
    /// changes nothing.
    pub fn add_account(
        &mut self,
        user_id: String,
        website: String,
        username: String,
        password: String,
        attached_deposit: u128,
    ) -> (r: Result<(), VaultError>)
        requires
            old(self).wf(),
            old(self)@.counter < u128::MAX,
        ensures
            final(self).wf(),
            attached_deposit == 0 ==> r == Err::<(), VaultError>(VaultError::NoDeposit)
                && final(self)@ == old(self)@ && final(self).pending_undo() == old(self).pending_undo(),
            attached_deposit > 0 ==> r is Ok
                && final(self)@ == add_spec(old(self)@, user_id@, website@, username@, password@)
                && final(self).pending_undo() == Some(undo_info(old(self)@, user_id@, website@))
                && final(self).pending_deposit() == attached_deposit,
    {
        if attached_deposit == 0 {
            return Err(VaultError::NoDeposit);
        }
        let ghost before = self@;
        let ghost e0 = self.accounts_per_user@;
        proof {
            assert(self.users_linked());
        }
        let ghost view = AccountView { id: 0, user_id: user_id@, website: website@, username: username@, password: password@ };
        let existing = self.find_id(&user_id, &website);
        let stored_username = encode(username.as_str());
        let stored_password = encode(password.as_str());
        let counter_before = self.account_id_counter;
        let (id, previous) = match existing {
            Some(x) => {
                proof {
                    assert(has_site(before, user_id@, website@, x));
                    assert(before.table.contains_key(x));
                }
                let previous = match self.accounts_by_id.get(&x) {
                    Some(a) => Some(copy_record(a)),
                    None => None,
                };
                (x, previous)
            },
            None => {
                self.account_id_counter = counter_before + 1;
                (counter_before + 1, None)
            },
        };
        let record = UserAccount {
            id,
            user_id: user_id.clone(),
            website,
            username: stored_username,
            password: stored_password,
        };
        let ghost old_table = self.accounts_by_id@;
        self.accounts_by_id.insert(id, record);
        self.plain = Ghost(self.plain@.insert(id, AccountView { id, ..view }));
        proof {
            assert(self.users@ == before.users);
            assert(self.accounts_per_user@ == e0);
            assert(self.users_linked());
        }
        if existing.is_none() {
            self.add_account_to_user(&user_id, id);
        }
        let ghost e1 = self.accounts_per_user@;
        let ghost u1 = self.users@;
        proof {
            assert(self.users_linked());
        }
        self.pending = Some(PendingAdd {
            id,
            user_id,
            previous,
            counter_before,
            deposit: attached_deposit,
            info: Ghost(undo_info(before, view.user_id, view.website)),
            before: Ghost(before),
            website: Ghost(view.website),
            username: Ghost(view.username),
            password: Ghost(view.password),
        });
        proof {
            lemma_add_keeps_inv(before, view.user_id, view.website, view.username, view.password);
            assert(self@ == add_spec(before, view.user_id, view.website, view.username, view.password));
            assert(self.accounts_by_id@.dom() =~= self.plain@.dom());
            assert forall|x: u128| #[trigger] self.accounts_by_id@.contains_key(x)
                implies stored_as(self.accounts_by_id@[x], self.plain@[x]) by {
                if x != id {
                    assert(old_table.contains_key(x));
                }
            }
            assert(vault_inv(self@));
            assert(self.accounts_per_user@ == e1 && self.users@ == u1);
            assert(self.users_linked());
            assert(self.table_linked());
            assert(self.pending_ok());
        }
        Ok(())
    }

    /// Settles the addition that waits to be paid for, given the storage
    /// usage read before and after it and the price of a byte. Where its
    /// prepayment covers the price of the bytes it took, it stays and the
    /// surplus is given back (nothing where the surplus is one unit or
    /// less). Otherwise it is undone exactly and the price is reported.
    pub fn settle_add(&mut self, usage_before: u64, usage_after: u64, byte_cost: u128) -> (r: Result<u128, VaultError>)
        requires
            old(self).wf(),
            old(self).pending_undo() is Some,
        ensures
            final(self).wf(),
            final(self).pending_undo() is None,
            required_cost(usage_before, usage_after, byte_cost) > old(self).pending_deposit() ==> r
                == Err::<u128, VaultError>(VaultError::InsufficientPayment(
                required_cost(usage_before, usage_after, byte_cost) as u128,
            )) && final(self)@ == undo_spec(old(self)@, old(self).pending_undo()->Some_0),
            required_cost(usage_before, usage_after, byte_cost) <= old(self).pending_deposit() ==> r
                == Ok::<u128, VaultError>(
                refund_of(old(self).pending_deposit() - required_cost(usage_before, usage_after, byte_cost)) as u128,
            ) && final(self)@ == old(self)@,
    {
        let ghost after = self@;
        let ghost e0 = self.accounts_per_user@;
        proof {
            assert(self.users_linked());
        }
        let mut slot: Option<PendingAdd> = None;
        std::mem::swap(&mut self.pending, &mut slot);
        let p = match slot {
            Some(p) => p,
            // Not reached: the precondition asks for a waiting addition.
            None => return Ok(0),
        };
        let required = storage_cost(usage_before, usage_after, byte_cost);
        if required <= p.deposit {
            proof {
                assert(self.accounts_per_user@ == e0 && self.users@ == after.users);
                assert(self.users_linked());
            }
            let surplus = p.deposit - required;
            return Ok(if surplus > 1 { surplus } else { 0 });
        }
        let ghost before = p.before@;
        let ghost info = p.info@;
        proof {
            lemma_rollback_exact(before, p.user_id@, p.website@, p.username@, p.password@);
        }
        let ghost old_table = self.accounts_by_id@;
        match p.previous {
            Some(prev) => {
                proof {
                    assert(has_site(before, p.user_id@, p.website@, p.id));
                    assert(before.table.contains_key(p.id));
                }
                self.accounts_by_id.insert(p.id, prev);
                self.plain = Ghost(self.plain@.insert(p.id, info.previous->Some_0));
                proof {
                    assert(self.accounts_per_user@ == e0 && self.users@ == after.users);
                    assert(self.users_linked());
                    assert(self@ == undo_spec(after, info));
                    assert(self.accounts_by_id@.dom() =~= self.plain@.dom());
                    assert forall|x: u128| #[trigger] self.accounts_by_id@.contains_key(x)
                        implies stored_as(self.accounts_by_id@[x], self.plain@[x]) by {
                        if x != p.id {
                            assert(old_table.contains_key(x));
                        }
                    }
                }
            },
            None => {
                proof {
                    let ids = ids_of(before.users, p.user_id@);
                    assert(after.users[p.user_id@] == ids.push(p.id));
                    assert(after.users[p.user_id@][ids.len() as int] == p.id);
                }
                self.accounts_by_id.remove(&p.id);
                self.plain = Ghost(self.plain@.remove(p.id));
                self.account_id_counter = p.counter_before;
                proof {
                    assert(self.accounts_per_user@ == e0 && self.users@ == after.users);
                    assert(self.users_linked());
                }
                let _ = self.remove_account_from_user(&p.user_id, p.id);
                proof {
                    assert(self@ == undo_spec(after, info));
                    assert(self.accounts_by_id@.dom() =~= self.plain@.dom());
                    assert forall|x: u128| #[trigger] self.accounts_by_id@.contains_key(x)
                        implies stored_as(self.accounts_by_id@[x], self.plain@[x]) by {
                        assert(old_table.contains_key(x));
                    }
                }
            },
        }
        proof {
            assert(self@ == before);
            assert(self.users_linked());
            assert(self.table_linked());
        }
        Err(VaultError::InsufficientPayment(required))
    }

    /// Removes record `account_id` of `user_id`, from the user's ids and from
    /// the table. A user with no entry, or an id that is not among the
    /// user's, is an error and leaves the records as they were. Any addition
    /// that still waited to be paid for is kept and no longer waits.
    pub fn remove_account(&mut self, user_id: String, account_id: UserAccountId) -> (r: Result<(), VaultError>)
        requires
            old(self).wf(),
        ensures
            final(self).wf(),
            final(self).pending_undo() is None,
            !old(self)@.users.contains_key(user_id@) ==> r == Err::<(), VaultError>(VaultError::UnknownUser)
                && final(self)@ == old(self)@,
            old(self)@.users.contains_key(user_id@) && !owns(old(self)@, user_id@, account_id)
                ==> r == Err::<(), VaultError>(VaultError::AccountNotFound) && final(self)@ == old(self)@,
            owns(old(self)@, user_id@, account_id) ==> r == Ok::<(), VaultError>(())
                && final(self)@ == remove_spec(old(self)@, user_id@, account_id),
    {
        let ghost before = self@;
        let ghost e0 = self.accounts_per_user@;
        proof {
            assert(self.users_linked());
        }
        self.pending = None;
        proof {
            assert(self.accounts_per_user@ == e0 && self.users@ == before.users);
            assert(self.users_linked());
        }
        match self.remove_account_from_user(&user_id, account_id) {
            Err(e) => Err(e),
            Ok(false) => Err(VaultError::AccountNotFound),
            Ok(true) => {
                let ghost e1 = self.accounts_per_user@;
                let ghost u1 = self.users@;
                proof {
                    assert(self.users_linked());
                }
                let ghost old_table = self.accounts_by_id@;
                self.accounts_by_id.remove(&account_id);
                self.plain = Ghost(self.plain@.remove(account_id));
                proof {
                    lemma_remove_keeps_inv(before, user_id@, account_id);
                    assert(self.accounts_per_user@ == e1 && self.users@ == u1);
                    assert(self.users_linked());
                    assert(self@ == remove_spec(before, user_id@, account_id));
                    assert(self.accounts_by_id@.dom() =~= self.plain@.dom());
                    assert forall|x: u128| #[trigger] self.accounts_by_id@.contains_key(x)
                        implies stored_as(self.accounts_by_id@[x], self.plain@[x]) by {
                        assert(old_table.contains_key(x));
                    }
                }
                Ok(())
            },
        }
    }

    /// Id of the record of `user_id` for `website`: a scan of the user's ids.
    fn find_id(&self, user_id: &String, website: &String) -> (r: Option<u128>)
        requires
            self.wf(),
        ensures
            r == lookup(self@, user_id@, website@),
    {
        let ghost v = self@;
        match self.find_user(user_id) {
            None => {
                assert(!exists|x: u128| has_site(v, user_id@, website@, x));
                None
            },
            Some(i) => {
                let ids = &self.accounts_per_user[i].ids;
                proof {
                    assert(self.users@[user_id@] == ids@);
                }
                let n = ids.len();
                let mut k: usize = 0;
                while k < n
                    invariant
                        self.wf(),
                        v == self@,
                        n == ids@.len(),
                        k <= n,
                        v.users.contains_key(user_id@),
                        v.users[user_id@] == ids@,
                        forall|j: int| 0 <= j < k ==> v.table[#[trigger] ids@[j]].website != website@,
                    decreases n - k,
                {
                    let x = ids[k];
                    proof {
                        assert(owns(v, user_id@, x));
                    }
                    match self.accounts_by_id.get(&x) {
                        Some(rec) => {
                            if rec.website == *website {
                                proof {
                                    assert(has_site(v, user_id@, website@, x));
                                    let y = choose|y: u128| has_site(v, user_id@, website@, y);
                                    assert(v.table.contains_key(y));
                                    assert(v.table.contains_key(x));
                                }
                                return Some(x);
                            }
                        },
                        None => {},
                    }
                    k = k + 1;
                }
                proof {
                    assert forall|x: u128| !has_site(v, user_id@, website@, x) by {
                        if has_site(v, user_id@, website@, x) {
                            let j = choose|j: int| 0 <= j < ids@.len() && ids@[j] == x;
                            assert(v.table[ids@[j]].website != website@);
                        }
                    }
                }
                None
            },
        }
    }

    /// The record of `user_id` for `website`, with plaintext credentials; an
    /// unknown user reads as no record.
    pub fn get_one_account(&self, user_id: String, website: String) -> (r: Option<UserAccount>)
        requires
            self.wf(),
        ensures
            r is Some <==> lookup(self@, user_id@, website@) is Some,
            r is Some ==> r->Some_0@ == self@.table[lookup(self@, user_id@, website@)->Some_0],
    {
        match self.find_id(&user_id, &website) {
            None => None,
            Some(x) => {
                proof {
                    let y = choose|y: u128| has_site(self@, user_id@, website@, y);
                    assert(owns(self@, user_id@, y));
                }
                self.read_record(x)
            },
        }
    }

    /// The plaintext record of a table id.
    fn read_record(&self, x: u128) -> (r: Option<UserAccount>)
        requires
            self.wf(),
            self@.table.contains_key(x),
        ensures
            r is Some,
            r->Some_0@ == self@.table[x],
    {
        let rec = self.accounts_by_id.get(&x);
        match rec {
            Some(a) => match decode_credentials(a) {
                Ok(d) => Some(d),
                Err(_) => None,
            },
            None => None,
        }
    }

    /// All records of `user_id`, in the order of the user's index, with
    /// plaintext credentials; a user with no entry is an error.
    pub fn get_accounts_per_user(&self, user_id: String) -> (r: Result<Vec<UserAccount>, VaultError>)
        requires
            self.wf(),
        ensures
            r is Err <==> !self@.users.contains_key(user_id@),
            r is Err ==> r->Err_0 == VaultError::UnknownUser,
            r is Ok ==> r->Ok_0@.len() == self@.users[user_id@].len(),
            r is Ok ==> forall|k: int| 0 <= k < r->Ok_0@.len()
                ==> (#[trigger] r->Ok_0@[k])@ == self@.table[self@.users[user_id@][k]],
    {
        let ghost v = self@;
        match self.find_user(&user_id) {
            None => Err(VaultError::UnknownUser),
            Some(i) => {
                let ids = &self.accounts_per_user[i].ids;
                let n = ids.len();
                let mut out: Vec<UserAccount> = Vec::new();
                let mut k: usize = 0;
                while k < n
                    invariant
                        self.wf(),
                        v == self@,
                        n == ids@.len(),
                        k <= n,
                        v.users.contains_key(user_id@),
                        v.users[user_id@] == ids@,
                        out@.len() == k,
                        forall|j: int| 0 <= j < k ==> (#[trigger] out@[j])@ == v.table[ids@[j]],
                    decreases n - k,
                {
                    proof {
                        assert(owns(v, user_id@, ids@[k as int]));
                    }
                    match self.read_record(ids[k]) {
                        Some(a) => out.push(a),
                        None => {},
                    }
                    k = k + 1;
                }
                Ok(out)
            },
        }
    }

    /// Number of users with an index entry.
    pub fn get_users_count(&self) -> (r: u128)
        requires
            self.wf(),
        ensures
            r == self@.users.dom().len(),
    {
        self.accounts_per_user.len() as u128
    }
}

/// A field-by-field copy of a record.
fn copy_record(a: &UserAccount) -> (r: UserAccount)
    ensures
        r == *a,
{
    UserAccount {
        id: a.id,
        user_id: a.user_id.clone(),
        website: a.website.clone(),
        username: a.username.clone(),
        password: a.password.clone(),
    }
}

/// The plaintext of a stored record, or the first failure to decode it.
fn decode_credentials(account: &UserAccount) -> (r: Result<UserAccount, crate::codec::CodecError>)
    ensures
        forall|p: AccountView| stored_as(*account, p) ==> r is Ok && r->Ok_0@ == p,
        r is Ok ==> r->Ok_0.id == account.id && r->Ok_0.user_id@ == account.user_id@
            && r->Ok_0.website@ == account.website@
            && Ok::<Seq<char>, crate::codec::CodecError>(r->Ok_0.username@) == crate::codec::decoded(account.username@)
            && Ok::<Seq<char>, crate::codec::CodecError>(r->Ok_0.password@) == crate::codec::decoded(account.password@),
        r is Err ==> crate::codec::decoded(account.username@) is Err || crate::codec::decoded(account.password@) is Err,
{
    let username = match decode(account.username.as_str()) {
        Ok(u) => u,
        Err(e) => return Err(e),
    };
    let password = match decode(account.password.as_str()) {
        Ok(p) => p,
        Err(e) => return Err(e),
    };
    Ok(UserAccount {
        id: account.id,
        user_id: account.user_id.clone(),
        website: account.website.clone(),
        username,
        password,
    })
}

/// Referential integrity of every well-formed store: each id listed under a
/// user names a record of the table owned by that user, each record is
/// listed under its owner, and no id is listed under two users.
pub proof fn lemma_referential_integrity(m: &PassManager)
    requires
        m.wf(),
    ensures
        vault_inv(m@),
        forall|u: Seq<char>, x: u128| #[trigger] owns(m@, u, x) ==> m@.table.contains_key(x) && m@.table[x].user_id == u,
        forall|x: u128| #[trigger] m@.table.contains_key(x) ==> owns(m@, m@.table[x].user_id, x),
        forall|u1: Seq<char>, u2: Seq<char>, x: u128| #[trigger] owns(m@, u1, x) && #[trigger] owns(m@, u2, x) ==> u1 == u2,
{
}

} // verus!
