//! The abstract model of the store: records, the user index over the
//! account table, the transitions of adding, removing and undoing, and the
//! invariant that every reachable state meets, with its proofs.
use vstd::prelude::*;
use crate::codec::encoded;

verus! {

pub type UserAccountId = u128;

/// One account record. Inside the store the username and password are held
/// in their stored (encoded) form; the records that readers get back hold
/// plaintext.
#[derive(Clone, Debug, PartialEq, Eq)]
pub struct UserAccount {
    pub id: UserAccountId,
    pub user_id: String,
    pub website: String,
    pub username: String,
    pub password: String,
}

pub ghost struct AccountView {
    pub id: u128,
    pub user_id: Seq<char>,
    pub website: Seq<char>,
    pub username: Seq<char>,
    pub password: Seq<char>,
}

impl View for UserAccount {
    type V = AccountView;

    open spec fn view(&self) -> AccountView {
        AccountView {
            id: self.id,
            user_id: self.user_id@,
            website: self.website@,
            username: self.username@,
            password: self.password@,
        }
    }
}

/// The abstract state: the user index, the account table with plaintext
/// credentials, and the id counter.
pub ghost struct Vault {
    pub users: Map<Seq<char>, Seq<u128>>,
    pub table: Map<u128, AccountView>,
    pub counter: int,
}

/// Errors of the store's operations.
#[derive(Debug, PartialEq, Eq, Clone, Copy, Structural)]
pub enum VaultError {
    /// An addition came with no prepayment.
    NoDeposit,
    /// The prepayment does not cover the storage the addition takes; holds
    /// the price required.
    InsufficientPayment(u128),
    /// The user has no entry in the index.
    UnknownUser,
    /// The account id is not among the user's accounts.
    AccountNotFound,
}

pub open spec fn owns(v: Vault, u: Seq<char>, x: u128) -> bool {
    v.users.contains_key(u) && v.users[u].contains(x)
}

pub open spec fn has_site(v: Vault, u: Seq<char>, w: Seq<char>, x: u128) -> bool {
    owns(v, u, x) && v.table[x].website == w
}

/// The id of the record of user `u` for website `w`, if there is one.
pub open spec fn lookup(v: Vault, u: Seq<char>, w: Seq<char>) -> Option<u128> {
    if exists|x: u128| has_site(v, u, w, x) {
        Some(choose|x: u128| has_site(v, u, w, x))
    } else {
        None
    }
}

/// What holds of every reachable state.
pub open spec fn vault_inv(v: Vault) -> bool {
    &&& v.users.dom().finite()
    &&& 0 <= v.counter <= u128::MAX
    &&& forall|u: Seq<char>| #[trigger] v.users.contains_key(u) ==> v.users[u].len() > 0 && v.users[u].no_duplicates()
    &&& forall|u: Seq<char>, x: u128| #[trigger] owns(v, u, x) ==> v.table.contains_key(x) && v.table[x].user_id == u
    &&& forall|x: u128| #[trigger] v.table.contains_key(x) ==> owns(v, v.table[x].user_id, x)
    &&& forall|x: u128| #[trigger] v.table.contains_key(x) ==> v.table[x].id == x && 1 <= x <= v.counter
    &&& forall|x: u128, y: u128| #[trigger] v.table.contains_key(x) && #[trigger] v.table.contains_key(y)
        && v.table[x].user_id == v.table[y].user_id && v.table[x].website == v.table[y].website ==> x == y
}

/// The stored form of a record of the table.
pub open spec fn stored_as(a: UserAccount, r: AccountView) -> bool {
    &&& a.id == r.id
    &&& a.user_id@ == r.user_id
    &&& a.website@ == r.website
    &&& a.username@ == encoded(r.username)
    &&& a.password@ == encoded(r.password)
}


/// The ids of user `u`, empty where the user has no entry.
pub open spec fn ids_of(users: Map<Seq<char>, Seq<u128>>, u: Seq<char>) -> Seq<u128> {
    if users.contains_key(u) {
        users[u]
    } else {
        Seq::empty()
    }
}

/// The index with `x` taken out of the ids of `u`; an entry left empty goes.
pub open spec fn detach_users(users: Map<Seq<char>, Seq<u128>>, u: Seq<char>, x: u128) -> Map<Seq<char>, Seq<u128>> {
    let ids = users[u];
    let rest = ids.remove(choose|k: int| 0 <= k < ids.len() && ids[k] == x);
    if rest.len() == 0 {
        users.remove(u)
    } else {
        users.insert(u, rest)
    }
}

/// The state after adding (or updating) the record of `u` for website `w`.
pub open spec fn add_spec(v: Vault, u: Seq<char>, w: Seq<char>, un: Seq<char>, pw: Seq<char>) -> Vault {
    match lookup(v, u, w) {
        Some(x) => Vault {
            users: v.users,
            table: v.table.insert(x, AccountView { id: x, user_id: u, website: w, username: un, password: pw }),
            counter: v.counter,
        },
        None => {
            let x = (v.counter + 1) as u128;
            Vault {
                users: v.users.insert(u, ids_of(v.users, u).push(x)),
                table: v.table.insert(x, AccountView { id: x, user_id: u, website: w, username: un, password: pw }),
                counter: v.counter + 1,
            }
        },
    }
}

/// The state after removing record `x` of user `u`.
pub open spec fn remove_spec(v: Vault, u: Seq<char>, x: u128) -> Vault {
    Vault { users: detach_users(v.users, u, x), table: v.table.remove(x), counter: v.counter }
}

/// What an addition must remember to be undone.
pub ghost struct UndoInfo {
    pub user_id: Seq<char>,
    pub id: u128,
    pub previous: Option<AccountView>,
    pub counter: int,
}

pub open spec fn undo_info(v: Vault, u: Seq<char>, w: Seq<char>) -> UndoInfo {
    match lookup(v, u, w) {
        Some(x) => UndoInfo { user_id: u, id: x, previous: Some(v.table[x]), counter: v.counter },
        None => UndoInfo { user_id: u, id: (v.counter + 1) as u128, previous: None, counter: v.counter },
    }
}

/// The state after undoing an addition: a previous record comes back, a new
/// one goes, with its index entry and its id.
pub open spec fn undo_spec(v: Vault, i: UndoInfo) -> Vault {
    match i.previous {
        Some(p) => Vault { users: v.users, table: v.table.insert(i.id, p), counter: v.counter },
        None => Vault {
            users: detach_users(v.users, i.user_id, i.id),
            table: v.table.remove(i.id),
            counter: i.counter,
        },
    }
}

/// Adding a record keeps every invariant of the state.
pub proof fn lemma_add_keeps_inv(v: Vault, u: Seq<char>, w: Seq<char>, un: Seq<char>, pw: Seq<char>)
    requires
        vault_inv(v),
        v.counter < u128::MAX,
    ensures
        vault_inv(add_spec(v, u, w, un, pw)),
{
    let n = add_spec(v, u, w, un, pw);
    match lookup(v, u, w) {
        Some(x) => {
            assert(has_site(v, u, w, x));
            assert(v.table.contains_key(x));
            assert forall|a: Seq<char>, y: u128| #[trigger] owns(n, a, y) implies n.table.contains_key(y) && n.table[y].user_id == a by {
                assert(owns(v, a, y));
            }
            assert forall|y: u128| #[trigger] n.table.contains_key(y) implies owns(n, n.table[y].user_id, y) by {
                assert(v.table.contains_key(y));
            }
            assert forall|y: u128, z: u128| #[trigger] n.table.contains_key(y) && #[trigger] n.table.contains_key(z)
                && n.table[y].user_id == n.table[z].user_id && n.table[y].website == n.table[z].website implies y == z by {
                assert(v.table.contains_key(y) && v.table.contains_key(z));
            }
        },
        None => {
            let x = (v.counter + 1) as u128;
            assert(!v.table.contains_key(x));
            let ids = ids_of(v.users, u);
            assert(!ids.contains(x)) by {
                if ids.contains(x) {
                    assert(owns(v, u, x));
                }
            }
            assert forall|a: Seq<char>| #[trigger] n.users.contains_key(a) implies n.users[a].len() > 0 && n.users[a].no_duplicates() by {
                if a == u {
                    assert forall|i: int, j: int| 0 <= i < j < n.users[a].len() implies n.users[a][i] != n.users[a][j] by {
                        if j == ids.len() {
                            assert(ids.contains(ids[i]));
                        }
                    }
                }
            }
            assert forall|a: Seq<char>, y: u128| #[trigger] owns(n, a, y) implies n.table.contains_key(y) && n.table[y].user_id == a by {
                if y != x {
                    if a == u {
                        let k = choose|k: int| 0 <= k < n.users[a].len() && n.users[a][k] == y;
                        assert(ids[k] == y);
                        assert(v.users.contains_key(u));
                    }
                    assert(owns(v, a, y));
                } else if a != u {
                    assert(owns(v, a, y));
                }
            }
            assert forall|y: u128| #[trigger] n.table.contains_key(y) implies owns(n, n.table[y].user_id, y) by {
                if y != x {
                    assert(v.table.contains_key(y));
                    let a = v.table[y].user_id;
                    assert(owns(v, a, y));
                    if a == u {
                        let k = choose|k: int| 0 <= k < v.users[a].len() && v.users[a][k] == y;
                        assert(n.users[a][k] == y);
                    }
                } else {
                    assert(n.users[u][ids.len() as int] == x);
                }
            }
            assert forall|y: u128, z: u128| #[trigger] n.table.contains_key(y) && #[trigger] n.table.contains_key(z)
                && n.table[y].user_id == n.table[z].user_id && n.table[y].website == n.table[z].website implies y == z by {
                if y != x && z != x {
                    assert(v.table.contains_key(y) && v.table.contains_key(z));
                } else if y != x {
                    assert(v.table.contains_key(y));
                    assert(owns(v, v.table[y].user_id, y));
                    assert(has_site(v, u, w, y));
                } else if z != x {
                    assert(v.table.contains_key(z));
                    assert(owns(v, v.table[z].user_id, z));
                    assert(has_site(v, u, w, z));
                }
            }
        },
    }
}

pub(crate) proof fn lemma_seq_remove(ids: Seq<u128>, k: int)
    requires
        ids.no_duplicates(),
        0 <= k < ids.len(),
    ensures
        ids.remove(k).len() == ids.len() - 1,
        ids.remove(k).no_duplicates(),
        forall|y: u128| ids.remove(k).contains(y) <==> (ids.contains(y) && y != ids[k]),
{
    let rest = ids.remove(k);
    assert forall|j: int| 0 <= j < rest.len() implies #[trigger] rest[j] == (if j < k { ids[j] } else { ids[j + 1] }) by {}
    assert forall|y: u128| rest.contains(y) <==> (ids.contains(y) && y != ids[k]) by {
        if rest.contains(y) {
            let j = choose|j: int| 0 <= j < rest.len() && rest[j] == y;
            if j < k {
                assert(ids[j] == y);
            } else {
                assert(ids[j + 1] == y);
            }
        }
        if ids.contains(y) && y != ids[k] {
            let j = choose|j: int| 0 <= j < ids.len() && ids[j] == y;
            if j < k {
                assert(rest[j] == y);
            } else {
                assert(rest[j - 1] == y);
            }
        }
    }
    assert forall|i: int, j: int| 0 <= i < j < rest.len() implies rest[i] != rest[j] by {
        if i < k && j >= k {
            assert(ids[i] != ids[j + 1]);
        }
    }
}

/// The position of an id in a list without duplicates is the only one.
pub(crate) proof fn lemma_index_unique(ids: Seq<u128>, k: int)
    requires
        ids.no_duplicates(),
        0 <= k < ids.len(),
    ensures
        (choose|j: int| 0 <= j < ids.len() && ids[j] == ids[k]) == k,
{
    let j = choose|j: int| 0 <= j < ids.len() && ids[j] == ids[k];
    assert(0 <= j < ids.len() && ids[j] == ids[k]);
}

/// A failed addition is undone exactly: undoing an addition gives back the
/// state from before it, table, index and counter alike.
pub proof fn lemma_rollback_exact(v: Vault, u: Seq<char>, w: Seq<char>, un: Seq<char>, pw: Seq<char>)
    requires
        vault_inv(v),
        v.counter < u128::MAX,
    ensures
        undo_spec(add_spec(v, u, w, un, pw), undo_info(v, u, w)) == v,
{
    let n = add_spec(v, u, w, un, pw);
    let r = undo_spec(n, undo_info(v, u, w));
    match lookup(v, u, w) {
        Some(x) => {
            assert(has_site(v, u, w, x));
            assert(v.table.contains_key(x));
            assert(r.table =~= v.table);
        },
        None => {
            let x = (v.counter + 1) as u128;
            assert(!v.table.contains_key(x));
            let ids = ids_of(v.users, u);
            assert(!ids.contains(x)) by {
                if ids.contains(x) {
                    assert(owns(v, u, x));
                }
            }
            let ids2 = ids.push(x);
            assert(ids2.no_duplicates()) by {
                if v.users.contains_key(u) {
                    assert(v.users[u].no_duplicates());
                }
                assert forall|i: int, j: int| 0 <= i < j < ids2.len() implies ids2[i] != ids2[j] by {
                    if j == ids.len() {
                        assert(ids.contains(ids[i]));
                    }
                }
            }
            assert(n.users[u] == ids2);
            lemma_index_unique(ids2, ids.len() as int);
            assert(ids2.remove(ids.len() as int) =~= ids);
            assert(r.table =~= v.table);
            if ids.len() == 0 {
                assert(!v.users.contains_key(u));
                assert(r.users =~= v.users);
            } else {
                assert(r.users =~= v.users);
            }
        },
    }
}

/// Removing a record of a user keeps every invariant of the state.
pub proof fn lemma_remove_keeps_inv(v: Vault, u: Seq<char>, x: u128)
    requires
        vault_inv(v),
        owns(v, u, x),
    ensures
        vault_inv(remove_spec(v, u, x)),
{
    let n = remove_spec(v, u, x);
    let ids = v.users[u];
    assert(v.users.contains_key(u));
    let k = choose|k: int| 0 <= k < ids.len() && ids[k] == x;
    lemma_seq_remove(ids, k);
    let rest = ids.remove(k);
    assert(v.table.contains_key(x));
    assert forall|a: Seq<char>, y: u128| #[trigger] owns(n, a, y) implies n.table.contains_key(y) && n.table[y].user_id == a by {
        if a == u {
            assert(rest.contains(y));
        }
        assert(owns(v, a, y));
    }
    assert forall|y: u128| #[trigger] n.table.contains_key(y) implies owns(n, n.table[y].user_id, y) by {
        assert(v.table.contains_key(y));
        assert(owns(v, v.table[y].user_id, y));
        if v.table[y].user_id == u {
            assert(rest.contains(y));
        }
    }
    assert forall|y: u128, z: u128| #[trigger] n.table.contains_key(y) && #[trigger] n.table.contains_key(z)
        && n.table[y].user_id == n.table[z].user_id && n.table[y].website == n.table[z].website implies y == z by {
        assert(v.table.contains_key(y) && v.table.contains_key(z));
    }
}

/// After an addition for user `u` and website `w`, the record of `u` for `w`
/// is the one that the addition wrote.
proof fn lemma_lookup_after_add(v: Vault, u: Seq<char>, w: Seq<char>, un: Seq<char>, pw: Seq<char>)
    requires
        vault_inv(v),
        v.counter < u128::MAX,
    ensures
        lookup(add_spec(v, u, w, un, pw), u, w) == Some(undo_info(v, u, w).id),
{
    let n = add_spec(v, u, w, un, pw);
    let x = undo_info(v, u, w).id;
    lemma_add_keeps_inv(v, u, w, un, pw);
    match lookup(v, u, w) {
        Some(y) => {
            assert(has_site(v, u, w, y));
        },
        None => {
            let ids = ids_of(v.users, u);
            assert(n.users[u][ids.len() as int] == x);
        },
    }
    assert(has_site(n, u, w, x));
    let z = choose|z: u128| has_site(n, u, w, z);
    assert(n.table.contains_key(z) && n.table.contains_key(x));
}

/// Adding twice for one user and website keeps a single record: the second
/// addition updates it in place, under the same id, and leaves the user index
/// (hence the number of users), the set of ids and the counter as they were.
pub proof fn lemma_upsert_in_place(
    v: Vault,
    u: Seq<char>,
    w: Seq<char>,
    un1: Seq<char>,
    pw1: Seq<char>,
    un2: Seq<char>,
    pw2: Seq<char>,
)
    requires
        vault_inv(v),
        v.counter < u128::MAX,
    ensures
        lookup(add_spec(v, u, w, un1, pw1), u, w) is Some,
        ({
            let v1 = add_spec(v, u, w, un1, pw1);
            let v2 = add_spec(v1, u, w, un2, pw2);
            let x = lookup(v1, u, w)->Some_0;
            &&& lookup(v2, u, w) == Some(x)
            &&& v2.users == v1.users
            &&& v2.counter == v1.counter
            &&& v2.table.dom() == v1.table.dom()
            &&& v2.table[x] == AccountView { id: x, user_id: u, website: w, username: un2, password: pw2 }
        }),
{
    let v1 = add_spec(v, u, w, un1, pw1);
    lemma_lookup_after_add(v, u, w, un1, pw1);
    lemma_add_keeps_inv(v, u, w, un1, pw1);
    let x = lookup(v1, u, w)->Some_0;
    let v2 = add_spec(v1, u, w, un2, pw2);
    assert(has_site(v1, u, w, x));
    assert(v1.table.contains_key(x));
    assert(v2.table.dom() =~= v1.table.dom());
    assert(has_site(v2, u, w, x));
    let z = choose|z: u128| has_site(v2, u, w, z);
    assert(owns(v1, u, z));
    assert(v1.table.contains_key(z));
}

} // verus!
