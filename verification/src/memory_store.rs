//! An in-memory store for tests and demos.
//!
//! The store keeps seven tables, each behind a lock of its own. A table
//! is a list of rows under a key of two texts; rows are found by the
//! first that has the key.

use crate::error::StoreError;
use crate::permission::Permission;
use crate::store::GlobalRoleStore;
use crate::store::RoleStore;
use crate::store::TenantStore;
use crate::types::GlobalRoleId;
use crate::types::PrincipalId;
use crate::types::RoleId;
use crate::types::TenantId;
use std::sync::Arc;
use std::sync::RwLock;
use std::sync::RwLockReadGuard;
use std::sync::RwLockWriteGuard;
use vstd::prelude::*;

verus! {

/// One row of a table of flags.
#[derive(Debug)]
pub struct FlagRow {
    first: String,
    second: String,
    flag: bool,
}

/// One row of a table of sets.
#[derive(Debug)]
pub struct SetRow {
    first: String,
    second: String,
    members: Vec<String>,
}

/// A [`FlagRow`] as plain values.
pub struct FlagModel {
    pub first: Seq<char>,
    pub second: Seq<char>,
    pub flag: bool,
}

/// A [`SetRow`] as plain values.
pub struct SetModel {
    pub first: Seq<char>,
    pub second: Seq<char>,
    pub members: Seq<Seq<char>>,
}

impl DeepView for FlagRow {
    type V = FlagModel;

    closed spec fn deep_view(&self) -> FlagModel {
        FlagModel { first: self.first@, second: self.second@, flag: self.flag }
    }
}

impl DeepView for SetRow {
    type V = SetModel;

    closed spec fn deep_view(&self) -> SetModel {
        SetModel { first: self.first@, second: self.second@, members: self.members.deep_view() }
    }
}

/// A table of flags under keys of two texts.
#[derive(Debug)]
pub struct FlagTable {
    rows: Vec<FlagRow>,
}

/// A table of sets of texts under keys of two texts. No set holds a text
/// twice that was added through [`SetTable::add`].
#[derive(Debug)]
pub struct SetTable {
    rows: Vec<SetRow>,
}

impl View for FlagTable {
    type V = Seq<FlagModel>;

    closed spec fn view(&self) -> Seq<FlagModel> {
        self.rows.deep_view()
    }
}

impl View for SetTable {
    type V = Seq<SetModel>;

    closed spec fn view(&self) -> Seq<SetModel> {
        self.rows.deep_view()
    }
}

/// The place of the first row of `s` with the key.
pub open spec fn flag_position(s: Seq<FlagModel>, first: Seq<char>, second: Seq<char>) -> Option<
    int,
>
    decreases s.len(),
{
    if s.len() == 0 {
        None
    } else {
        match flag_position(s.drop_last(), first, second) {
            Some(i) => Some(i),
            None => if s.last().first == first && s.last().second == second {
                Some(s.len() - 1)
            } else {
                None
            },
        }
    }
}

/// The place of the first row of `s` with the key.
pub open spec fn set_position(s: Seq<SetModel>, first: Seq<char>, second: Seq<char>) -> Option<
    int,
>
    decreases s.len(),
{
    if s.len() == 0 {
        None
    } else {
        match set_position(s.drop_last(), first, second) {
            Some(i) => Some(i),
            None => if s.last().first == first && s.last().second == second {
                Some(s.len() - 1)
            } else {
                None
            },
        }
    }
}

/// The flag under the key; `false` where the table has no row for it.
pub open spec fn flag_at(s: Seq<FlagModel>, first: Seq<char>, second: Seq<char>) -> bool {
    match flag_position(s, first, second) {
        Some(i) => s[i].flag,
        None => false,
    }
}

/// The table with the flag under the key set to `flag`.
pub open spec fn with_flag(s: Seq<FlagModel>, first: Seq<char>, second: Seq<char>, flag: bool) -> Seq<
    FlagModel,
> {
    match flag_position(s, first, second) {
        Some(i) => s.update(i, FlagModel { first, second, flag }),
        None => s.push(FlagModel { first, second, flag }),
    }
}

/// The set under the key; empty where the table has no row for it.
pub open spec fn members_at(s: Seq<SetModel>, first: Seq<char>, second: Seq<char>) -> Seq<
    Seq<char>,
> {
    match set_position(s, first, second) {
        Some(i) => s[i].members,
        None => Seq::empty(),
    }
}

/// The table with `member` added to the set under the key, unless the
/// set holds it.
pub open spec fn with_member(
    s: Seq<SetModel>,
    first: Seq<char>,
    second: Seq<char>,
    member: Seq<char>,
) -> Seq<SetModel> {
    match set_position(s, first, second) {
        Some(i) => if s[i].members.contains(member) {
            s
        } else {
            s.update(i, SetModel { first, second, members: s[i].members.push(member) })
        },
        None => s.push(SetModel { first, second, members: seq![member] }),
    }
}

proof fn lemma_flag_position(s: Seq<FlagModel>, first: Seq<char>, second: Seq<char>)
    ensures
        match flag_position(s, first, second) {
            Some(i) => 0 <= i < s.len() && s[i].first == first && s[i].second == second
                && flag_position(s.take(i), first, second) is None,
            None => true,
        },
    decreases s.len(),
{
    if s.len() > 0 {
        let t = s.drop_last();
        lemma_flag_position(t, first, second);
        match flag_position(t, first, second) {
            Some(i) => {
                assert(t[i] == s[i]);
                assert(t.take(i) =~= s.take(i));
            },
            None => {
                if s.last().first == first && s.last().second == second {
                    assert(s.take(s.len() - 1) =~= t);
                }
            },
        }
    }
}

proof fn lemma_flag_found(s: Seq<FlagModel>, first: Seq<char>, second: Seq<char>, i: int)
    requires
        0 <= i < s.len(),
        s[i].first == first && s[i].second == second,
        flag_position(s.take(i), first, second) is None,
    ensures
        flag_position(s, first, second) == Some(i),
    decreases s.len(),
{
    if i == s.len() - 1 {
        assert(s.take(i) =~= s.drop_last());
    } else {
        let t = s.drop_last();
        assert(t.take(i) =~= s.take(i));
        lemma_flag_found(t, first, second, i);
    }
}

proof fn lemma_set_position(s: Seq<SetModel>, first: Seq<char>, second: Seq<char>)
    ensures
        match set_position(s, first, second) {
            Some(i) => 0 <= i < s.len() && s[i].first == first && s[i].second == second
                && set_position(s.take(i), first, second) is None,
            None => true,
        },
    decreases s.len(),
{
    if s.len() > 0 {
        let t = s.drop_last();
        lemma_set_position(t, first, second);
        match set_position(t, first, second) {
            Some(i) => {
                assert(t[i] == s[i]);
                assert(t.take(i) =~= s.take(i));
            },
            None => {
                if s.last().first == first && s.last().second == second {
                    assert(s.take(s.len() - 1) =~= t);
                }
            },
        }
    }
}

proof fn lemma_set_found(s: Seq<SetModel>, first: Seq<char>, second: Seq<char>, i: int)
    requires
        0 <= i < s.len(),
        s[i].first == first && s[i].second == second,
        set_position(s.take(i), first, second) is None,
    ensures
        set_position(s, first, second) == Some(i),
    decreases s.len(),
{
    if i == s.len() - 1 {
        assert(s.take(i) =~= s.drop_last());
    } else {
        let t = s.drop_last();
        assert(t.take(i) =~= s.take(i));
        lemma_set_found(t, first, second, i);
    }
}

/// A flag that was set is the flag that is read.
pub proof fn lemma_flag_read_after_write(
    s: Seq<FlagModel>,
    first: Seq<char>,
    second: Seq<char>,
    flag: bool,
)
    ensures
        flag_at(with_flag(s, first, second, flag), first, second) == flag,
{
    lemma_flag_position(s, first, second);
    let t = with_flag(s, first, second, flag);
    match flag_position(s, first, second) {
        Some(i) => {
            assert(t.take(i) =~= s.take(i));
            lemma_flag_found(t, first, second, i);
        },
        None => {
            assert(t.take(s.len() as int) =~= s);
            lemma_flag_found(t, first, second, s.len() as int);
        },
    }
}

/// A member that was added is in the set that is read.
pub proof fn lemma_member_read_after_write(
    s: Seq<SetModel>,
    first: Seq<char>,
    second: Seq<char>,
    member: Seq<char>,
)
    ensures
        members_at(with_member(s, first, second, member), first, second).contains(member),
{
    lemma_set_position(s, first, second);
    let t = with_member(s, first, second, member);
    match set_position(s, first, second) {
        Some(i) => {
            if !s[i].members.contains(member) {
                assert(t.take(i) =~= s.take(i));
                lemma_set_found(t, first, second, i);
                assert(t[i].members.last() == member);
            }
        },
        None => {
            assert(t.take(s.len() as int) =~= s);
            lemma_set_found(t, first, second, s.len() as int);
            assert(t[s.len() as int].members[0] == member);
        },
    }
}

/// Whether `v` holds the text `text`.
fn holds_text(v: &Vec<String>, text: &String) -> (r: bool)
    ensures
        r == v.deep_view().contains(text@),
{
    let mut i: usize = 0;
    while i < v.len()
        invariant
            i <= v.len(),
            forall|j: int| 0 <= j < i ==> v.deep_view()[j] != text@,
        decreases v.len() - i,
    {
        if v[i] == *text {
            assert(v.deep_view()[i as int] == text@);
            return true;
        }
        i += 1;
    }
    false
}

impl FlagTable {
    /// An empty table.
    pub fn new() -> (r: Self)
        ensures
            r@ == Seq::<FlagModel>::empty(),
    {
        let r = FlagTable { rows: Vec::new() };
        assert(r@ =~= Seq::<FlagModel>::empty());
        r
    }

    fn find(&self, first: &String, second: &String) -> (r: Option<usize>)
        ensures
            match r {
                Some(i) => flag_position(self@, first@, second@) == Some(i as int) && i
                    < self.rows.len(),
                None => flag_position(self@, first@, second@) is None,
            },
    {
        let ghost s = self@;
        let mut i: usize = 0;
        assert(s.take(0) =~= Seq::<FlagModel>::empty());
        while i < self.rows.len()
            invariant
                i <= self.rows.len(),
                s == self@,
                flag_position(s.take(i as int), first@, second@) is None,
            decreases self.rows.len() - i,
        {
            proof {
                assert(s.take(i + 1).drop_last() =~= s.take(i as int));
                assert(s.take(i + 1).last() == self.rows@[i as int].deep_view());
            }
            if self.rows[i].first == *first && self.rows[i].second == *second {
                proof {
                    assert(s[i as int] == self.rows@[i as int].deep_view());
                    lemma_flag_found(s, first@, second@, i as int);
                }
                return Some(i);
            }
            i += 1;
        }
        assert(s.take(i as int) =~= s);
        None
    }

    /// The flag under the key; `false` where the table has no row for it.
    pub fn get(&self, first: &String, second: &String) -> (r: bool)
        ensures
            r == flag_at(self@, first@, second@),
    {
        match self.find(first, second) {
            Some(i) => {
                assert(self@[i as int] == self.rows@[i as int].deep_view());
                self.rows[i].flag
            },
            None => false,
        }
    }

    /// Sets the flag under the key.
    pub fn set(&mut self, first: String, second: String, flag: bool)
        ensures
            final(self)@ == with_flag(old(self)@, first@, second@, flag),
    {
        let ghost s = self@;
        match self.find(&first, &second) {
            Some(i) => {
                self.rows.remove(i);
                self.rows.insert(i, FlagRow { first, second, flag });
                assert(self@ =~= s.update(
                    i as int,
                    FlagModel { first: first@, second: second@, flag },
                ));
            },
            None => {
                self.rows.push(FlagRow { first, second, flag });
                assert(self@ =~= s.push(FlagModel { first: first@, second: second@, flag }));
            },
        }
    }
}

impl SetTable {
    /// An empty table.
    pub fn new() -> (r: Self)
        ensures
            r@ == Seq::<SetModel>::empty(),
    {
        let r = SetTable { rows: Vec::new() };
        assert(r@ =~= Seq::<SetModel>::empty());
        r
    }

    fn find(&self, first: &String, second: &String) -> (r: Option<usize>)
        ensures
            match r {
                Some(i) => set_position(self@, first@, second@) == Some(i as int) && i
                    < self.rows.len(),
                None => set_position(self@, first@, second@) is None,
            },
    {
        let ghost s = self@;
        let mut i: usize = 0;
        assert(s.take(0) =~= Seq::<SetModel>::empty());
        while i < self.rows.len()
            invariant
                i <= self.rows.len(),
                s == self@,
                set_position(s.take(i as int), first@, second@) is None,
            decreases self.rows.len() - i,
        {
            proof {
                assert(s.take(i + 1).drop_last() =~= s.take(i as int));
                assert(s.take(i + 1).last() == self.rows@[i as int].deep_view());
            }
            if self.rows[i].first == *first && self.rows[i].second == *second {
                proof {
                    assert(s[i as int] == self.rows@[i as int].deep_view());
                    lemma_set_found(s, first@, second@, i as int);
                }
                return Some(i);
            }
            i += 1;
        }
        assert(s.take(i as int) =~= s);
        None
    }

    /// The set under the key; empty where the table has no row for it.
    pub fn get(&self, first: &String, second: &String) -> (r: Vec<String>)
        ensures
            r.deep_view() == members_at(self@, first@, second@),
    {
        let mut r: Vec<String> = Vec::new();
        match self.find(first, second) {
            Some(i) => {
                assert(self@[i as int] == self.rows@[i as int].deep_view());
                let members = &self.rows[i].members;
                let mut k: usize = 0;
                while k < members.len()
                    invariant
                        k <= members.len(),
                        r.len() == k,
                        forall|j: int| 0 <= j < k ==> r@[j]@ == members@[j]@,
                    decreases members.len() - k,
                {
                    r.push(members[k].clone());
                    k += 1;
                }
                assert(r.deep_view() =~= members.deep_view());
            },
            None => {
                assert(r.deep_view() =~= Seq::<Seq<char>>::empty());
            },
        }
        r
    }

    /// Adds `member` to the set under the key, unless the set holds it.
    pub fn add(&mut self, first: String, second: String, member: String)
        ensures
            final(self)@ == with_member(old(self)@, first@, second@, member@),
    {
        let ghost s = self@;
        match self.find(&first, &second) {
            Some(i) => {
                assert(s[i as int] == self.rows@[i as int].deep_view());
                if !holds_text(&self.rows[i].members, &member) {
                    let row = self.rows.remove(i);
                    let ghost before = row.members.deep_view();
                    let mut members = row.members;
                    members.push(member);
                    assert(members.deep_view() =~= before.push(member@));
                    self.rows.insert(i, SetRow { first, second, members });
                    assert(self@ =~= s.update(
                        i as int,
                        SetModel {
                            first: first@,
                            second: second@,
                            members: s[i as int].members.push(member@),
                        },
                    ));
                }
            },
            None => {
                let mut members: Vec<String> = Vec::new();
                members.push(member);
                assert(members.deep_view() =~= seq![member@]);
                self.rows.push(SetRow { first, second, members });
                assert(self@ =~= s.push(
                    SetModel { first: first@, second: second@, members: seq![member@] },
                ));
            },
        }
    }
}

/// The roles with the texts `texts`.
pub fn roles_of(texts: Vec<String>) -> (r: Vec<RoleId>)
    ensures
        r.deep_view() == texts.deep_view(),
{
    let mut r: Vec<RoleId> = Vec::new();
    let mut i: usize = 0;
    while i < texts.len()
        invariant
            i <= texts.len(),
            r.len() == i,
            forall|j: int| 0 <= j < i ==> r@[j]@ == texts@[j]@,
        decreases texts.len() - i,
    {
        r.push(RoleId::from_string(texts[i].clone()));
        i += 1;
    }
    assert(r.deep_view() =~= texts.deep_view());
    r
}

/// The global roles with the texts `texts`.
pub fn global_roles_of(texts: Vec<String>) -> (r: Vec<GlobalRoleId>)
    ensures
        r.deep_view() == texts.deep_view(),
{
    let mut r: Vec<GlobalRoleId> = Vec::new();
    let mut i: usize = 0;
    while i < texts.len()
        invariant
            i <= texts.len(),
            r.len() == i,
            forall|j: int| 0 <= j < i ==> r@[j]@ == texts@[j]@,
        decreases texts.len() - i,
    {
        r.push(GlobalRoleId::from_string(texts[i].clone()));
        i += 1;
    }
    assert(r.deep_view() =~= texts.deep_view());
    r
}

/// The permissions with the texts `texts`.
pub fn permissions_of(texts: Vec<String>) -> (r: Vec<Permission>)
    ensures
        r.deep_view() == texts.deep_view(),
{
    let mut r: Vec<Permission> = Vec::new();
    let mut i: usize = 0;
    while i < texts.len()
        invariant
            i <= texts.len(),
            r.len() == i,
            forall|j: int| 0 <= j < i ==> r@[j]@ == texts@[j]@,
        decreases texts.len() - i,
    {
        r.push(Permission::from_string(texts[i].clone()));
        i += 1;
    }
    assert(r.deep_view() =~= texts.deep_view());
    r
}

#[verifier::external_type_specification]
#[verifier::external_body]
#[verifier::reject_recursive_types(T)]
pub struct ExRwLock<T: ?Sized>(RwLock<T>);

#[verifier::external_type_specification]
#[verifier::external_body]
#[verifier::reject_recursive_types(T)]
pub struct ExRwLockReadGuard<'a, T: ?Sized>(RwLockReadGuard<'a, T>);

#[verifier::external_type_specification]
#[verifier::external_body]
#[verifier::reject_recursive_types(T)]
pub struct ExRwLockWriteGuard<'a, T: ?Sized + 'a>(RwLockWriteGuard<'a, T>);

/// `RwLock::new`: a lock around `value`. Nothing is claimed of it.
#[verifier::external_body]
fn new_lock<T>(value: T) -> RwLock<T> {
    RwLock::new(value)
}

/// `RwLock::read`: waits for read access. Where a writer has panicked,
/// `PoisonError::into_inner` takes the table as that writer left it. A
/// thread must not hold the lock already; no function of this module
/// takes a lock while it holds one.
#[verifier::external_body]
fn read_guard<T>(lock: &RwLock<T>) -> RwLockReadGuard<'_, T> {
    match lock.read() {
        Ok(guard) => guard,
        Err(poisoned) => poisoned.into_inner(),
    }
}

/// `RwLock::write`: waits for write access. Where a writer has panicked,
/// `PoisonError::into_inner` takes the table as that writer left it. A
/// thread must not hold the lock already.
#[verifier::external_body]
fn write_guard<T>(lock: &RwLock<T>) -> RwLockWriteGuard<'_, T> {
    match lock.write() {
        Ok(guard) => guard,
        Err(poisoned) => poisoned.into_inner(),
    }
}

/// `Deref::deref` of the read guard: the table behind the lock. Nothing
/// is claimed of what it holds: other threads write to it.
#[verifier::external_body]
fn read_table<'a, 'b, T>(guard: &'a RwLockReadGuard<'b, T>) -> &'a T {
    &**guard
}

/// `DerefMut::deref_mut` of the write guard: the table behind the lock.
#[verifier::external_body]
fn write_table<'a, 'b, T>(guard: &'a mut RwLockWriteGuard<'b, T>) -> &'a mut T {
    &mut **guard
}

/// The tables of a store.
#[derive(Debug)]
pub struct Inner {
    tenants: RwLock<FlagTable>,
    principals: RwLock<FlagTable>,
    principal_roles: RwLock<SetTable>,
    role_permissions: RwLock<SetTable>,
    role_inherits: RwLock<SetTable>,
    global_roles: RwLock<SetTable>,
    global_role_permissions: RwLock<SetTable>,
}

/// `Arc::clone` of the tables: another handle to the same store.
#[verifier::external_body]
fn share_inner(inner: &Arc<Inner>) -> (r: Arc<Inner>)
    ensures
        r == *inner,
{
    Arc::clone(inner)
}

/// In-memory store implementation for tests and demos. A clone shares
/// the tables of the store that it was made from.
#[derive(Debug)]
pub struct MemoryStore {
    inner: Arc<Inner>,
}

impl Clone for MemoryStore {
    fn clone(&self) -> (r: Self) {
        MemoryStore { inner: share_inner(&self.inner) }
    }
}

impl Default for MemoryStore {
    fn default() -> (r: Self) {
        MemoryStore::new()
    }
}

impl MemoryStore {
    /// Creates an empty store: no tenant and no principal is active, and
    /// nobody holds a role.
    pub fn new() -> (r: Self) {
        MemoryStore {
            inner: Arc::new(
                Inner {
                    tenants: new_lock(FlagTable::new()),
                    principals: new_lock(FlagTable::new()),
                    principal_roles: new_lock(SetTable::new()),
                    role_permissions: new_lock(SetTable::new()),
                    role_inherits: new_lock(SetTable::new()),
                    global_roles: new_lock(SetTable::new()),
                    global_role_permissions: new_lock(SetTable::new()),
                },
            ),
        }
    }

    /// Sets tenant active status.
    pub fn set_tenant_active(&self, tenant: TenantId, active: bool) {
        let mut guard = write_guard(&self.inner.tenants);
        write_table(&mut guard).set(tenant.to_string(), String::new(), active);
    }

    /// Sets principal active status within a tenant.
    pub fn set_principal_active(&self, tenant: TenantId, principal: PrincipalId, active: bool) {
        let mut guard = write_guard(&self.inner.principals);
        write_table(&mut guard).set(tenant.to_string(), principal.to_string(), active);
    }

    /// Adds a role to a principal.
    pub fn add_principal_role(&self, tenant: TenantId, principal: PrincipalId, role: RoleId) {
        let mut guard = write_guard(&self.inner.principal_roles);
        write_table(&mut guard).add(tenant.to_string(), principal.to_string(), role.to_string());
    }

    /// Adds a permission to a role.
    pub fn add_role_permission(&self, tenant: TenantId, role: RoleId, permission: Permission) {
        let mut guard = write_guard(&self.inner.role_permissions);
        write_table(&mut guard).add(tenant.to_string(), role.to_string(), permission.to_string());
    }

    /// Adds an inheritance edge for a role.
    pub fn add_role_inherit(&self, tenant: TenantId, role: RoleId, parent: RoleId) {
        let mut guard = write_guard(&self.inner.role_inherits);
        write_table(&mut guard).add(tenant.to_string(), role.to_string(), parent.to_string());
    }

    /// Adds a global role to a principal.
    pub fn add_global_role(&self, principal: PrincipalId, role: GlobalRoleId) {
        let mut guard = write_guard(&self.inner.global_roles);
        write_table(&mut guard).add(principal.to_string(), String::new(), role.to_string());
    }

    /// Adds a permission to a global role.
    pub fn add_global_role_permission(&self, role: GlobalRoleId, permission: Permission) {
        let mut guard = write_guard(&self.inner.global_role_permissions);
        write_table(&mut guard).add(role.to_string(), String::new(), permission.to_string());
    }
}

impl TenantStore for MemoryStore {
    fn tenant_active(&self, tenant: TenantId) -> (r: Result<bool, StoreError>)
        ensures
            r is Ok,
    {
        let guard = read_guard(&self.inner.tenants);
        Ok(read_table(&guard).get(&tenant.to_string(), &String::new()))
    }

    fn principal_active(&self, tenant: TenantId, principal: PrincipalId) -> (r: Result<
        bool,
        StoreError,
    >)
        ensures
            r is Ok,
    {
        let guard = read_guard(&self.inner.principals);
        Ok(read_table(&guard).get(&tenant.to_string(), &principal.to_string()))
    }
}

impl RoleStore for MemoryStore {
    fn principal_roles(&self, tenant: TenantId, principal: PrincipalId) -> (r: Result<
        Vec<RoleId>,
        StoreError,
    >)
        ensures
            r is Ok,
    {
        let guard = read_guard(&self.inner.principal_roles);
        Ok(roles_of(read_table(&guard).get(&tenant.to_string(), &principal.to_string())))
    }

    fn role_permissions(&self, tenant: TenantId, role: RoleId) -> (r: Result<
        Vec<Permission>,
        StoreError,
    >)
        ensures
            r is Ok,
    {
        let guard = read_guard(&self.inner.role_permissions);
        Ok(permissions_of(read_table(&guard).get(&tenant.to_string(), &role.to_string())))
    }

    fn role_inherits(&self, tenant: TenantId, role: RoleId) -> (r: Result<Vec<RoleId>, StoreError>)
        ensures
            r is Ok,
    {
        let guard = read_guard(&self.inner.role_inherits);
        Ok(roles_of(read_table(&guard).get(&tenant.to_string(), &role.to_string())))
    }
}

impl GlobalRoleStore for MemoryStore {
    fn global_roles(&self, principal: PrincipalId) -> (r: Result<Vec<GlobalRoleId>, StoreError>)
        ensures
            r is Ok,
    {
        let guard = read_guard(&self.inner.global_roles);
        Ok(global_roles_of(read_table(&guard).get(&principal.to_string(), &String::new())))
    }

    fn global_role_permissions(&self, role: GlobalRoleId) -> (r: Result<
        Vec<Permission>,
        StoreError,
    >)
        ensures
            r is Ok,
    {
        let guard = read_guard(&self.inner.global_role_permissions);
        Ok(permissions_of(read_table(&guard).get(&role.to_string(), &String::new())))
    }
}

} // verus!
