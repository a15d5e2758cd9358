//! Validated identifiers: tenants, principals, roles, global roles and
//! resource names. Each is a string of at most 128 bytes made of ASCII
//! letters, digits, `:`, `_` and `-`.

use crate::error::Error;
use crate::error::ErrorModel;
use crate::text::chars_of;
use crate::text::is_space;
use crate::text::lemma_trimmed_fixpoint;
use crate::text::string_of;
use crate::text::trim_bounds;
use crate::text::trimmed;
use vstd::prelude::*;
use vstd::std_specs::cmp::PartialEqSpecImpl;
use vstd::std_specs::convert::FromSpecImpl;
use vstd::std_specs::convert::TryFromSpecImpl;
use vstd::string::StringExecFns;

verus! {

/// The longest identifier, in bytes.
pub const MAX_NAME_LEN: usize = 128;

/// Whether `c` may stand in an identifier.
pub open spec fn name_char(c: char) -> bool {
    ||| ('a' <= c && c <= 'z')
    ||| ('A' <= c && c <= 'Z')
    ||| ('0' <= c && c <= '9')
    ||| c == ':'
    ||| c == '_'
    ||| c == '-'
}

/// Every character of `s` may stand in an identifier.
pub open spec fn name_chars(s: Seq<char>) -> bool {
    forall|i: int| 0 <= i < s.len() ==> name_char(#[trigger] s[i])
}

/// The number of bytes that `c` takes in UTF-8.
pub open spec fn char_width(c: char) -> nat {
    let n = c as u32;
    if n < 0x80 {
        1
    } else if n < 0x800 {
        2
    } else if n < 0x10000 {
        3
    } else {
        4
    }
}

/// The number of bytes that `s` takes in UTF-8.
pub open spec fn byte_len(s: Seq<char>) -> nat
    decreases s.len(),
{
    if s.len() == 0 {
        0
    } else {
        byte_len(s.drop_last()) + char_width(s.last())
    }
}

/// Why the trimmed text `t` is no identifier: the tail of the message,
/// or `None` where `t` is one. The checks run in this order: empty, too
/// long, a character that may not stand in an identifier.
pub open spec fn name_problem(t: Seq<char>) -> Option<Seq<char>> {
    if t.len() == 0 {
        Some(" must not be empty"@)
    } else if byte_len(t) > MAX_NAME_LEN {
        Some(" length must be <= 128"@)
    } else if !name_chars(t) {
        Some(" contains invalid characters"@)
    } else {
        None
    }
}

/// What validating `value` as a `kind` gives: the trimmed identifier, or
/// the message that names `kind` and the problem.
pub open spec fn checked_name(value: Seq<char>, kind: Seq<char>) -> Result<Seq<char>, Seq<char>> {
    match name_problem(trimmed(value)) {
        None => Ok(trimmed(value)),
        Some(tail) => Err(kind + tail),
    }
}

/// Whether `s` is an identifier as it stands.
pub open spec fn is_name(s: Seq<char>) -> bool {
    s.len() > 0 && byte_len(s) <= MAX_NAME_LEN && name_chars(s)
}

/// What `PrincipalId::try_from_parts` gives for the two parts: each part
/// is validated by itself, then the two joined by `:` as a principal id.
pub open spec fn checked_parts(kind: Seq<char>, account: Seq<char>) -> Result<
    Seq<char>,
    Seq<char>,
> {
    match checked_name(kind, "principal kind"@) {
        Err(m) => Err(m),
        Ok(k) => match checked_name(account, "principal account id"@) {
            Err(m) => Err(m),
            Ok(a) => checked_name(k.push(':') + a, "principal id"@),
        },
    }
}

/// The byte length of a concatenation is the sum of the byte lengths.
pub proof fn lemma_byte_len_concat(a: Seq<char>, b: Seq<char>)
    ensures
        byte_len(a + b) == byte_len(a) + byte_len(b),
    decreases b.len(),
{
    if b.len() == 0 {
        assert(a + b =~= a);
    } else {
        assert((a + b).drop_last() =~= a + b.drop_last());
        assert((a + b).last() == b.last());
        lemma_byte_len_concat(a, b.drop_last());
    }
}

/// A text made of identifier characters takes one byte for each.
pub proof fn lemma_byte_len_of_name(s: Seq<char>)
    requires
        name_chars(s),
    ensures
        byte_len(s) == s.len(),
    decreases s.len(),
{
    if s.len() > 0 {
        let t = s.drop_last();
        assert forall|i: int| 0 <= i < t.len() implies name_char(#[trigger] t[i]) by {
            assert(t[i] == s[i]);
        }
        lemma_byte_len_of_name(t);
        assert(name_char(s[s.len() - 1]));
    }
}

/// An identifier validates to itself: it holds no white space to trim and
/// meets every check.
pub proof fn lemma_name_is_fixpoint(s: Seq<char>, kind: Seq<char>)
    requires
        is_name(s),
    ensures
        checked_name(s, kind) == Ok::<Seq<char>, Seq<char>>(s),
{
    assert(name_char(s[0]) && name_char(s[s.len() - 1]));
    assert(!is_space(s[0]) && !is_space(s.last()));
    lemma_trimmed_fixpoint(s);
}

/// What validation accepts is an identifier, so validating it again
/// changes nothing.
pub proof fn lemma_checked_name_is_name(value: Seq<char>, kind: Seq<char>)
    ensures
        checked_name(value, kind) matches Ok(t) ==> is_name(t),
{
}

/// Two identifiers joined by `:` form a principal id where the whole is
/// short enough; where it is longer, the length is what is refused.
pub proof fn lemma_checked_parts(kind: Seq<char>, account: Seq<char>)
    ensures
        match (checked_name(kind, "principal kind"@), checked_name(account, "principal account id"@)) {
            (Ok(k), Ok(a)) => if k.len() + 1 + a.len() <= MAX_NAME_LEN {
                checked_parts(kind, account) == Ok::<Seq<char>, Seq<char>>(k.push(':') + a)
            } else {
                checked_parts(kind, account) == Err::<Seq<char>, Seq<char>>(
                    "principal id"@ + " length must be <= 128"@,
                )
            },
            (Err(m), _) => checked_parts(kind, account) == Err::<Seq<char>, Seq<char>>(m),
            (Ok(_), Err(m)) => checked_parts(kind, account) == Err::<Seq<char>, Seq<char>>(m),
        },
{
    if let (Ok(k), Ok(a)) = (
        checked_name(kind, "principal kind"@),
        checked_name(account, "principal account id"@),
    ) {
        let joined = k.push(':') + a;
        assert forall|i: int| 0 <= i < joined.len() implies name_char(#[trigger] joined[i]) by {
            if i < k.len() {
                assert(joined[i] == k[i]);
            } else if i == k.len() {
                assert(joined[i] == ':');
            } else {
                assert(joined[i] == a[i - k.len() - 1]);
            }
        }
        lemma_byte_len_of_name(joined);
        assert(joined.len() == k.len() + 1 + a.len());
        assert(name_char(joined[0]) && name_char(joined[joined.len() - 1]));
        assert(!is_space(joined[0]) && !is_space(joined.last()));
        lemma_trimmed_fixpoint(joined);
    }
}

/// Whether `ch` may stand in an identifier.
pub fn is_allowed_name_char(ch: char) -> (r: bool)
    ensures
        r == name_char(ch),
{
    ('a' <= ch && ch <= 'z') || ('A' <= ch && ch <= 'Z') || ('0' <= ch && ch <= '9') || ch == ':'
        || ch == '_' || ch == '-'
}

/// The number of bytes that `v[from..to]` takes in UTF-8, or `None` where
/// that is more than `limit`.
fn byte_len_within(v: &Vec<char>, from: usize, to: usize, limit: usize) -> (r: Option<usize>)
    requires
        from <= to <= v.len(),
    ensures
        match r {
            Some(n) => n == byte_len(v@.subrange(from as int, to as int)) && n <= limit,
            None => byte_len(v@.subrange(from as int, to as int)) > limit,
        },
{
    let mut total: usize = 0;
    let mut i: usize = from;
    while i < to
        invariant
            from <= i <= to <= v.len(),
            total == byte_len(v@.subrange(from as int, i as int)),
            total <= limit,
        decreases to - i,
    {
        let n: u32 = v[i] as u32;
        let w: usize = if n < 0x80 {
            1
        } else if n < 0x800 {
            2
        } else if n < 0x10000 {
            3
        } else {
            4
        };
        proof {
            let whole = v@.subrange(from as int, to as int);
            let upto = v@.subrange(from as int, i + 1);
            assert(upto.drop_last() =~= v@.subrange(from as int, i as int));
            assert(upto.last() == v@[i as int]);
            assert(whole =~= upto + v@.subrange(i + 1, to as int));
            lemma_byte_len_concat(upto, v@.subrange(i + 1, to as int));
        }
        if w > limit - total {
            return None;
        }
        total = total + w;
        i += 1;
    }
    assert(v@.subrange(from as int, to as int) =~= v@.subrange(from as int, i as int));
    Some(total)
}

/// Whether every character of `v[from..to]` may stand in an identifier.
fn all_name_chars(v: &Vec<char>, from: usize, to: usize) -> (r: bool)
    requires
        from <= to <= v.len(),
    ensures
        r == name_chars(v@.subrange(from as int, to as int)),
{
    let ghost t = v@.subrange(from as int, to as int);
    let mut i: usize = from;
    while i < to
        invariant
            from <= i <= to <= v.len(),
            t == v@.subrange(from as int, to as int),
            forall|j: int| 0 <= j < i - from ==> name_char(#[trigger] t[j]),
        decreases to - i,
    {
        if !is_allowed_name_char(v[i]) {
            assert(!name_char(t[i - from]));
            return false;
        }
        i += 1;
    }
    true
}

/// Trims `value` and checks that what is left is an identifier. `kind`
/// names what is validated and opens the message of a refusal.
pub fn validate_simple_name(value: &str, kind: &str) -> (r: Result<String, Error>)
    ensures
        match checked_name(value@, kind@) {
            Ok(t) => r matches Ok(s) && s@ == t,
            Err(m) => r matches Err(e) && e@ == ErrorModel::InvalidId(m),
        },
{
    let chars = chars_of(value);
    let (a, b) = trim_bounds(&chars);
    if a == b {
        return Err(Error::InvalidId(String::from_str(kind).concat(" must not be empty")));
    }
    if byte_len_within(&chars, a, b, MAX_NAME_LEN).is_none() {
        return Err(Error::InvalidId(String::from_str(kind).concat(" length must be <= 128")));
    }
    if !all_name_chars(&chars, a, b) {
        return Err(
            Error::InvalidId(String::from_str(kind).concat(" contains invalid characters")),
        );
    }
    Ok(string_of(&chars, a, b))
}

/// Tenant identifier.
#[derive(Debug, Eq, Hash)]
pub struct TenantId(String);

impl View for TenantId {
    type V = Seq<char>;

    closed spec fn view(&self) -> Seq<char> {
        self.0@
    }
}

impl DeepView for TenantId {
    type V = Seq<char>;

    open spec fn deep_view(&self) -> Seq<char> {
        self@
    }
}

impl TenantId {
    /// Creates a validated tenant id from `value`, trimmed.
    pub fn new(value: &str) -> (r: Result<Self, Error>)
        ensures
            match checked_name(value@, "tenant id"@) {
                Ok(t) => r matches Ok(id) && id@ == t,
                Err(m) => r matches Err(e) && e@ == ErrorModel::InvalidId(m),
            },
    {
        match validate_simple_name(value, "tenant id") {
            Ok(name) => Ok(TenantId(name)),
            Err(e) => Err(e),
        }
    }

    /// Wraps a trusted string without validating it.
    pub fn from_string(value: String) -> (r: Self)
        ensures
            r@ == value@,
    {
        TenantId(value)
    }

    /// The underlying text.
    pub fn as_str(&self) -> (r: &str)
        ensures
            r@ == self@,
    {
        self.0.as_str()
    }

    /// The underlying text, owned.
    pub fn to_string(&self) -> (r: String)
        ensures
            r@ == self@,
    {
        self.0.clone()
    }
}

impl Clone for TenantId {
    fn clone(&self) -> (r: Self)
        ensures
            r@ == self@,
    {
        TenantId(self.0.clone())
    }
}

impl PartialEq for TenantId {
    fn eq(&self, other: &Self) -> (r: bool) {
        self.0 == other.0
    }
}

/// Two values are equal when their texts are.
impl PartialEqSpecImpl for TenantId {
    open spec fn obeys_eq_spec() -> bool {
        true
    }

    open spec fn eq_spec(&self, other: &Self) -> bool {
        self@ == other@
    }
}

impl TryFrom<&str> for TenantId {
    type Error = Error;

    fn try_from(value: &str) -> (r: Result<Self, Error>)
        ensures
            match checked_name(value@, "tenant id"@) {
                Ok(t) => r matches Ok(id) && id@ == t,
                Err(m) => r matches Err(e) && e@ == ErrorModel::InvalidId(m),
            },
    {
        TenantId::new(value)
    }
}

/// The conversion promises through its own contract, not through the
/// generic one: an error holds owned text, which no ghost value can
/// name.
impl TryFromSpecImpl<&str> for TenantId {
    open spec fn obeys_try_from_spec() -> bool {
        false
    }

    closed spec fn try_from_spec(v: &str) -> Result<Self, Error> {
        arbitrary()
    }
}

impl From<String> for TenantId {
    fn from(value: String) -> (r: Self)
        ensures
            r@ == value@,
    {
        TenantId(value)
    }
}

/// The conversion wraps the string as it is.
impl FromSpecImpl<String> for TenantId {
    open spec fn obeys_from_spec() -> bool {
        true
    }

    closed spec fn from_spec(v: String) -> Self {
        TenantId(v)
    }
}

/// Principal identifier; it holds across tenants.
#[derive(Debug, Eq, Hash)]
pub struct PrincipalId(String);

impl View for PrincipalId {
    type V = Seq<char>;

    closed spec fn view(&self) -> Seq<char> {
        self.0@
    }
}

impl DeepView for PrincipalId {
    type V = Seq<char>;

    open spec fn deep_view(&self) -> Seq<char> {
        self@
    }
}

impl PrincipalId {
    /// Creates a validated principal id from `value`, trimmed.
    pub fn new(value: &str) -> (r: Result<Self, Error>)
        ensures
            match checked_name(value@, "principal id"@) {
                Ok(t) => r matches Ok(id) && id@ == t,
                Err(m) => r matches Err(e) && e@ == ErrorModel::InvalidId(m),
            },
    {
        match validate_simple_name(value, "principal id") {
            Ok(name) => Ok(PrincipalId(name)),
            Err(e) => Err(e),
        }
    }

    /// Wraps a trusted string without validating it.
    pub fn from_string(value: String) -> (r: Self)
        ensures
            r@ == value@,
    {
        PrincipalId(value)
    }

    /// The underlying text.
    pub fn as_str(&self) -> (r: &str)
        ensures
            r@ == self@,
    {
        self.0.as_str()
    }

    /// The underlying text, owned.
    pub fn to_string(&self) -> (r: String)
        ensures
            r@ == self@,
    {
        self.0.clone()
    }
}

impl Clone for PrincipalId {
    fn clone(&self) -> (r: Self)
        ensures
            r@ == self@,
    {
        PrincipalId(self.0.clone())
    }
}

impl PartialEq for PrincipalId {
    fn eq(&self, other: &Self) -> (r: bool) {
        self.0 == other.0
    }
}

/// Two values are equal when their texts are.
impl PartialEqSpecImpl for PrincipalId {
    open spec fn obeys_eq_spec() -> bool {
        true
    }

    open spec fn eq_spec(&self, other: &Self) -> bool {
        self@ == other@
    }
}

impl TryFrom<&str> for PrincipalId {
    type Error = Error;

    fn try_from(value: &str) -> (r: Result<Self, Error>)
        ensures
            match checked_name(value@, "principal id"@) {
                Ok(t) => r matches Ok(id) && id@ == t,
                Err(m) => r matches Err(e) && e@ == ErrorModel::InvalidId(m),
            },
    {
        PrincipalId::new(value)
    }
}

/// The conversion promises through its own contract, not through the
/// generic one: an error holds owned text, which no ghost value can
/// name.
impl TryFromSpecImpl<&str> for PrincipalId {
    open spec fn obeys_try_from_spec() -> bool {
        false
    }

    closed spec fn try_from_spec(v: &str) -> Result<Self, Error> {
        arbitrary()
    }
}

impl From<String> for PrincipalId {
    fn from(value: String) -> (r: Self)
        ensures
            r@ == value@,
    {
        PrincipalId(value)
    }
}

/// The conversion wraps the string as it is.
impl FromSpecImpl<String> for PrincipalId {
    open spec fn obeys_from_spec() -> bool {
        true
    }

    closed spec fn from_spec(v: String) -> Self {
        PrincipalId(v)
    }
}

impl PrincipalId {
    /// Creates a principal id from a `kind` and an `account_id`: each is
    /// validated by itself, then the two are joined by `:` and validated
    /// as a whole.
    pub fn try_from_parts(kind: &str, account_id: &str) -> (r: Result<Self, Error>)
        ensures
            match checked_parts(kind@, account_id@) {
                Ok(t) => r matches Ok(id) && id@ == t,
                Err(m) => r matches Err(e) && e@ == ErrorModel::InvalidId(m),
            },
    {
        let kind = match validate_simple_name(kind, "principal kind") {
            Ok(k) => k,
            Err(e) => {
                return Err(e);
            },
        };
        let account_id = match validate_simple_name(account_id, "principal account id") {
            Ok(a) => a,
            Err(e) => {
                return Err(e);
            },
        };
        let joined = kind.concat(":").concat(account_id.as_str());
        proof {
            reveal_strlit(":");
            assert(":"@ =~= seq![':']);
            assert(joined@ =~= kind@.push(':') + account_id@);
        }
        PrincipalId::new(joined.as_str())
    }
}

/// Role identifier, scoped to a tenant.
#[derive(Debug, Eq, Hash)]
pub struct RoleId(String);

impl View for RoleId {
    type V = Seq<char>;

    closed spec fn view(&self) -> Seq<char> {
        self.0@
    }
}

impl DeepView for RoleId {
    type V = Seq<char>;

    open spec fn deep_view(&self) -> Seq<char> {
        self@
    }
}

impl RoleId {
    /// Creates a validated role id from `value`, trimmed.
    pub fn new(value: &str) -> (r: Result<Self, Error>)
        ensures
            match checked_name(value@, "role id"@) {
                Ok(t) => r matches Ok(id) && id@ == t,
                Err(m) => r matches Err(e) && e@ == ErrorModel::InvalidId(m),
            },
    {
        match validate_simple_name(value, "role id") {
            Ok(name) => Ok(RoleId(name)),
            Err(e) => Err(e),
        }
    }

    /// Wraps a trusted string without validating it.
    pub fn from_string(value: String) -> (r: Self)
        ensures
            r@ == value@,
    {
        RoleId(value)
    }

    /// The underlying text.
    pub fn as_str(&self) -> (r: &str)
        ensures
            r@ == self@,
    {
        self.0.as_str()
    }

    /// The underlying text, owned.
    pub fn to_string(&self) -> (r: String)
        ensures
            r@ == self@,
    {
        self.0.clone()
    }
}

impl Clone for RoleId {
    fn clone(&self) -> (r: Self)
        ensures
            r@ == self@,
    {
        RoleId(self.0.clone())
    }
}

impl PartialEq for RoleId {
    fn eq(&self, other: &Self) -> (r: bool) {
        self.0 == other.0
    }
}

/// Two values are equal when their texts are.
impl PartialEqSpecImpl for RoleId {
    open spec fn obeys_eq_spec() -> bool {
        true
    }

    open spec fn eq_spec(&self, other: &Self) -> bool {
        self@ == other@
    }
}

impl TryFrom<&str> for RoleId {
    type Error = Error;

    fn try_from(value: &str) -> (r: Result<Self, Error>)
        ensures
            match checked_name(value@, "role id"@) {
                Ok(t) => r matches Ok(id) && id@ == t,
                Err(m) => r matches Err(e) && e@ == ErrorModel::InvalidId(m),
            },
    {
        RoleId::new(value)
    }
}

/// The conversion promises through its own contract, not through the
/// generic one: an error holds owned text, which no ghost value can
/// name.
impl TryFromSpecImpl<&str> for RoleId {
    open spec fn obeys_try_from_spec() -> bool {
        false
    }

    closed spec fn try_from_spec(v: &str) -> Result<Self, Error> {
        arbitrary()
    }
}

impl From<String> for RoleId {
    fn from(value: String) -> (r: Self)
        ensures
            r@ == value@,
    {
        RoleId(value)
    }
}

/// The conversion wraps the string as it is.
impl FromSpecImpl<String> for RoleId {
    open spec fn obeys_from_spec() -> bool {
        true
    }

    closed spec fn from_spec(v: String) -> Self {
        RoleId(v)
    }
}

/// Global role identifier; it holds across tenants.
#[derive(Debug, Eq, Hash)]
pub struct GlobalRoleId(String);

impl View for GlobalRoleId {
    type V = Seq<char>;

    closed spec fn view(&self) -> Seq<char> {
        self.0@
    }
}

impl DeepView for GlobalRoleId {
    type V = Seq<char>;

    open spec fn deep_view(&self) -> Seq<char> {
        self@
    }
}

impl GlobalRoleId {
    /// Creates a validated global role id from `value`, trimmed.
    pub fn new(value: &str) -> (r: Result<Self, Error>)
        ensures
            match checked_name(value@, "global role id"@) {
                Ok(t) => r matches Ok(id) && id@ == t,
                Err(m) => r matches Err(e) && e@ == ErrorModel::InvalidId(m),
            },
    {
        match validate_simple_name(value, "global role id") {
            Ok(name) => Ok(GlobalRoleId(name)),
            Err(e) => Err(e),
        }
    }

    /// Wraps a trusted string without validating it.
    pub fn from_string(value: String) -> (r: Self)
        ensures
            r@ == value@,
    {
        GlobalRoleId(value)
    }

    /// The underlying text.
    pub fn as_str(&self) -> (r: &str)
        ensures
            r@ == self@,
    {
        self.0.as_str()
    }

    /// The underlying text, owned.
    pub fn to_string(&self) -> (r: String)
        ensures
            r@ == self@,
    {
        self.0.clone()
    }
}

impl Clone for GlobalRoleId {
    fn clone(&self) -> (r: Self)
        ensures
            r@ == self@,
    {
        GlobalRoleId(self.0.clone())
    }
}

impl PartialEq for GlobalRoleId {
    fn eq(&self, other: &Self) -> (r: bool) {
        self.0 == other.0
    }
}

/// Two values are equal when their texts are.
impl PartialEqSpecImpl for GlobalRoleId {
    open spec fn obeys_eq_spec() -> bool {
        true
    }

    open spec fn eq_spec(&self, other: &Self) -> bool {
        self@ == other@
    }
}

impl TryFrom<&str> for GlobalRoleId {
    type Error = Error;

    fn try_from(value: &str) -> (r: Result<Self, Error>)
        ensures
            match checked_name(value@, "global role id"@) {
                Ok(t) => r matches Ok(id) && id@ == t,
                Err(m) => r matches Err(e) && e@ == ErrorModel::InvalidId(m),
            },
    {
        GlobalRoleId::new(value)
    }
}

/// The conversion promises through its own contract, not through the
/// generic one: an error holds owned text, which no ghost value can
/// name.
impl TryFromSpecImpl<&str> for GlobalRoleId {
    open spec fn obeys_try_from_spec() -> bool {
        false
    }

    closed spec fn try_from_spec(v: &str) -> Result<Self, Error> {
        arbitrary()
    }
}

impl From<String> for GlobalRoleId {
    fn from(value: String) -> (r: Self)
        ensures
            r@ == value@,
    {
        GlobalRoleId(value)
    }
}

/// The conversion wraps the string as it is.
impl FromSpecImpl<String> for GlobalRoleId {
    open spec fn obeys_from_spec() -> bool {
        true
    }

    closed spec fn from_spec(v: String) -> Self {
        GlobalRoleId(v)
    }
}

/// Resource name used for scope checks.
#[derive(Debug, Eq, Hash)]
pub struct ResourceName(String);

impl View for ResourceName {
    type V = Seq<char>;

    closed spec fn view(&self) -> Seq<char> {
        self.0@
    }
}

impl DeepView for ResourceName {
    type V = Seq<char>;

    open spec fn deep_view(&self) -> Seq<char> {
        self@
    }
}

impl ResourceName {
    /// Creates a validated resource name from `value`, trimmed.
    pub fn new(value: &str) -> (r: Result<Self, Error>)
        ensures
            match checked_name(value@, "resource name"@) {
                Ok(t) => r matches Ok(id) && id@ == t,
                Err(m) => r matches Err(e) && e@ == ErrorModel::InvalidId(m),
            },
    {
        match validate_simple_name(value, "resource name") {
            Ok(name) => Ok(ResourceName(name)),
            Err(e) => Err(e),
        }
    }

    /// Wraps a trusted string without validating it.
    pub fn from_string(value: String) -> (r: Self)
        ensures
            r@ == value@,
    {
        ResourceName(value)
    }

    /// The underlying text.
    pub fn as_str(&self) -> (r: &str)
        ensures
            r@ == self@,
    {
        self.0.as_str()
    }

    /// The underlying text, owned.
    pub fn to_string(&self) -> (r: String)
        ensures
            r@ == self@,
    {
        self.0.clone()
    }
}

impl Clone for ResourceName {
    fn clone(&self) -> (r: Self)
        ensures
            r@ == self@,
    {
        ResourceName(self.0.clone())
    }
}

impl PartialEq for ResourceName {
    fn eq(&self, other: &Self) -> (r: bool) {
        self.0 == other.0
    }
}

/// Two values are equal when their texts are.
impl PartialEqSpecImpl for ResourceName {
    open spec fn obeys_eq_spec() -> bool {
        true
    }

    open spec fn eq_spec(&self, other: &Self) -> bool {
        self@ == other@
    }
}

impl TryFrom<&str> for ResourceName {
    type Error = Error;

    fn try_from(value: &str) -> (r: Result<Self, Error>)
        ensures
            match checked_name(value@, "resource name"@) {
                Ok(t) => r matches Ok(id) && id@ == t,
                Err(m) => r matches Err(e) && e@ == ErrorModel::InvalidId(m),
            },
    {
        ResourceName::new(value)
    }
}

/// The conversion promises through its own contract, not through the
/// generic one: an error holds owned text, which no ghost value can
/// name.
impl TryFromSpecImpl<&str> for ResourceName {
    open spec fn obeys_try_from_spec() -> bool {
        false
    }

    closed spec fn try_from_spec(v: &str) -> Result<Self, Error> {
        arbitrary()
    }
}

impl From<String> for ResourceName {
    fn from(value: String) -> (r: Self)
        ensures
            r@ == value@,
    {
        ResourceName(value)
    }
}

/// The conversion wraps the string as it is.
impl FromSpecImpl<String> for ResourceName {
    open spec fn obeys_from_spec() -> bool {
        true
    }

    closed spec fn from_spec(v: String) -> Self {
        ResourceName(v)
    }
}

} // verus!
