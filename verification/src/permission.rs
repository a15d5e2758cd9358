//! Permissions in `resource:action` form, their validation and the rules
//! by which a granted permission covers a required one.

use crate::error::Error;
use crate::error::ErrorModel;
use crate::text::chars_of;
use crate::text::lower;
use crate::text::lower_char;
use crate::text::lowered;
use crate::text::normalized;
use crate::text::same_chars;
use crate::text::string_of;
use crate::text::trim_bounds;
use crate::text::trimmed;
use crate::types::ResourceName;
use vstd::prelude::*;
use vstd::std_specs::cmp::PartialEqSpecImpl;
use vstd::std_specs::convert::FromSpecImpl;
use vstd::std_specs::convert::TryFromSpecImpl;
use vstd::string::StringExecFns;

verus! {

/// The wildcard segment `*`.
pub open spec fn star() -> Seq<char> {
    seq!['*']
}

/// The index of the last `:` of `s`.
pub open spec fn last_colon(s: Seq<char>) -> Option<int>
    decreases s.len(),
{
    if s.len() == 0 {
        None
    } else if s.last() == ':' {
        Some(s.len() - 1)
    } else {
        last_colon(s.drop_last())
    }
}

/// The resource and the action of `s`: what stands before and behind its
/// last `:`. The resource may hold colons of its own.
pub open spec fn split(s: Seq<char>) -> Option<(Seq<char>, Seq<char>)> {
    match last_colon(s) {
        Some(i) => Some((s.subrange(0, i), s.subrange(i + 1, s.len() as int))),
        None => None,
    }
}

/// The resource of `s`; empty where `s` does not split.
pub open spec fn resource_of(s: Seq<char>) -> Seq<char> {
    match split(s) {
        Some(parts) => parts.0,
        None => Seq::empty(),
    }
}

/// The action of `s`; empty where `s` does not split.
pub open spec fn action_of(s: Seq<char>) -> Seq<char> {
    match split(s) {
        Some(parts) => parts.1,
        None => Seq::empty(),
    }
}

/// `s[a..b]` is one of the segments that the colons of `s` delimit.
pub open spec fn is_segment(s: Seq<char>, a: int, b: int) -> bool {
    &&& 0 <= a <= b <= s.len()
    &&& (a == 0 || s[a - 1] == ':')
    &&& (b == s.len() || s[b] == ':')
    &&& forall|k: int| a <= k < b ==> s[k] != ':'
}

/// Whether the action is `*` or a segment of the resource is.
pub open spec fn has_wildcard(resource: Seq<char>, action: Seq<char>) -> bool {
    action == star() || exists|a: int, b: int|
        #[trigger] is_segment(resource, a, b) && resource.subrange(a, b) == star()
}

/// Whether `c` may stand in a segment that is no wildcard.
pub open spec fn segment_char(c: char) -> bool {
    ('a' <= c && c <= 'z') || ('0' <= c && c <= '9') || c == '_' || c == '-'
}

/// Whether `s` is a valid segment: the wildcard, or a non-empty run of
/// lower-case letters, digits, `_` and `-`.
pub open spec fn segment_ok(s: Seq<char>) -> bool {
    s == star() || (s.len() > 0 && forall|i: int| 0 <= i < s.len() ==> segment_char(#[trigger] s[i]))
}

/// Whether every segment of the resource is valid.
pub open spec fn resource_ok(resource: Seq<char>) -> bool {
    forall|a: int, b: int| #[trigger]
        is_segment(resource, a, b) ==> segment_ok(resource.subrange(a, b))
}

/// Why the default validator refuses `s`, or `None` where it accepts it.
pub open spec fn permission_problem(s: Seq<char>) -> Option<Seq<char>> {
    match split(s) {
        None => Some("permission must be in resource:action format"@),
        Some((resource, action)) => if resource.len() == 0 || action.len() == 0 {
            Some("permission must not have empty segments"@)
        } else if !resource_ok(resource) {
            Some("resource segment contains invalid characters"@)
        } else if !segment_ok(action) {
            Some("action segment contains invalid characters"@)
        } else {
            None
        },
    }
}

/// The text that construction hands to the validator: `value` trimmed
/// and, where `normalize` is on, lower-cased. `None` where nothing is
/// left after trimming.
pub open spec fn prepared(value: Seq<char>, normalize: bool) -> Option<Seq<char>> {
    if trimmed(value).len() == 0 {
        None
    } else {
        Some(normalized(trimmed(value), normalize))
    }
}

/// What `Permission::new` gives for `value`: the permission's text, or
/// the message of the refusal.
pub open spec fn checked_permission(value: Seq<char>) -> Result<Seq<char>, Seq<char>> {
    match prepared(value, true) {
        None => Err("permission must not be empty"@),
        Some(text) => match permission_problem(text) {
            None => Ok(text),
            Some(m) => Err(m),
        },
    }
}

/// Whether the granted permission `granted` covers the required one.
///
/// Neither matches unless both split into resource and action. With
/// wildcards off, a grant that holds a wildcard segment covers nothing,
/// and any other covers exactly the requirement with the same resource
/// and action. With wildcards on, `*` as resource covers every resource
/// and `*` as action every action. Comparison is on the lower-case forms
/// where `normalize` is on.
pub open spec fn grants(
    granted: Seq<char>,
    required: Seq<char>,
    wildcard: bool,
    normalize: bool,
) -> bool {
    match (split(granted), split(required)) {
        (Some((g_res, g_act)), Some((r_res, r_act))) => {
            let gr = normalized(g_res, normalize);
            let ga = normalized(g_act, normalize);
            let rr = normalized(r_res, normalize);
            let ra = normalized(r_act, normalize);
            if !wildcard {
                !has_wildcard(g_res, g_act) && gr == rr && ga == ra
            } else {
                ||| (gr == star() && ga == star())
                ||| (gr == star() && ga == ra)
                ||| (ga == star() && gr == rr)
                ||| (gr == rr && ga == ra)
            }
        },
        _ => false,
    }
}

/// Whether the granted permission `granted` gives access to `resource`,
/// whatever the action. The same wildcard policy holds as in [`grants`].
pub open spec fn grants_resource(
    granted: Seq<char>,
    resource: Seq<char>,
    wildcard: bool,
    normalize: bool,
) -> bool {
    match split(granted) {
        Some((g_res, g_act)) => {
            let gr = normalized(g_res, normalize);
            let rr = normalized(resource, normalize);
            if !wildcard {
                !has_wildcard(g_res, g_act) && gr == rr
            } else {
                gr == star() || gr == rr
            }
        },
        None => false,
    }
}

/// The last colon of `s` is at `i` where `s[i]` is one and none follows.
pub proof fn lemma_last_colon_at(s: Seq<char>, i: int)
    requires
        0 <= i < s.len(),
        s[i] == ':',
        forall|k: int| i < k < s.len() ==> s[k] != ':',
    ensures
        last_colon(s) == Some(i),
    decreases s.len() - i,
{
    if i < s.len() - 1 {
        lemma_last_colon_at(s.drop_last(), i);
    }
}

/// A text without a colon has no last colon.
pub proof fn lemma_last_colon_none(s: Seq<char>)
    requires
        forall|k: int| 0 <= k < s.len() ==> s[k] != ':',
    ensures
        last_colon(s) is None,
    decreases s.len(),
{
    if s.len() > 0 {
        lemma_last_colon_none(s.drop_last());
    }
}

/// Where there is a last colon, it is a colon and none follows it.
pub proof fn lemma_last_colon_is_last(s: Seq<char>)
    ensures
        match last_colon(s) {
            Some(i) => 0 <= i < s.len() && s[i] == ':' && forall|k: int|
                i < k < s.len() ==> s[k] != ':',
            None => forall|k: int| 0 <= k < s.len() ==> s[k] != ':',
        },
    decreases s.len(),
{
    if s.len() > 0 && s.last() != ':' {
        let t = s.drop_last();
        lemma_last_colon_is_last(t);
        match last_colon(t) {
            Some(i) => {
                assert forall|k: int| i < k < s.len() implies s[k] != ':' by {
                    if k < t.len() {
                        assert(t[k] == s[k]);
                    }
                }
            },
            None => {
                assert forall|k: int| 0 <= k < s.len() implies s[k] != ':' by {
                    if k < t.len() {
                        assert(t[k] == s[k]);
                    }
                }
            },
        }
    }
}

/// Lower-casing moves no colon: the split of the lower-case form is the
/// lower-case form of the split.
pub proof fn lemma_split_lowered(s: Seq<char>)
    ensures
        match split(s) {
            Some((res, act)) => split(lowered(s)) == Some((lowered(res), lowered(act))),
            None => split(lowered(s)) is None,
        },
{
    lemma_last_colon_is_last(s);
    let t = lowered(s);
    match last_colon(s) {
        Some(i) => {
            assert forall|k: int| i < k < t.len() implies t[k] != ':' by {
                assert(t[k] == lower(s[k]));
            }
            lemma_last_colon_at(t, i);
            assert(t.subrange(0, i) =~= lowered(s.subrange(0, i)));
            assert(t.subrange(i + 1, t.len() as int) =~= lowered(
                s.subrange(i + 1, s.len() as int),
            ));
        },
        None => {
            assert forall|k: int| 0 <= k < t.len() implies t[k] != ':' by {
                assert(t[k] == lower(s[k]));
            }
            lemma_last_colon_none(t);
        },
    }
}

/// A text that ends in a colon and a part without colons splits at that
/// colon.
pub proof fn lemma_split_joined(resource: Seq<char>, action: Seq<char>)
    requires
        forall|k: int| 0 <= k < action.len() ==> action[k] != ':',
    ensures
        split(resource.push(':') + action) == Some((resource, action)),
{
    let s = resource.push(':') + action;
    let i = resource.len() as int;
    assert(s[i] == ':');
    assert forall|k: int| i < k < s.len() implies s[k] != ':' by {
        assert(s[k] == action[k - i - 1]);
    }
    lemma_last_colon_at(s, i);
    assert(s.subrange(0, i) =~= resource);
    assert(s.subrange(i + 1, s.len() as int) =~= action);
}

/// With wildcards off, a grant covers a requirement exactly when both
/// split, the grant holds no wildcard segment, and the two have the same
/// resource and the same action, compared as `normalize` says. A grant
/// with a wildcard segment covers nothing.
pub proof fn lemma_strict_grants(granted: Seq<char>, required: Seq<char>, normalize: bool)
    ensures
        grants(granted, required, false, normalize) <==> (split(granted) is Some && split(
            required,
        ) is Some && !has_wildcard(resource_of(granted), action_of(granted)) && normalized(
            resource_of(granted),
            normalize,
        ) == normalized(resource_of(required), normalize) && normalized(
            action_of(granted),
            normalize,
        ) == normalized(action_of(required), normalize)),
        split(granted) matches Some(g) && has_wildcard(g.0, g.1) ==> !grants(
            granted,
            required,
            false,
            normalize,
        ),
{
}

/// With wildcards off, a grant gives access to a resource exactly when
/// it splits, holds no wildcard segment, and has that resource.
pub proof fn lemma_strict_grants_resource(granted: Seq<char>, resource: Seq<char>, normalize: bool)
    ensures
        grants_resource(granted, resource, false, normalize) <==> (split(granted) is Some
            && !has_wildcard(resource_of(granted), action_of(granted)) && normalized(
            resource_of(granted),
            normalize,
        ) == normalized(resource, normalize)),
{
}

/// With wildcards on, the grant `*:*` covers every requirement that
/// splits into resource and action.
pub proof fn lemma_star_star_grants_all(required: Seq<char>, normalize: bool)
    requires
        split(required) is Some,
    ensures
        grants(star().push(':') + star(), required, true, normalize),
{
    lemma_split_joined(star(), star());
    assert(normalized(star(), normalize) =~= star());
}

/// With wildcards on, a grant of every action on `resource` covers
/// exactly the requirements on that resource, whatever their action.
pub proof fn lemma_resource_grant(
    resource: Seq<char>,
    required: Seq<char>,
    normalize: bool,
)
    requires
        split(required) is Some,
        normalized(resource, normalize) != star(),
    ensures
        grants(resource.push(':') + star(), required, true, normalize) <==> normalized(
            resource,
            normalize,
        ) == normalized(resource_of(required), normalize),
{
    lemma_split_joined(resource, star());
    assert(normalized(star(), normalize) =~= star());
}

/// With wildcards on, a grant of `action` on every resource covers
/// exactly the requirements with that action, whatever their resource.
pub proof fn lemma_action_grant(action: Seq<char>, required: Seq<char>, normalize: bool)
    requires
        split(required) is Some,
        forall|k: int| 0 <= k < action.len() ==> action[k] != ':',
        normalized(action, normalize) != star(),
    ensures
        grants(star().push(':') + action, required, true, normalize) <==> normalized(
            action,
            normalize,
        ) == normalized(action_of(required), normalize),
{
    lemma_split_joined(star(), action);
    assert(normalized(star(), normalize) =~= star());
}

/// Lower-casing neither makes nor unmakes a wildcard segment.
pub proof fn lemma_wildcard_lowered(resource: Seq<char>, action: Seq<char>)
    ensures
        has_wildcard(lowered(resource), lowered(action)) == has_wildcard(resource, action),
{
    let low = lowered(resource);
    assert(lowered(action) == star() <==> action == star()) by {
        if lowered(action) == star() {
            assert(star().len() == 1 && star()[0] == '*');
            assert(action.len() == 1);
            assert(lowered(action)[0] == lower(action[0]));
            assert(action =~= star());
        }
        if action == star() {
            assert(lowered(action) =~= star());
        }
    }
    assert forall|a: int, b: int| is_segment(low, a, b) == is_segment(resource, a, b) by {
        if 0 <= a <= b <= resource.len() {
            if a > 0 {
                assert(low[a - 1] == lower(resource[a - 1]));
            }
            if b < resource.len() {
                assert(low[b] == lower(resource[b]));
            }
            if is_segment(low, a, b) {
                assert forall|k: int| a <= k < b implies resource[k] != ':' by {
                    assert(low[k] == lower(resource[k]));
                }
            }
            if is_segment(resource, a, b) {
                assert forall|k: int| a <= k < b implies low[k] != ':' by {
                    assert(low[k] == lower(resource[k]));
                }
            }
        }
    }
    assert forall|a: int, b: int| 0 <= a <= b <= resource.len() implies (low.subrange(a, b)
        == star() <==> resource.subrange(a, b) == star()) by {
        if low.subrange(a, b) == star() {
            assert(star().len() == 1 && star()[0] == '*');
            assert(b - a == 1);
            assert(low.subrange(a, b)[0] == low[a]);
            assert(low[a] == lower(resource[a]));
            assert(resource.subrange(a, b)[0] == resource[a]);
            assert(resource.subrange(a, b) =~= star());
        }
        if resource.subrange(a, b) == star() {
            assert(resource.subrange(a, b)[0] == '*');
            assert(low.subrange(a, b) =~= star());
        }
    }
    if has_wildcard(low, lowered(action)) && lowered(action) != star() {
        let (a, b) = choose|a: int, b: int|
            #[trigger] is_segment(low, a, b) && low.subrange(a, b) == star();
        assert(is_segment(resource, a, b) && resource.subrange(a, b) == star());
    }
    if has_wildcard(resource, action) && action != star() {
        let (a, b) = choose|a: int, b: int|
            #[trigger] is_segment(resource, a, b) && resource.subrange(a, b) == star();
        assert(is_segment(low, a, b) && low.subrange(a, b) == star());
    }
}

/// With normalization on, a grant and a requirement match as their
/// lower-case forms do: the case of letters makes no difference.
pub proof fn lemma_case_insensitive(granted: Seq<char>, required: Seq<char>, wildcard: bool)
    ensures
        grants(granted, required, wildcard, true) == grants(
            lowered(granted),
            lowered(required),
            wildcard,
            true,
        ),
{
    lemma_split_lowered(granted);
    lemma_split_lowered(required);
    match (split(granted), split(required)) {
        (Some((gr, ga)), Some((rr, ra))) => {
            lemma_wildcard_lowered(gr, ga);
            assert(lowered(lowered(gr)) =~= lowered(gr));
            assert(lowered(lowered(ga)) =~= lowered(ga));
            assert(lowered(lowered(rr)) =~= lowered(rr));
            assert(lowered(lowered(ra)) =~= lowered(ra));
        },
        _ => {},
    }
}

/// Permission string in `resource:action` form.
#[derive(Debug, Eq, Hash)]
pub struct Permission(String);

impl View for Permission {
    type V = Seq<char>;

    closed spec fn view(&self) -> Seq<char> {
        self.0@
    }
}

impl DeepView for Permission {
    type V = Seq<char>;

    open spec fn deep_view(&self) -> Seq<char> {
        self@
    }
}

/// Validates the text of a permission after trimming and normalizing.
pub trait PermissionValidator: Send + Sync {
    /// Accepts or refuses `value`.
    fn validate(&self, value: &str) -> Result<(), Error>;
}

/// The strict default validator: `resource:action`, both non-empty, each
/// segment the wildcard or made of lower-case letters, digits, `_`, `-`.
#[derive(Debug, Default, Clone, Copy)]
pub struct DefaultPermissionValidator;

impl Permission {
    /// Parses and validates a permission with the default validator,
    /// after trimming white space and lower-casing.
    pub fn new(value: &str) -> (r: Result<Self, Error>)
        ensures
            match checked_permission(value@) {
                Ok(t) => r matches Ok(p) && p@ == t,
                Err(m) => r matches Err(e) && e@ == ErrorModel::InvalidPermission(m),
            },
    {
        match Permission::prepare(value, true) {
            None => Err(
                Error::InvalidPermission(String::from_str("permission must not be empty")),
            ),
            Some(text) => {
                let verdict = validate_default(text.as_str());
                Permission::from_verdict(text, verdict)
            },
        }
    }

    /// Parses a permission and validates it with `validator`. When
    /// `normalize` is on, the value is trimmed and lower-cased before it is
    /// validated, else only trimmed. An empty value is refused before the
    /// validator is asked; any other is what the validator makes of it.
    pub fn new_with<V: PermissionValidator>(value: &str, validator: &V, normalize: bool) -> (r:
        Result<Self, Error>)
        ensures
            match prepared(value@, normalize) {
                None => r matches Err(e) && e@ == ErrorModel::InvalidPermission(
                    "permission must not be empty"@,
                ),
                Some(text) => r matches Ok(p) ==> p@ == text,
            },
    {
        match Permission::prepare(value, normalize) {
            None => Err(
                Error::InvalidPermission(String::from_str("permission must not be empty")),
            ),
            Some(text) => {
                let verdict = validator.validate(text.as_str());
                Permission::from_verdict(text, verdict)
            },
        }
    }

    /// Trims `value` and, where `normalize` is on, lower-cases it: the
    /// text that a validator is asked about. `None` where nothing is left.
    pub fn prepare(value: &str, normalize: bool) -> (r: Option<String>)
        ensures
            match prepared(value@, normalize) {
                None => r is None,
                Some(text) => r matches Some(s) && s@ == text,
            },
    {
        let chars = chars_of(value);
        let (a, b) = trim_bounds(&chars);
        if a == b {
            return None;
        }
        let kept = normalize_for_match(&chars, normalize);
        assert(kept@.subrange(a as int, b as int) =~= normalized(
            chars@.subrange(a as int, b as int),
            normalize,
        ));
        Some(string_of(&kept, a, b))
    }

    /// The permission with the prepared text `text` where the validator's
    /// `verdict` on it is `Ok`, the validator's error where it is not.
    pub fn from_verdict(text: String, verdict: Result<(), Error>) -> (r: Result<Self, Error>)
        ensures
            match verdict {
                Ok(_) => r matches Ok(p) && p@ == text@,
                Err(e) => r matches Err(f) && f@ == e@,
            },
    {
        match verdict {
            Ok(_) => Ok(Permission(text)),
            Err(e) => Err(e),
        }
    }

    /// Wraps a trusted string without validating it.
    pub fn from_string(value: String) -> (r: Self)
        ensures
            r@ == value@,
    {
        Permission(value)
    }

    /// The underlying text.
    pub fn as_str(&self) -> (r: &str)
        ensures
            r@ == self@,
    {
        self.0.as_str()
    }

    /// The underlying text, owned.
    pub fn to_string(&self) -> (r: String)
        ensures
            r@ == self@,
    {
        self.0.clone()
    }
}

impl Clone for Permission {
    fn clone(&self) -> (r: Self)
        ensures
            r@ == self@,
    {
        Permission(self.0.clone())
    }
}

impl PartialEq for Permission {
    fn eq(&self, other: &Self) -> (r: bool) {
        self.0 == other.0
    }
}

/// Two values are equal when their texts are.
impl PartialEqSpecImpl for Permission {
    open spec fn obeys_eq_spec() -> bool {
        true
    }

    open spec fn eq_spec(&self, other: &Self) -> bool {
        self@ == other@
    }
}

impl TryFrom<&str> for Permission {
    type Error = Error;

    fn try_from(value: &str) -> (r: Result<Self, Error>)
        ensures
            match checked_permission(value@) {
                Ok(t) => r matches Ok(p) && p@ == t,
                Err(m) => r matches Err(e) && e@ == ErrorModel::InvalidPermission(m),
            },
    {
        Permission::new(value)
    }
}

/// The conversion promises through its own contract, not through the
/// generic one: an error holds owned text, which no ghost value can
/// name.
impl TryFromSpecImpl<&str> for Permission {
    open spec fn obeys_try_from_spec() -> bool {
        false
    }

    closed spec fn try_from_spec(v: &str) -> Result<Self, Error> {
        arbitrary()
    }
}

impl From<String> for Permission {
    fn from(value: String) -> (r: Self)
        ensures
            r@ == value@,
    {
        Permission(value)
    }
}

/// The conversion wraps the string as it is.
impl FromSpecImpl<String> for Permission {
    open spec fn obeys_from_spec() -> bool {
        true
    }

    closed spec fn from_spec(v: String) -> Self {
        Permission(v)
    }
}

impl PermissionValidator for DefaultPermissionValidator {
    fn validate(&self, value: &str) -> (r: Result<(), Error>)
        ensures
            match permission_problem(value@) {
                None => r is Ok,
                Some(m) => r matches Err(e) && e@ == ErrorModel::InvalidPermission(m),
            },
    {
        validate_default(value)
    }
}

/// The default validator's verdict on `value`.
pub fn validate_default(value: &str) -> (r: Result<(), Error>)
    ensures
        match permission_problem(value@) {
            None => r is Ok,
            Some(m) => r matches Err(e) && e@ == ErrorModel::InvalidPermission(m),
        },
{
    let chars = chars_of(value);
    let colon = match split_permission(&chars) {
        Some(i) => i,
        None => {
            return Err(
                Error::InvalidPermission(
                    String::from_str("permission must be in resource:action format"),
                ),
            );
        },
    };
    if colon == 0 || colon + 1 == chars.len() {
        return Err(
            Error::InvalidPermission(String::from_str("permission must not have empty segments")),
        );
    }
    let (all_valid, _) = scan_segments(&chars, colon);
    if !all_valid {
        return Err(
            Error::InvalidPermission(
                String::from_str("resource segment contains invalid characters"),
            ),
        );
    }
    if !is_valid_segment(&chars, colon + 1, chars.len()) {
        return Err(
            Error::InvalidPermission(String::from_str("action segment contains invalid characters")),
        );
    }
    Ok(())
}

/// Whether `v[from..to]` is the wildcard segment.
pub fn is_star(v: &Vec<char>, from: usize, to: usize) -> (r: bool)
    requires
        from <= to <= v.len(),
    ensures
        r == (v@.subrange(from as int, to as int) == star()),
{
    let ghost s = v@.subrange(from as int, to as int);
    if to - from == 1 && v[from] == '*' {
        assert(s =~= star());
        true
    } else {
        if to - from == 1 {
            assert(s[0] != star()[0]);
        } else {
            assert(s.len() != star().len());
        }
        false
    }
}

/// Whether `v[from..to]` is a valid segment.
pub fn is_valid_segment(v: &Vec<char>, from: usize, to: usize) -> (r: bool)
    requires
        from <= to <= v.len(),
    ensures
        r == segment_ok(v@.subrange(from as int, to as int)),
{
    let ghost s = v@.subrange(from as int, to as int);
    if is_star(v, from, to) {
        return true;
    }
    if from == to {
        return false;
    }
    let mut i: usize = from;
    while i < to
        invariant
            from <= i <= to <= v.len(),
            s == v@.subrange(from as int, to as int),
            s != star(),
            forall|j: int| 0 <= j < i - from ==> segment_char(#[trigger] s[j]),
        decreases to - i,
    {
        let c = v[i];
        if !(('a' <= c && c <= 'z') || ('0' <= c && c <= '9') || c == '_' || c == '-') {
            assert(!segment_char(s[i - from]));
            return false;
        }
        i += 1;
    }
    true
}

/// The index of the last `:` of `v`, at which a permission splits into
/// resource and action.
pub fn split_permission(v: &Vec<char>) -> (r: Option<usize>)
    ensures
        match r {
            Some(i) => last_colon(v@) == Some(i as int) && i < v.len(),
            None => last_colon(v@) is None,
        },
{
    let mut i: usize = v.len();
    while i > 0
        invariant
            i <= v.len(),
            forall|k: int| i <= k < v.len() ==> v@[k] != ':',
        decreases i,
    {
        if v[i - 1] == ':' {
            proof {
                lemma_last_colon_at(v@, i - 1);
            }
            return Some(i - 1);
        }
        i -= 1;
    }
    proof {
        lemma_last_colon_none(v@);
    }
    None
}

/// The lower-case form of `v` when `normalize` is on, a copy of `v` when
/// it is off.
pub fn normalize_for_match(v: &Vec<char>, normalize: bool) -> (r: Vec<char>)
    ensures
        r@ == normalized(v@, normalize),
{
    let mut r: Vec<char> = Vec::new();
    let mut i: usize = 0;
    while i < v.len()
        invariant
            i <= v.len(),
            r.len() == i,
            forall|j: int|
                0 <= j < i ==> r@[j] == (if normalize {
                    lower(v@[j])
                } else {
                    v@[j]
                }),
        decreases v.len() - i,
    {
        let c = if normalize {
            lower_char(v[i])
        } else {
            v[i]
        };
        r.push(c);
        i += 1;
    }
    assert(r@ =~= normalized(v@, normalize));
    r
}

/// Goes through the segments of the resource `v[..end]` and tells
/// whether all of them are valid, and whether one of them is the wildcard.
pub fn scan_segments(v: &Vec<char>, end: usize) -> (r: (bool, bool))
    requires
        end <= v.len(),
    ensures
        r.0 == resource_ok(v@.subrange(0, end as int)),
        r.1 == exists|a: int, b: int|
            #[trigger] is_segment(v@.subrange(0, end as int), a, b) && v@.subrange(
                0,
                end as int,
            ).subrange(a, b) == star(),
{
    let ghost res = v@.subrange(0, end as int);
    let mut all_valid = true;
    let mut any_star = false;
    let mut start: usize = 0;
    let mut i: usize = 0;
    let mut done = false;
    while !done
        invariant
            start <= i <= end <= v.len(),
            res == v@.subrange(0, end as int),
            done ==> i == end,
            start == 0 || res[start - 1] == ':',
            forall|k: int| start <= k < i ==> res[k] != ':',
            all_valid == (forall|a: int, b: int|
                #[trigger] is_segment(res, a, b) && (b < i || (done && b == i)) ==> segment_ok(
                    res.subrange(a, b),
                )),
            any_star == (exists|a: int, b: int|
                #[trigger] is_segment(res, a, b) && (b < i || (done && b == i)) && res.subrange(
                    a,
                    b,
                ) == star()),
        decreases end - i, if done { 0int } else { 1int },
    {
        if i == end || v[i] == ':' {
            let ghost a0 = start as int;
            let ghost b0 = i as int;
            let valid = is_valid_segment(v, start, i);
            let wild = is_star(v, start, i);
            proof {
                assert(res.subrange(a0, b0) =~= v@.subrange(a0, b0));
                assert(is_segment(res, a0, b0));
                assert forall|a: int, b: int| #[trigger] is_segment(res, a, b) && b == b0 implies a
                    == a0 by {
                    if a < a0 {
                        assert(res[a0 - 1] == ':');
                    } else if a > a0 {
                        assert(res[a - 1] == ':');
                    }
                }
            }
            let ghost old_valid = all_valid;
            let ghost old_star = any_star;
            let ghost old_i = i;
            all_valid = all_valid && valid;
            any_star = any_star || wild;
            if i == end {
                done = true;
                proof {
                    if any_star {
                        if wild {
                            assert(is_segment(res, a0, b0) && res.subrange(a0, b0) == star());
                        } else {
                            let (a, b) = choose|a: int, b: int|
                                #[trigger] is_segment(res, a, b) && b < old_i && res.subrange(a, b)
                                    == star();
                            assert(is_segment(res, a, b) && (b < i || (done && b == i))
                                && res.subrange(a, b) == star());
                        }
                    }
                }
            } else {
                i += 1;
                start = i;
                proof {
                    if any_star {
                        if wild {
                            assert(is_segment(res, a0, b0) && b0 < i && res.subrange(a0, b0)
                                == star());
                        } else {
                            let (a, b) = choose|a: int, b: int|
                                #[trigger] is_segment(res, a, b) && b < old_i && res.subrange(a, b)
                                    == star();
                            assert(is_segment(res, a, b) && (b < i || (done && b == i))
                                && res.subrange(a, b) == star());
                        }
                    }
                    if !all_valid {
                        if old_valid {
                            assert(is_segment(res, a0, b0) && b0 < i);
                        } else {
                            let (a, b) = choose|a: int, b: int|
                                #[trigger] is_segment(res, a, b) && b < old_i && !segment_ok(
                                    res.subrange(a, b),
                                );
                            assert(is_segment(res, a, b) && b < i);
                        }
                    }
                }
            }
        } else {
            i += 1;
        }
    }
    (all_valid, any_star)
}

/// Whether the action `v[colon + 1..]` is the wildcard or a segment of the
/// resource `v[..colon]` is.
pub fn has_wildcard_segment(v: &Vec<char>, colon: usize) -> (r: bool)
    requires
        colon < v.len(),
    ensures
        r == has_wildcard(
            v@.subrange(0, colon as int),
            v@.subrange(colon + 1, v.len() as int),
        ),
{
    if is_star(v, colon + 1, v.len()) {
        return true;
    }
    let (_, any_star) = scan_segments(v, colon);
    any_star
}

/// Whether the granted permission covers the required one, under the
/// given wildcard and normalization settings.
pub fn permission_matches(
    granted: &Permission,
    required: &Permission,
    enable_wildcard: bool,
    normalize: bool,
) -> (r: bool)
    ensures
        r == grants(granted@, required@, enable_wildcard, normalize),
{
    let g = chars_of(granted.as_str());
    let q = chars_of(required.as_str());
    let gi = match split_permission(&g) {
        Some(i) => i,
        None => {
            return false;
        },
    };
    let qi = match split_permission(&q) {
        Some(i) => i,
        None => {
            return false;
        },
    };
    if !enable_wildcard && has_wildcard_segment(&g, gi) {
        return false;
    }
    let gn = normalize_for_match(&g, normalize);
    let qn = normalize_for_match(&q, normalize);
    proof {
        assert(gn@.subrange(0, gi as int) =~= normalized(g@.subrange(0, gi as int), normalize));
        assert(gn@.subrange(gi + 1, gn.len() as int) =~= normalized(
            g@.subrange(gi + 1, g.len() as int),
            normalize,
        ));
        assert(qn@.subrange(0, qi as int) =~= normalized(q@.subrange(0, qi as int), normalize));
        assert(qn@.subrange(qi + 1, qn.len() as int) =~= normalized(
            q@.subrange(qi + 1, q.len() as int),
            normalize,
        ));
    }
    let same_resource = same_chars(&gn, 0, gi, &qn, 0, qi);
    let same_action = same_chars(&gn, gi + 1, gn.len(), &qn, qi + 1, qn.len());
    if !enable_wildcard {
        return same_resource && same_action;
    }
    let any_resource = is_star(&gn, 0, gi);
    let any_action = is_star(&gn, gi + 1, gn.len());
    if any_resource && any_action {
        return true;
    }
    if any_resource && same_action {
        return true;
    }
    if any_action && same_resource {
        return true;
    }
    same_resource && same_action
}

/// Whether the granted permission gives access to the resource, whatever
/// the action, under the given wildcard and normalization settings.
pub fn resource_matches(
    granted: &Permission,
    resource: &ResourceName,
    enable_wildcard: bool,
    normalize: bool,
) -> (r: bool)
    ensures
        r == grants_resource(granted@, resource@, enable_wildcard, normalize),
{
    let g = chars_of(granted.as_str());
    let q = chars_of(resource.as_str());
    let gi = match split_permission(&g) {
        Some(i) => i,
        None => {
            return false;
        },
    };
    if !enable_wildcard && has_wildcard_segment(&g, gi) {
        return false;
    }
    let gn = normalize_for_match(&g, normalize);
    let qn = normalize_for_match(&q, normalize);
    proof {
        assert(gn@.subrange(0, gi as int) =~= normalized(g@.subrange(0, gi as int), normalize));
        assert(qn@.subrange(0, qn.len() as int) =~= normalized(q@, normalize));
    }
    let same_resource = same_chars(&gn, 0, gi, &qn, 0, qn.len());
    if !enable_wildcard {
        return same_resource;
    }
    if is_star(&gn, 0, gi) {
        return true;
    }
    same_resource
}

} // verus!
