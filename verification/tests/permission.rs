use rs_tenant::Error;
use rs_tenant::Permission;
use rs_tenant::ResourceName;
use rs_tenant::permission::permission_matches;
use rs_tenant::permission::resource_matches;
use rs_tenant::permission::split_permission;
#[test]
fn try_from_should_trim_and_lowercase() {
    let permission = Permission::try_from(" Invoice:Read ").unwrap();
    assert_eq!(permission.as_str(), "invoice:read");
}

#[test]
fn try_from_should_reject_empty_segments() {
    let result = Permission::try_from(":read");
    assert!(matches!(result, Err(Error::InvalidPermission(_))));
}

#[test]
fn resource_match_should_ignore_wildcard_permission_when_disabled() {
    let granted = Permission::try_from("invoice:*").unwrap();
    let resource = ResourceName::try_from("invoice").unwrap();

    assert!(!resource_matches(&granted, &resource, false, true));
}

#[test]
fn permission_match_should_ignore_wildcard_permission_when_disabled() {
    let granted = Permission::try_from("invoice:*").unwrap();
    let required = Permission::try_from("invoice:*").unwrap();

    assert!(!permission_matches(&granted, &required, false, true));
}

fn perm(value: &str) -> Permission {
    Permission::try_from(value).unwrap()
}

fn raw(value: &str) -> Permission {
    Permission::from_string(String::from(value))
}

fn refusal(value: &str) -> String {
    match Permission::new(value) {
        Err(Error::InvalidPermission(m)) => m,
        other => panic!("unexpected result for {value:?}: {other:?}"),
    }
}

#[test]
fn new_should_accept_valid_permissions() {
    for (given, kept) in [
        ("invoice:read", "invoice:read"),
        ("invoice:sub:read", "invoice:sub:read"),
        ("*:*", "*:*"),
        ("invoice:*", "invoice:*"),
        ("*:read", "*:read"),
        ("a:*:b:c", "a:*:b:c"),
        ("  Order-1_x:Do_It  ", "order-1_x:do_it"),
    ] {
        assert_eq!(Permission::new(given).unwrap().as_str(), kept);
    }
}

#[test]
fn new_should_name_the_reason_of_a_refusal() {
    assert_eq!(refusal(""), "permission must not be empty");
    assert_eq!(refusal("   "), "permission must not be empty");
    assert_eq!(refusal("invoice"), "permission must be in resource:action format");
    assert_eq!(refusal(":read"), "permission must not have empty segments");
    assert_eq!(refusal("invoice:"), "permission must not have empty segments");
    assert_eq!(refusal(":"), "permission must not have empty segments");
    assert_eq!(refusal("in voice:read"), "resource segment contains invalid characters");
    assert_eq!(refusal("a::b:read"), "resource segment contains invalid characters");
    assert_eq!(refusal(":a:read"), "resource segment contains invalid characters");
    assert_eq!(refusal("a*:read"), "resource segment contains invalid characters");
    assert_eq!(refusal("**:read"), "resource segment contains invalid characters");
    assert_eq!(refusal("invoice:re ad"), "action segment contains invalid characters");
    assert_eq!(refusal("invoice:r*"), "action segment contains invalid characters");
    assert_eq!(refusal("invoice:r\u{e9}ad"), "action segment contains invalid characters");
}

struct AnyValidator;

impl rs_tenant::PermissionValidator for AnyValidator {
    fn validate(&self, _value: &str) -> Result<(), Error> {
        Ok(())
    }
}

struct NoValidator;

impl rs_tenant::PermissionValidator for NoValidator {
    fn validate(&self, value: &str) -> Result<(), Error> {
        Err(Error::InvalidPermission(format!("refused {value}")))
    }
}

#[test]
fn new_with_should_ask_the_validator_about_the_prepared_text() {
    let kept = Permission::new_with("  Invoice:READ ", &AnyValidator, false).unwrap();
    assert_eq!(kept.as_str(), "Invoice:READ");
    let lowered = Permission::new_with("  Invoice:READ ", &AnyValidator, true).unwrap();
    assert_eq!(lowered.as_str(), "invoice:read");
    match Permission::new_with("  Invoice:READ ", &NoValidator, true) {
        Err(Error::InvalidPermission(m)) => assert_eq!(m, "refused invoice:read"),
        other => panic!("unexpected result: {other:?}"),
    }
    match Permission::new_with("  ", &AnyValidator, true) {
        Err(Error::InvalidPermission(m)) => assert_eq!(m, "permission must not be empty"),
        other => panic!("unexpected result: {other:?}"),
    }
    let strict = Permission::new_with("Invoice:read", &rs_tenant::DefaultPermissionValidator, false);
    assert!(matches!(strict, Err(Error::InvalidPermission(_))));
}

#[test]
fn match_should_ignore_case_when_normalizing() {
    let granted = raw("Invoice:Read");
    let required = raw("invoice:read");
    assert!(permission_matches(&granted, &required, false, true));
    assert!(permission_matches(&granted, &required, true, true));
    assert!(!permission_matches(&granted, &required, false, false));
    assert!(!permission_matches(&granted, &required, true, false));
    assert!(resource_matches(&granted, &ResourceName::from_string(String::from("INVOICE")), false, true));
    assert!(!resource_matches(&granted, &ResourceName::from_string(String::from("INVOICE")), false, false));
}

#[test]
fn wildcards_should_match_when_enabled() {
    for required in ["invoice:read", "customer:write", "a:b:c"] {
        assert!(permission_matches(&perm("*:*"), &perm(required), true, true));
        assert!(!permission_matches(&perm("*:*"), &perm(required), false, true));
    }
    assert!(permission_matches(&perm("invoice:*"), &perm("invoice:read"), true, true));
    assert!(permission_matches(&perm("invoice:*"), &perm("invoice:write"), true, true));
    assert!(!permission_matches(&perm("invoice:*"), &perm("customer:read"), true, true));
    assert!(permission_matches(&perm("*:read"), &perm("invoice:read"), true, true));
    assert!(permission_matches(&perm("*:read"), &perm("customer:read"), true, true));
    assert!(!permission_matches(&perm("*:read"), &perm("invoice:write"), true, true));
    assert!(resource_matches(&perm("*:read"), &ResourceName::new("invoice").unwrap(), true, true));
    assert!(resource_matches(&perm("invoice:*"), &ResourceName::new("invoice").unwrap(), true, true));
    assert!(!resource_matches(&perm("invoice:*"), &ResourceName::new("customer").unwrap(), true, true));
}

#[test]
fn match_should_split_at_the_last_colon() {
    assert!(permission_matches(&perm("invoice:sub:read"), &perm("invoice:sub:read"), false, true));
    assert!(!permission_matches(&perm("invoice:sub:read"), &perm("invoice:read"), false, true));
    assert!(resource_matches(
        &perm("invoice:sub:read"),
        &ResourceName::new("invoice:sub").unwrap(),
        false,
        true
    ));
    assert!(!resource_matches(&perm("invoice:sub:read"), &ResourceName::new("invoice").unwrap(), false, true));
    assert!(!permission_matches(&perm("a:*:b:read"), &perm("a:*:b:read"), false, true));
    assert!(permission_matches(&perm("a:*:b:read"), &perm("a:*:b:read"), true, true));
    assert!(!permission_matches(&perm("a:*:b:read"), &perm("a:x:b:read"), true, true));
    assert!(permission_matches(&raw("a*:read"), &raw("a*:read"), false, true));
}

#[test]
fn match_should_fail_closed_without_a_colon() {
    assert!(!permission_matches(&raw("invoice"), &raw("invoice"), false, true));
    assert!(!permission_matches(&raw("invoice"), &raw("invoice"), true, true));
    assert!(!permission_matches(&perm("invoice:read"), &raw("invoice"), true, true));
    assert!(!permission_matches(&raw("*"), &perm("invoice:read"), true, true));
    assert!(!resource_matches(&raw("invoice"), &ResourceName::new("invoice").unwrap(), true, true));
}

#[test]
fn lower_case_should_agree_with_the_standard_library() {
    for code in 0u32..=0x10ffff {
        let Some(c) = char::from_u32(code) else {
            continue;
        };
        assert_eq!(rs_tenant::text::lower_char(c), c.to_ascii_lowercase());
        assert_eq!(rs_tenant::text::is_space_char(c), c.is_whitespace());
        assert_eq!(
            rs_tenant::types::is_allowed_name_char(c),
            c.is_ascii_alphanumeric() || matches!(c, ':' | '_' | '-')
        );
    }
}

#[test]
fn split_should_find_the_last_colon() {
    let chars: Vec<char> = "a:b:c".chars().collect();
    assert_eq!(split_permission(&chars), Some(3));
    let chars: Vec<char> = "abc".chars().collect();
    assert_eq!(split_permission(&chars), None);
    let chars: Vec<char> = ":".chars().collect();
    assert_eq!(split_permission(&chars), Some(0));
    assert_eq!(split_permission(&Vec::new()), None);
}

fn fold(value: &str, normalize: bool) -> String {
    if normalize {
        value.to_ascii_lowercase()
    } else {
        value.to_string()
    }
}

fn expected_match(granted: &str, required: &str, wildcard: bool, normalize: bool) -> bool {
    let Some((g_res, g_act)) = granted.rsplit_once(':') else {
        return false;
    };
    let Some((r_res, r_act)) = required.rsplit_once(':') else {
        return false;
    };
    let starred = g_act == "*" || g_res.split(':').any(|segment| segment == "*");
    let same_resource = fold(g_res, normalize) == fold(r_res, normalize);
    let same_action = fold(g_act, normalize) == fold(r_act, normalize);
    if !wildcard {
        return !starred && same_resource && same_action;
    }
    (g_res == "*" && g_act == "*")
        || (g_res == "*" && same_action)
        || (g_act == "*" && same_resource)
        || (same_resource && same_action)
}

fn expected_resource_match(granted: &str, resource: &str, wildcard: bool, normalize: bool) -> bool {
    let Some((g_res, g_act)) = granted.rsplit_once(':') else {
        return false;
    };
    let starred = g_act == "*" || g_res.split(':').any(|segment| segment == "*");
    let same_resource = fold(g_res, normalize) == fold(resource, normalize);
    if !wildcard {
        return !starred && same_resource;
    }
    g_res == "*" || same_resource
}

#[test]
fn matcher_should_follow_the_rules_for_every_pair() {
    let samples = [
        "", ":", "*", "*:*", "a", "a:", ":a", "a:b", "A:b", "a:B", "a:*", "*:b", "*:B", "a:b:c",
        "a:*:c", "a:b:*", "*:b:c", "a*:b", "a:b*", "**:b", "a::b", "x:y", "X:Y", "invoice:read",
        "Invoice:Read", "invoice:*", "customer:read", "\u{e9}:read", "a:b:", "::",
    ];
    for granted in samples {
        for required in samples {
            for wildcard in [false, true] {
                for normalize in [false, true] {
                    assert_eq!(
                        permission_matches(&raw(granted), &raw(required), wildcard, normalize),
                        expected_match(granted, required, wildcard, normalize),
                        "granted {granted:?}, required {required:?}, wildcard {wildcard}, normalize {normalize}"
                    );
                    assert_eq!(
                        resource_matches(
                            &raw(granted),
                            &ResourceName::from_string(String::from(required)),
                            wildcard,
                            normalize
                        ),
                        expected_resource_match(granted, required, wildcard, normalize),
                        "granted {granted:?}, resource {required:?}, wildcard {wildcard}, normalize {normalize}"
                    );
                }
            }
        }
    }
}

#[test]
fn validator_should_follow_the_rules_for_every_sample() {
    let samples = [
        "", ":", "*", "*:*", "a", "a:", ":a", "a:b", "A:b", "a:*", "*:b", "a:b:c", "a:*:c",
        "a*:b", "a:b*", "**:b", "a::b", "a:b:", "::", "a_b-1:c_d-2", "a b:c", "\u{e9}:read",
        "a:b:c:d:*", "*:*:*",
    ];
    for sample in samples {
        let expected = match sample.rsplit_once(':') {
            None => false,
            Some((resource, action)) => {
                let segment_ok = |segment: &str| {
                    segment == "*"
                        || (!segment.is_empty()
                            && segment
                                .chars()
                                .all(|ch| matches!(ch, 'a'..='z' | '0'..='9' | '_' | '-')))
                };
                !resource.is_empty()
                    && !action.is_empty()
                    && resource.split(':').all(segment_ok)
                    && segment_ok(action)
            }
        };
        let verdict = rs_tenant::PermissionValidator::validate(
            &rs_tenant::DefaultPermissionValidator,
            sample,
        );
        assert_eq!(verdict.is_ok(), expected, "for {sample:?}");
        assert_eq!(
            rs_tenant::permission::validate_default(sample).is_ok(),
            expected,
            "for {sample:?}"
        );
    }
}
