use rs_tenant::Error;
use rs_tenant::GlobalRoleId;
use rs_tenant::PrincipalId;
use rs_tenant::ResourceName;
use rs_tenant::RoleId;
use rs_tenant::TenantId;
use rs_tenant::types::validate_simple_name;
#[test]
fn principal_id_try_from_parts_success() {
    let principal = PrincipalId::try_from_parts("admin", "user_1").expect("principal id");
    assert_eq!(principal.as_str(), "admin:user_1");
}

#[test]
fn principal_id_try_from_parts_rejects_empty_segment() {
    let err = PrincipalId::try_from_parts("admin", "   ").expect_err("must reject");
    assert!(err.to_string().contains("principal account id"));
}

#[test]
fn principal_id_try_from_parts_rejects_invalid_chars() {
    let err = PrincipalId::try_from_parts("ad min", "user_1").expect_err("must reject");
    assert!(err.to_string().contains("principal kind"));
}

#[test]
fn new_should_trim_and_keep_valid_names() {
    let id = TenantId::new("  tenant_1\t\n").unwrap();
    assert_eq!(id.as_str(), "tenant_1");
    assert_eq!(id.to_string(), "tenant_1");
    let id = TenantId::new("A-b_c:9").unwrap();
    assert_eq!(id.as_str(), "A-b_c:9");
    let id = TenantId::new("\u{a0}\u{2003}x\u{3000}").unwrap();
    assert_eq!(id.as_str(), "x");
}

#[test]
fn new_should_reject_empty_names() {
    match TenantId::new("") {
        Err(Error::InvalidId(m)) => assert_eq!(m, "tenant id must not be empty"),
        other => panic!("unexpected result: {other:?}"),
    }
    match RoleId::new(" \t ") {
        Err(Error::InvalidId(m)) => assert_eq!(m, "role id must not be empty"),
        other => panic!("unexpected result: {other:?}"),
    }
    match GlobalRoleId::new("") {
        Err(Error::InvalidId(m)) => assert_eq!(m, "global role id must not be empty"),
        other => panic!("unexpected result: {other:?}"),
    }
    match ResourceName::new("") {
        Err(Error::InvalidId(m)) => assert_eq!(m, "resource name must not be empty"),
        other => panic!("unexpected result: {other:?}"),
    }
    match PrincipalId::new("") {
        Err(Error::InvalidId(m)) => assert_eq!(m, "principal id must not be empty"),
        other => panic!("unexpected result: {other:?}"),
    }
}

#[test]
fn new_should_reject_long_names() {
    let fits = "a".repeat(128);
    assert_eq!(TenantId::new(fits.as_str()).unwrap().as_str(), fits);
    let padded = format!("  {fits}  ");
    assert_eq!(TenantId::new(padded.as_str()).unwrap().as_str(), fits);
    let long = "a".repeat(129);
    match TenantId::new(long.as_str()) {
        Err(Error::InvalidId(m)) => assert_eq!(m, "tenant id length must be <= 128"),
        other => panic!("unexpected result: {other:?}"),
    }
    let wide = "\u{e9}".repeat(65);
    match TenantId::new(wide.as_str()) {
        Err(Error::InvalidId(m)) => assert_eq!(m, "tenant id length must be <= 128"),
        other => panic!("unexpected result: {other:?}"),
    }
    let narrow = "\u{e9}".repeat(64);
    match TenantId::new(narrow.as_str()) {
        Err(Error::InvalidId(m)) => assert_eq!(m, "tenant id contains invalid characters"),
        other => panic!("unexpected result: {other:?}"),
    }
}

#[test]
fn new_should_reject_invalid_characters() {
    for bad in ["a b", "a.b", "a/b", "a*", "\u{e9}", "a\u{1f600}"] {
        match TenantId::new(bad) {
            Err(Error::InvalidId(m)) => assert_eq!(m, "tenant id contains invalid characters"),
            other => panic!("unexpected result for {bad:?}: {other:?}"),
        }
    }
}

#[test]
fn validation_should_agree_with_the_standard_library() {
    for code in 0u32..=0x10ffff {
        let Some(c) = char::from_u32(code) else {
            continue;
        };
        let padded = format!("{c}x{c}");
        let result = validate_simple_name(padded.as_str(), "name");
        let trimmed = padded.trim();
        let valid = trimmed
            .chars()
            .all(|ch| ch.is_ascii_alphanumeric() || matches!(ch, ':' | '_' | '-'));
        match result {
            Ok(name) => {
                assert!(valid, "accepted {code:#x}");
                assert_eq!(name, trimmed);
            }
            Err(_) => assert!(!valid, "refused {code:#x}"),
        }
    }
}

#[test]
fn from_string_should_not_validate() {
    let id = RoleId::from_string(String::from("not valid!"));
    assert_eq!(id.as_str(), "not valid!");
    let id = RoleId::from(String::from(" x "));
    assert_eq!(id.as_str(), " x ");
    assert_eq!(id.clone(), id);
    assert_ne!(id, RoleId::from_string(String::from("x")));
}

#[test]
fn principal_id_try_from_parts_rejects_long_whole() {
    let kind = "k".repeat(64);
    let account = "a".repeat(64);
    let err = PrincipalId::try_from_parts(kind.as_str(), account.as_str()).expect_err("too long");
    assert_eq!(err.to_string(), "invalid id: principal id length must be <= 128");
    let account = "a".repeat(63);
    let id = PrincipalId::try_from_parts(kind.as_str(), account.as_str()).unwrap();
    assert_eq!(id.as_str(), format!("{kind}:{account}"));
    let id = PrincipalId::try_from_parts(" admin ", "org:user_1").unwrap();
    assert_eq!(id.as_str(), "admin:org:user_1");
}
