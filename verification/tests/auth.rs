use rs_tenant::auth::bearer_token;
use rs_tenant::auth::missing_context;
use rs_tenant::auth::passage;
use rs_tenant::auth::AuthContext;
use rs_tenant::auth::AuthError;
use rs_tenant::auth::AuthRejection;
use rs_tenant::auth::AuthorizationHeader;
use rs_tenant::auth::DefaultClaims;
use rs_tenant::auth::Passage;
use rs_tenant::Decision;
use rs_tenant::Error;
use rs_tenant::PrincipalId;
use rs_tenant::TenantId;

fn text(value: &str) -> AuthorizationHeader {
    AuthorizationHeader::Text(String::from(value))
}

#[test]
fn bearer_token_should_follow_the_prefix() {
    assert_eq!(bearer_token(&text("Bearer abc.def")).unwrap(), "abc.def");
    assert_eq!(bearer_token(&text("Bearer  x")).unwrap(), " x");
    assert_eq!(bearer_token(&text("Bearer \u{e9}")).unwrap(), "\u{e9}");
}

#[test]
fn bearer_token_should_refuse_other_headers() {
    assert!(matches!(
        bearer_token(&AuthorizationHeader::Missing),
        Err(AuthError::MissingAuthorization)
    ));
    assert!(matches!(
        bearer_token(&AuthorizationHeader::Unreadable),
        Err(AuthError::InvalidAuthorization)
    ));
    for bad in ["", "Bearer", "Bearer ", "bearer abc", "Basic abc", "Bearerabc", " Bearer abc"] {
        assert!(
            matches!(bearer_token(&text(bad)), Err(AuthError::InvalidAuthorization)),
            "for {bad:?}"
        );
    }
}

#[test]
fn claims_should_give_a_validated_context() {
    let context = AuthContext::from_claims(" tenant_1 ", "user_1").unwrap();
    assert_eq!(context.tenant.as_str(), "tenant_1");
    assert_eq!(context.principal.as_str(), "user_1");
    match AuthContext::from_claims("", "user_1") {
        Err(AuthError::InvalidId(m)) => assert_eq!(m, "invalid id: tenant id must not be empty"),
        other => panic!("unexpected result: {other:?}"),
    }
    match AuthContext::from_claims("tenant_1", "user 1") {
        Err(AuthError::InvalidId(m)) => {
            assert_eq!(m, "invalid id: principal id contains invalid characters")
        }
        other => panic!("unexpected result: {other:?}"),
    }
    let claims = DefaultClaims {
        tenant_id: String::from("tenant_1"),
        principal_id: String::from("user_1"),
        sub: None,
        exp: Some(7),
    };
    let context = AuthContext::from_claims(claims.tenant_id(), claims.principal_id()).unwrap();
    let built = AuthContext::new(
        TenantId::new("tenant_1").unwrap(),
        PrincipalId::new("user_1").unwrap(),
    );
    assert_eq!(context.tenant, built.tenant);
    assert_eq!(context.principal, built.principal);
}

#[test]
fn rejection_should_be_unauthorized_with_the_message() {
    let cases = [
        (AuthError::MissingAuthorization, "missing authorization header"),
        (AuthError::InvalidAuthorization, "invalid authorization header"),
        (AuthError::InvalidToken, "invalid token"),
        (AuthError::InvalidClaims(String::from("exp")), "invalid claims: exp"),
        (AuthError::InvalidId(String::from("x")), "invalid id: x"),
    ];
    for (error, message) in cases {
        assert_eq!(error.to_string(), message);
        let rejection = AuthRejection::from(error);
        assert_eq!(rejection.status(), 401);
        assert_eq!(rejection.message(), message);
    }
}

#[test]
fn passage_should_follow_the_decision() {
    assert!(matches!(passage(&Ok(Decision::Allow)), Passage::Proceed));
    match passage(&Ok(Decision::Deny)) {
        Passage::Refuse { status, body } => {
            assert_eq!(status, 403);
            assert_eq!(body, "forbidden");
        }
        other => panic!("unexpected passage: {other:?}"),
    }
    match passage(&Err(Error::InvalidId(String::from("x")))) {
        Passage::Refuse { status, body } => {
            assert_eq!(status, 500);
            assert_eq!(body, "auth error");
        }
        other => panic!("unexpected passage: {other:?}"),
    }
    match missing_context() {
        Passage::Refuse { status, body } => {
            assert_eq!(status, 401);
            assert_eq!(body, "missing auth context");
        }
        other => panic!("unexpected passage: {other:?}"),
    }
}
