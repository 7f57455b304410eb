use drive_sweep::model::{GranteeType, Permission, Role};
use drive_sweep::policy::Policy;

const GRANTEES: [GranteeType; 4] =
    [GranteeType::User, GranteeType::Group, GranteeType::Domain, GranteeType::Anyone];
const ROLES: [Role; 5] = [Role::Owner, Role::Writer, Role::Commenter, Role::Reader, Role::Other];

fn grant(grantee: GranteeType, role: Role) -> Permission {
    Permission { id: "p".to_string(), grantee, role, display_name: None }
}

#[test]
fn public_grant_policy_matches_anyone_only() {
    for grantee in GRANTEES {
        for role in ROLES {
            let expected = grantee == GranteeType::Anyone && role != Role::Owner;
            assert_eq!(Policy::PublicGrant.should_revoke(&grant(grantee, role)), expected);
        }
    }
}

#[test]
fn reader_grant_policy_matches_readers_only() {
    for grantee in GRANTEES {
        for role in ROLES {
            let expected = role == Role::Reader;
            assert_eq!(Policy::ReaderGrant.should_revoke(&grant(grantee, role)), expected);
        }
    }
}

#[test]
fn owner_is_never_revoked() {
    for grantee in GRANTEES {
        assert!(!Policy::PublicGrant.should_revoke(&grant(grantee, Role::Owner)));
        assert!(!Policy::ReaderGrant.should_revoke(&grant(grantee, Role::Owner)));
    }
}

#[test]
fn select_keeps_matches_in_order() {
    let listed = vec![
        Permission { id: "1".to_string(), ..grant(GranteeType::Anyone, Role::Reader) },
        Permission { id: "2".to_string(), ..grant(GranteeType::User, Role::Owner) },
        Permission { id: "3".to_string(), ..grant(GranteeType::User, Role::Reader) },
        Permission { id: "4".to_string(), ..grant(GranteeType::Anyone, Role::Writer) },
    ];
    let public: Vec<String> =
        Policy::PublicGrant.select(&listed).into_iter().map(|p| p.id).collect();
    assert_eq!(public, vec!["1".to_string(), "4".to_string()]);
    let readers: Vec<String> =
        Policy::ReaderGrant.select(&listed).into_iter().map(|p| p.id).collect();
    assert_eq!(readers, vec!["1".to_string(), "3".to_string()]);
    assert!(Policy::PublicGrant.select(&Vec::new()).is_empty());
}

#[test]
fn policy_is_picked_by_name() {
    assert_eq!(Policy::parse(&"public-grant".to_string()), Some(Policy::PublicGrant));
    assert_eq!(Policy::parse(&"reader-grant".to_string()), Some(Policy::ReaderGrant));
    assert_eq!(Policy::parse(&"any".to_string()), None);
    assert_eq!(Policy::parse(&String::new()), None);
}
