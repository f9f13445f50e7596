use sneedov::telegram::chat::{match_user_levels, Access, User};

#[test]
fn blacklisted_users_are_never_authorized() {
    assert!(!User::Blacklisted.is_authorized(Access::All));
    assert!(!User::Blacklisted.is_authorized(Access::Admins));
    assert!(!User::Blacklisted.is_authorized(Access::Owner));
}

#[test]
fn authorization_by_level() {
    assert!(User::Normal.is_authorized(Access::All));
    assert!(!User::Normal.is_authorized(Access::Admins));
    assert!(User::Admin.is_authorized(Access::Admins));
    assert!(!User::Admin.is_authorized(Access::Owner));
    assert!(User::Owner.is_authorized(Access::Owner));
    assert!(User::Owner.is_authorized(Access::Admins));
}

#[test]
fn blacklisting_rules() {
    assert_eq!(match_user_levels(User::Owner, User::Admin), Ok(()));
    assert_eq!(match_user_levels(User::Admin, User::Normal), Ok(()));
    assert_eq!(match_user_levels(User::Normal, User::Blacklisted), Ok(()));
    assert_eq!(match_user_levels(User::Admin, User::Owner), Err("You cannot blacklist the owner!"));
    assert_eq!(match_user_levels(User::Admin, User::Admin), Err("You cannot blacklist other admins!"));
    assert_eq!(match_user_levels(User::Normal, User::Admin), Err("You cannot blacklist admins!"));
    assert_eq!(
        match_user_levels(User::Normal, User::Normal),
        Err("You cannot blacklist users with the same level!")
    );
    assert_eq!(match_user_levels(User::Blacklisted, User::Normal), Err("You are blacklisted!"));
}

#[test]
fn access_descriptions() {
    assert_eq!(Access::All.description(), "All users");
    assert_eq!(Access::Admins.description(), "Admins only");
    assert_eq!(Access::Owner.description(), "Owner only");
}
