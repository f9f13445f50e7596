use vstd::prelude::*;

verus! {

/// Who may use a command.
#[derive(Clone, Copy, Debug, PartialEq, Eq, Structural)]
pub enum Access {
    All,
    Admins,
    Owner,
}

/// The standing of a chat member.
#[derive(Clone, Copy, Debug, PartialEq, Eq, Structural)]
pub enum User {
    Normal,
    Blacklisted,
    Admin,
    Owner,
}

/// A blacklisted member may use nothing; every other member may use what is open to
/// all; an admin may use what is open to admins; the owner may use everything.
pub open spec fn authorized(user: User, access: Access) -> bool {
    match (user, access) {
        (User::Blacklisted, _) => false,
        (_, Access::All) => true,
        (User::Admin, Access::Admins) => true,
        (User::Owner, _) => true,
        (_, _) => false,
    }
}

/// Whether a member of standing `actor` may blacklist or unblacklist one of standing
/// `target`.
pub open spec fn may_blacklist(actor: User, target: User) -> bool {
    match (actor, target) {
        (_, User::Owner) => false,
        (User::Owner, _) => true,
        (User::Admin, User::Admin) => false,
        (User::Admin, _) => true,
        (_, User::Admin) => false,
        (User::Normal, User::Normal) => false,
        (User::Normal, User::Blacklisted) => true,
        (User::Blacklisted, _) => false,
    }
}

/// The message that explains a refusal.
pub open spec fn refusal(actor: User, target: User) -> Seq<char> {
    match (actor, target) {
        (_, User::Owner) => "You cannot blacklist the owner!"@,
        (User::Admin, User::Admin) => "You cannot blacklist other admins!"@,
        (User::Normal, User::Admin) => "You cannot blacklist admins!"@,
        (User::Blacklisted, User::Admin) => "You cannot blacklist admins!"@,
        (User::Normal, User::Normal) => "You cannot blacklist users with the same level!"@,
        _ => "You are blacklisted!"@,
    }
}

pub open spec fn access_text(access: Access) -> Seq<char> {
    match access {
        Access::All => "All users"@,
        Access::Admins => "Admins only"@,
        Access::Owner => "Owner only"@,
    }
}

impl Access {
    /// The access level in words.
    pub fn description(&self) -> (r: &'static str)
        ensures
            r@ == access_text(*self),
    {
        match self {
            Access::All => "All users",
            Access::Admins => "Admins only",
            Access::Owner => "Owner only",
        }
    }
}

impl User {
    pub fn is_authorized(&self, access: Access) -> (r: bool)
        ensures
            r == authorized(*self, access),
    {
        match (self, access) {
            (User::Blacklisted, _) => false,
            (_, Access::All) => true,
            (User::Admin, Access::Admins) => true,
            (User::Owner, _) => true,
            (_, _) => false,
        }
    }
}

/// Decides whether `user1` may blacklist `user2`, with the reason when not.
pub fn match_user_levels(user1: User, user2: User) -> (r: Result<(), &'static str>)
    ensures
        r is Ok <==> may_blacklist(user1, user2),
        r matches Err(m) ==> m@ == refusal(user1, user2),
{
    match (user1, user2) {
        (_, User::Owner) => Err("You cannot blacklist the owner!"),
        (User::Owner, _) => Ok(()),
        (User::Admin, User::Admin) => Err("You cannot blacklist other admins!"),
        (User::Admin, _) => Ok(()),
        (_, User::Admin) => Err("You cannot blacklist admins!"),
        (User::Normal, User::Normal) => Err("You cannot blacklist users with the same level!"),
        (User::Normal, User::Blacklisted) => Ok(()),
        (User::Blacklisted, _) => Err("You are blacklisted!"),
    }
}

} // verus!
