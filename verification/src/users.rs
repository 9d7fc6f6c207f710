use vstd::prelude::*;
use std::collections::HashMap;

verus! {

/// A minimal account record.
pub struct User {
    pub id: u32,
    pub name: String,
    pub email: Option<String>,
}

#[derive(Clone, Copy, Debug, PartialEq, Eq, Structural)]
pub enum UserStatus {
    Active,
    Inactive,
    Pending,
}

impl User {
    pub fn new(id: u32, name: String) -> (u: User)
        ensures
            u.id == id,
            u.name == name,
            u.email is None,
    {
        User { id, name, email: None }
    }

    pub fn set_email(&mut self, email: String)
        ensures
            final(self).id == old(self).id,
            final(self).name == old(self).name,
            final(self).email == Some(email),
    {
        self.email = Some(email);
    }

    /// A user is valid when it has a name and a positive id.
    pub fn is_valid(&self) -> (r: bool)
        ensures
            r == (self.name@.len() > 0 && self.id > 0),
    {
        !self.name.as_str().is_empty() && self.id > 0
    }
}

/// True when `s` holds the character `c` anywhere.
pub fn str_contains_char(s: &str, c: char) -> (r: bool)
    ensures
        r == s@.contains(c),
{
    let n: usize = s.unicode_len();
    let mut i: usize = 0;
    while i < n
        invariant
            n == s@.len(),
            i <= n,
            forall|j: int| 0 <= j < i ==> s@[j] != c,
        decreases n - i,
    {
        if s.get_char(i) == c {
            assert(s@.contains(c));
            return true;
        }
        i += 1;
    }
    assert(!s@.contains(c));
    false
}

/// An address passes the shallow check when it holds both '@' and '.'.
pub fn validate_email(email: &str) -> (r: bool)
    ensures
        r == (email@.contains('@') && email@.contains('.')),
{
    str_contains_char(email, '@') && str_contains_char(email, '.')
}

/// Builds the two seed accounts keyed by id.
pub fn create_user_map() -> (users: HashMap<u32, User>)
    ensures
        users@.len() == 2,
        users@.contains_key(1) && users@[1].id == 1 && users@[1].name@ == "Alice"@
            && users@[1].email is None,
        users@.contains_key(2) && users@[2].id == 2 && users@[2].name@ == "Bob"@
            && users@[2].email is None,
{
    let mut users: HashMap<u32, User> = HashMap::new();

    let user1 = User::new(1, String::from_str("Alice"));
    let user2 = User::new(2, String::from_str("Bob"));

    users.insert(user1.id, user1);
    users.insert(user2.id, user2);

    users
}

} // verus!
