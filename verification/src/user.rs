use std::sync::Arc;
use vstd::prelude::*;

verus! {

/// A user of the serial keel server.
#[derive(Debug, Hash, PartialEq, Eq)]
pub struct User {
    /// The user's name.
    pub name: Arc<String>,
}

impl View for User {
    type V = Seq<char>;

    open spec fn view(&self) -> Seq<char> {
        self.name@
    }
}

impl User {
    /// A user with the given name.
    pub fn new(name: &str) -> (user: Self)
        ensures
            user@ == name@,
    {
        User { name: Arc::new(name.to_owned()) }
    }

    /// A copy of this user.
    pub fn duplicate(&self) -> (user: Self)
        ensures
            user@ == self@,
    {
        let name: &String = &self.name;
        User { name: Arc::new(name.clone()) }
    }

    /// Whether two users have the same name.
    pub fn same_as(&self, other: &User) -> (same: bool)
        ensures
            same == (self@ == other@),
    {
        let a: &String = &self.name;
        let b: &String = &other.name;
        *a == *b
    }

    /// The user's name, as shown to people.
    pub fn display(&self) -> (s: String)
        ensures
            s@ == self@,
    {
        let name: &String = &self.name;
        name.clone()
    }
}

impl Clone for User {
    fn clone(&self) -> (user: Self)
        ensures
            user@ == self@,
    {
        self.duplicate()
    }
}

} // verus!
