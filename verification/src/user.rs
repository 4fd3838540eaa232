use vstd::prelude::*;

verus! {

/// The record that the connect screen posts and gets back.
#[derive(Debug)]
pub struct User {
    pub name: String,
    pub id: u32,
    url: String,
}

/// A user record as contracts see it.
pub struct UserView {
    pub name: Seq<char>,
    pub id: u32,
    pub url: Seq<char>,
}

impl View for User {
    type V = UserView;

    closed spec fn view(&self) -> UserView {
        UserView { name: self.name@, id: self.id, url: self.url@ }
    }
}

impl User {
    pub fn new(name: &str, id: u32, url: &str) -> (user: User)
        ensures
            user@ == (UserView { name: name@, id, url: url@ }),
    {
        User { name: name.to_owned(), id, url: url.to_owned() }
    }

    pub fn name(&self) -> (name: &String)
        ensures
            name@ == self@.name,
    {
        &self.name
    }

    pub fn id(&self) -> (id: u32)
        ensures
            id == self@.id,
    {
        self.id
    }

    pub fn url(&self) -> (url: &String)
        ensures
            url@ == self@.url,
    {
        &self.url
    }

    /// The record a server sends back for this one: the same name and
    /// address under the next id.
    pub fn acknowledged(self) -> (reply: User)
        requires
            self@.id < u32::MAX,
        ensures
            reply@ == (UserView { id: (self@.id + 1) as u32, ..self@ }),
    {
        User { name: self.name, id: self.id + 1, url: self.url }
    }
}

} // verus!
