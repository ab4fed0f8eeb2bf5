//! Scopes, collect policies and session data.
//!
//! A scope is an opaque permission name. Session data says under which
//! claim name a resolved value is written into each of the two token
//! claim maps; either name may be absent, meaning "do not emit".

use vstd::prelude::*;

verus! {

/// A requested permission identifier; equality is by string value.
#[derive(Debug, PartialEq, Eq, Hash)]
pub struct Scope(String);

impl View for Scope {
    type V = Seq<char>;

    closed spec fn view(&self) -> Seq<char> {
        self.0@
    }
}

impl DeepView for Scope {
    type V = Seq<char>;

    open spec fn deep_view(&self) -> Seq<char> {
        self.view()
    }
}

impl Clone for Scope {
    /// A copy naming the same scope.
    fn clone(&self) -> (r: Self)
        ensures
            r@ == self@,
    {
        Scope(self.0.clone())
    }
}

impl Scope {
    /// The scope named by `value`.
    pub fn new(value: String) -> (r: Self)
        ensures
            r@ == value@,
    {
        Scope(value)
    }

    /// The scope's name.
    pub fn as_str(&self) -> (r: &str)
        ensures
            r@ == self@,
    {
        self.0.as_str()
    }

    /// Whether two scopes name the same permission.
    pub fn same_as(&self, other: &Scope) -> (r: bool)
        ensures
            r == (self@ == other@),
    {
        self.0 == other.0
    }

    /// Whether this scope's name is the string `name`.
    pub fn named(&self, name: &String) -> (r: bool)
        ensures
            r == (self@ == name@),
    {
        self.0 == *name
    }
}

/// The combinator applied when a scope resolves to several values.
#[derive(Debug, Clone, Copy, PartialEq, Eq, Structural)]
pub enum Collect {
    First,
    Last,
    Any,
    All,
}

/// The model of session data: the optional claim name for each token.
pub struct SessionModel {
    pub id_token: Option<Seq<char>>,
    pub access_token: Option<Seq<char>>,
}

/// Under which claim name (if any) a resolved value lands in the
/// id token and in the access token.
#[derive(Debug, PartialEq, Eq)]
pub struct SessionData {
    pub id_token: Option<String>,
    pub access_token: Option<String>,
}

impl View for SessionData {
    type V = SessionModel;

    open spec fn view(&self) -> SessionModel {
        SessionModel {
            id_token: match self.id_token {
                Option::Some(s) => Option::Some(s@),
                Option::None => Option::None,
            },
            access_token: match self.access_token {
                Option::Some(s) => Option::Some(s@),
                Option::None => Option::None,
            },
        }
    }
}

impl Clone for SessionData {
    /// A copy carrying the same claim names.
    fn clone(&self) -> (r: Self)
        ensures
            r@ == self@,
    {
        let id_token = match &self.id_token {
            Option::Some(s) => Option::Some(s.clone()),
            Option::None => Option::None,
        };
        let access_token = match &self.access_token {
            Option::Some(s) => Option::Some(s.clone()),
            Option::None => Option::None,
        };
        SessionData { id_token, access_token }
    }
}

} // verus!
