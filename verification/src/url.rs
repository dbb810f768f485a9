//! Addresses of upstreams.
use crate::text;
use vstd::prelude::*;

verus! {

/// The parts of an address that the router looks at.
pub struct Parts {
    pub scheme: String,
    pub username: String,
    pub password: Option<String>,
    pub query: Option<String>,
    pub fragment: Option<String>,
    pub path: String,
}

/// The mathematical model of [`Parts`].
pub struct PartsView {
    pub scheme: Seq<char>,
    pub username: Seq<char>,
    pub password: Option<Seq<char>>,
    pub query: Option<Seq<char>>,
    pub fragment: Option<Seq<char>>,
    pub path: Seq<char>,
}

impl View for Parts {
    type V = PartsView;

    open spec fn view(&self) -> PartsView {
        PartsView {
            scheme: self.scheme@,
            username: self.username@,
            password: text::opt_view(self.password),
            query: text::opt_view(self.query),
            fragment: text::opt_view(self.fragment),
            path: self.path@,
        }
    }
}

/// The parts of the address that a text writes, where it writes one.
pub uninterp spec fn parts(raw: Seq<char>) -> Option<PartsView>;

/// `reqwest::Url::parse` reads an address, or fails, as the text alone decides. Its parts are
/// what the accessors of the same names give.
#[verifier::external_body]
pub(crate) fn parse(raw: &str) -> (r: Option<Parts>)
    ensures
        match r {
            Some(p) => parts(raw@) == Some(p@),
            None => parts(raw@) is None,
        },
{
    let u = reqwest::Url::parse(raw).ok()?;
    Some(
        Parts {
            scheme: u.scheme().to_owned(),
            username: u.username().to_owned(),
            password: u.password().map(str::to_owned),
            query: u.query().map(str::to_owned),
            fragment: u.fragment().map(str::to_owned),
            path: u.path().to_owned(),
        },
    )
}

} // verus!
