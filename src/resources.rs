//! Where model files are fetched from when the renderer runs in a browser.
use vstd::prelude::*;

verus! {

/// The base URL that model files are fetched under; it can be set once.
pub struct BaseUrl {
    url: Option<String>,
}

impl BaseUrl {
    /// The base URL, if it was set.
    pub closed spec fn spec_url(&self) -> Option<Seq<char>> {
        match self.url {
            Some(u) => Some(u@),
            None => None,
        }
    }

    /// No base URL yet.
    pub fn new() -> (r: Self)
        ensures
            r.spec_url() is None,
    {
        BaseUrl { url: None }
    }
}

/// Sets the base URL. Only the first call succeeds; later calls leave it as
/// it is and fail.
pub fn set_base_url(base: &mut BaseUrl, url: &str) -> (r: Result<(), &'static str>)
    ensures
        old(base).spec_url() is None ==> r is Ok && final(base).spec_url() == Some(url@),
        old(base).spec_url() is Some ==> r is Err && final(base).spec_url() == old(base).spec_url(),
{
    if base.url.is_some() {
        Err("Base URL has already been set")
    } else {
        base.url = Some(url.to_owned());
        Ok(())
    }
}

/// The URL of a model file: under the base URL when one is set, else under
/// the local development server.
pub fn model_url(base: &BaseUrl, filename: &str) -> (r: String)
    ensures
        r@ == match base.spec_url() {
            Some(b) => b + "/"@ + filename@,
            None => "http://localhost:8080/models/"@ + filename@,
        },
{
    match &base.url {
        Some(b) => {
            let mut r = b.clone();
            r.append("/");
            r.append(filename);
            r
        },
        None => {
            let mut r = "http://localhost:8080/models/".to_owned();
            r.append(filename);
            r
        },
    }
}

} // verus!
