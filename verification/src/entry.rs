//! The entries of the list, and what the library takes from `url`.

use url::Url;
use vstd::prelude::*;

verus! {

/// `url::Url`, opaque to the verifier.
#[verifier::external_type_specification]
#[verifier::external_body]
pub struct ExUrl(url::Url);

/// The serialization of a URL: the text that `Url::as_str` hands out and by
/// which two URLs compare.
pub uninterp spec fn url_text(url: Url) -> Seq<char>;

/// `Url::as_str` returns the URL's serialization.
pub assume_specification<'a>[ Url::as_str ](url: &'a Url) -> (text: &'a str)
    ensures
        text@ == url_text(*url),
;

/// `==` on `url::Url`: two URLs are equal exactly when their serializations
/// are.
#[verifier::external_body]
pub(crate) fn same_url(left: &Url, right: &Url) -> (same: bool)
    ensures
        same == (url_text(*left) == url_text(*right)),
{
    left == right
}

/// One recently used item. Its URL is its key: two entries with equal URLs
/// are the same entry.
#[derive(Debug, PartialEq, Eq)]
pub struct Recent {
    pub url: Url,
}

/// The list of entries, least recently used first.
pub type Recents = Vec<Recent>;

impl Recent {
    /// The key of the entry: the text of its URL.
    pub open spec fn key(&self) -> Seq<char> {
        url_text(self.url)
    }
}

/// The keys of a list of entries, in the order of the list.
pub open spec fn keys_of(entries: Seq<Recent>) -> Seq<Seq<char>> {
    Seq::new(entries.len(), |i: int| entries[i].key())
}

} // verus!
