//! The metadata-fetch collaborator: a best-effort enrichment that looks
//! up a page title and description for a URL. The store only consumes
//! its result; fetching itself is I/O and lives with the embedding
//! program, behind the `MetadataFetcher` port.

use vstd::prelude::*;

verus! {

/// An optional page title and description for a bookmarked URL.
#[derive(Clone, Debug, PartialEq)]
pub struct Metadata {
    pub title: Option<String>,
    pub description: Option<String>,
}

/// Mathematical image of a Metadata value.
#[verifier::ext_equal]
pub struct MetadataView {
    pub title: Option<Seq<char>>,
    pub description: Option<Seq<char>>,
}

impl View for Metadata {
    type V = MetadataView;

    open spec fn view(&self) -> MetadataView {
        MetadataView { title: self.title.deep_view(), description: self.description.deep_view() }
    }
}

/// The port through which the local adapter asks for page metadata.
/// Implementations fetch over the network; a failed or impossible fetch
/// returns None and never aborts the caller. Nothing can be promised of
/// what a fetch returns, so the method carries no contract.
pub trait MetadataFetcher {
    fn fetch(&self, url: &str) -> Option<Metadata>;
}

/// Client-side configuration for fetching page metadata: how long a
/// fetch may take before it is abandoned.
pub struct WebClient {
    pub timeout_ms: u64,
}

impl WebClient {
    /// A web client with the given request timeout in milliseconds.
    pub fn new(timeout_ms: u64) -> (c: WebClient)
        ensures
            c.timeout_ms == timeout_ms,
    {
        WebClient { timeout_ms }
    }
}

} // verus!
