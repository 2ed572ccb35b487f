//! Catalog records and the paginated fetch protocol.
//!
//! The remote catalog is a paginated list endpoint. This module holds the
//! record shapes, the request path for one page, and the pagination state
//! machine: the surrounding process performs the transport call for the page
//! that `next_request` names and feeds the result to `absorb_page`; the
//! fetch is complete when a page comes back short (fewer records than
//! requested). The upstream-reported total serves only as a sanity
//! cross-check, since the two signals have been seen to disagree.

use vstd::prelude::*;

use crate::text::dec_spec;
use crate::text::usize_to_string;

verus! {

/// Number of records requested per catalog page.
pub const PAGE_SIZE: usize = 100;

/// One record of the remote sound catalog. Field names follow the upstream
/// JSON shape; only the collection identifier, the record identifier, the
/// command name and the audio file name feed the command cache.
#[allow(non_snake_case)]
#[derive(Debug, Clone)]
pub struct SupabaseCommandItem {
    pub collectionId: String,
    pub collectionName: String,
    pub command: String,
    pub created: String,
    pub id: String,
    pub sound: String,
    pub updated: String,
}

/// One page of the remote catalog listing, with its pagination metadata.
#[allow(non_snake_case)]
#[derive(Debug)]
pub struct SupabaseCommandsList {
    pub page: usize,
    pub perPage: usize,
    pub totalItems: usize,
    pub items: Vec<SupabaseCommandItem>,
}

/// The request path for one catalog page.
pub open spec fn request_url_spec(
    api: Seq<char>,
    collection: Seq<char>,
    page: nat,
    per_page: nat,
) -> Seq<char> {
    api + "/api/collections/"@ + collection + "/records?page="@ + dec_spec(page) + "&perPage="@
        + dec_spec(per_page)
}

/// Build the URL of one catalog page request.
pub fn records_request_url(api: &String, collection: &str, page: usize, per_page: usize) -> (r:
    String)
    ensures
        r@ == request_url_spec(api@, collection@, page as nat, per_page as nat),
{
    let mut out = api.clone();
    out.append("/api/collections/");
    out.append(collection);
    out.append("/records?page=");
    let p = usize_to_string(page);
    out.append(p.as_str());
    out.append("&perPage=");
    let pp = usize_to_string(per_page);
    out.append(pp.as_str());
    out
}

/// State of one paginated catalog retrieval.
pub struct CatalogFetch {
    /// Records accumulated so far, in upstream order.
    pub items: Vec<SupabaseCommandItem>,
    /// Number of the next page to request; upstream pages start at 1.
    pub next_page: usize,
    /// Whether a short page has ended the pagination.
    pub done: bool,
    /// The total reported by the most recently absorbed page.
    pub reported_total: usize,
}

impl CatalogFetch {
    pub fn begin() -> (r: CatalogFetch)
        ensures
            r.items@ == Seq::<SupabaseCommandItem>::empty(),
            r.next_page == 1,
            !r.done,
    {
        CatalogFetch { items: Vec::new(), next_page: 1, done: false, reported_total: 0 }
    }

    /// The page to request next, or nothing once a short page has been seen.
    pub fn next_request(&self) -> (r: Option<usize>)
        ensures
            self.done ==> r is None,
            !self.done ==> r == Some(self.next_page),
    {
        if self.done {
            None
        } else {
            Some(self.next_page)
        }
    }

    /// Take in one fetched page: its records extend the accumulator, and a
    /// short page — fewer records than one full page — ends the pagination.
    pub fn absorb_page(&mut self, page: SupabaseCommandsList)
        requires
            !old(self).done,
            old(self).next_page < usize::MAX,
        ensures
            final(self).items@ == old(self).items@ + page.items@,
            final(self).done == (page.items@.len() < PAGE_SIZE as int),
            final(self).next_page == old(self).next_page + 1,
            final(self).reported_total == page.totalItems,
    {
        let mut incoming = page;
        let short = incoming.items.len() < PAGE_SIZE;
        self.items.append(&mut incoming.items);
        self.next_page = self.next_page + 1;
        self.done = short;
        self.reported_total = incoming.totalItems;
    }

    /// Sanity cross-check: does the accumulated record count equal the
    /// total that the upstream reported last? A mismatch is worth logging
    /// but does not drive termination.
    pub fn totals_agree(&self) -> (r: bool)
        ensures
            r == (self.items@.len() == self.reported_total as int),
    {
        self.items.len() == self.reported_total
    }
}

} // verus!
