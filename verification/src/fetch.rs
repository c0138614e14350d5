//! The cache entry of a tile image, and the decisions a fetch takes on it.
//!
//! A tile URL is fetched once: the first request that finds nothing in the
//! cache marks the URL as loading, fetches the image and stores it; every
//! other request waits until the entry holds the image.
use crate::raster::RasterImage;
use std::sync::Arc;
use vstd::prelude::*;

verus! {

/// What the cache holds for a URL: a fetch under way, or its image.
#[derive(Clone)]
pub enum Fetch {
    Loading,
    Ready(Arc<RasterImage>),
}

/// What a request for a tile image does after looking its URL up.
#[derive(Debug, Clone, Copy, PartialEq, Eq, Structural)]
pub enum FetchAction {
    /// Mark the URL as loading, fetch the image and store it.
    Request,
    /// Wait until the entry of the URL holds the image.
    Wait,
}

/// The action on what the cache held for a URL: fetch it where it held
/// nothing, wait for it otherwise.
pub fn action_on_lookup(cached: &Option<Fetch>) -> (r: FetchAction)
    ensures
        r == (if cached is None {
            FetchAction::Request
        } else {
            FetchAction::Wait
        }),
{
    match cached {
        None => FetchAction::Request,
        Some(_) => FetchAction::Wait,
    }
}

/// The image an entry gives: that of a ready entry, none while it loads.
pub fn ready_image(entry: Fetch) -> (r: Option<Arc<RasterImage>>)
    ensures
        match entry {
            Fetch::Ready(img) => r == Some(img),
            Fetch::Loading => r is None,
        },
{
    match entry {
        Fetch::Ready(img) => Some(img),
        Fetch::Loading => None,
    }
}

} // verus!
