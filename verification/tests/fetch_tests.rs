use model_imagery_server::fetch::{action_on_lookup, ready_image, Fetch, FetchAction};
use model_imagery_server::raster::blank_tile_image;
use std::sync::Arc;

#[test]
fn lookup_of_an_unknown_url_requests_it() {
    assert_eq!(action_on_lookup(&None), FetchAction::Request);
}

#[test]
fn lookup_of_a_loading_or_ready_url_waits() {
    assert_eq!(action_on_lookup(&Some(Fetch::Loading)), FetchAction::Wait);
    let img = Arc::new(blank_tile_image(2));
    assert_eq!(action_on_lookup(&Some(Fetch::Ready(img))), FetchAction::Wait);
}

#[test]
fn a_ready_entry_gives_its_image_and_a_loading_one_none() {
    assert!(ready_image(Fetch::Loading).is_none());
    let img = Arc::new(blank_tile_image(3));
    let got = ready_image(Fetch::Ready(img.clone())).unwrap();
    assert!(Arc::ptr_eq(&got, &img));
    assert_eq!(got.dimensions(), (3, 3));
}
