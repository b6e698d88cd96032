use memory_viewer::route::{route, Route};

#[test]
fn route_serves_the_page_at_the_root_only() {
    assert_eq!(route("/"), Route::Page);
    assert_eq!(route("/favicon.ico"), Route::NotFound);
    assert_eq!(route("/?x=1"), Route::NotFound);
    assert_eq!(route(""), Route::NotFound);
    assert_eq!(route("//"), Route::NotFound);
}

#[test]
fn route_status_codes() {
    assert_eq!(route("/").status(), 200);
    assert_eq!(route("/other").status(), 404);
}
