use forge_core::tabs::visible_tabs;

#[test]
fn computes_visible_tabs() {
    assert_eq!(visible_tabs(10, 3, 8), 8);
    assert_eq!(visible_tabs(2, 1, 8), 2);
}

#[test]
fn no_views_no_tabs() {
    assert_eq!(visible_tabs(0, 1, 8), 0);
}

#[test]
fn at_least_one_tab_is_shown() {
    assert_eq!(visible_tabs(5, 0, 0), 1);
    assert_eq!(visible_tabs(5, 4, 8), 2);
    assert_eq!(visible_tabs(5, 9, 8), 0);
}
