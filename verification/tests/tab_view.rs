use rooibos::tab_view::{
    current_tab_index, fitted_width, header_row_len, headers_len, tab_click, HeaderLayout, TabClick, TabHeader,
};

fn tab(value: &str, title_width: u16, decorator_width: Option<u16>) -> TabHeader {
    TabHeader { value: value.to_string(), title_width, decorator_width }
}

fn tabs() -> Vec<TabHeader> {
    vec![tab("a", 3, None), tab("b", 2, Some(1)), tab("c", 4, None)]
}

const LAYOUT: HeaderLayout = HeaderLayout { padding_left: 1, padding_right: 1, divider_width: 1 };

#[test]
fn the_current_tab_is_found_by_value() {
    assert_eq!(current_tab_index(&tabs(), "b"), Some(1));
    assert_eq!(current_tab_index(&tabs(), "a"), Some(0));
    assert_eq!(current_tab_index(&tabs(), "z"), None);
}

#[test]
fn clicking_a_title_selects_its_tab() {
    assert_eq!(tab_click(&tabs(), LAYOUT, "a", false, 0, 6), Some(TabClick::Title(1)));
    assert_eq!(tab_click(&tabs(), LAYOUT, "a", false, 0, 10), Some(TabClick::Title(1)));
    assert_eq!(tab_click(&tabs(), LAYOUT, "a", false, 0, 13), Some(TabClick::Title(2)));
    assert_eq!(tab_click(&tabs(), LAYOUT, "a", false, 10, 16), Some(TabClick::Title(1)));
}

#[test]
fn clicking_the_current_title_does_nothing() {
    assert_eq!(tab_click(&tabs(), LAYOUT, "a", false, 0, 3), None);
    assert_eq!(tab_click(&tabs(), LAYOUT, "b", true, 0, 8), None);
}

#[test]
fn clicking_a_decorator_goes_to_its_handler_when_there_is_one() {
    assert_eq!(tab_click(&tabs(), LAYOUT, "a", true, 0, 12), Some(TabClick::Decorator(1)));
    assert_eq!(tab_click(&tabs(), LAYOUT, "a", false, 0, 12), Some(TabClick::Title(1)));
    assert_eq!(tab_click(&tabs(), LAYOUT, "b", false, 0, 12), Some(TabClick::Title(1)));
}

#[test]
fn clicking_right_of_every_tab_does_nothing() {
    assert_eq!(tab_click(&tabs(), LAYOUT, "a", true, 0, 25), None);
    assert_eq!(tab_click(&vec![], LAYOUT, "a", true, 0, 0), None);
}

#[test]
fn the_header_row_fits_titles_dividers_and_borders() {
    assert_eq!(headers_len(&vec![5, 7, 3], 2, 1), 25);
    assert_eq!(headers_len(&vec![4], 2, 3), 8);
    assert_eq!(headers_len(&vec![], 2, 1), 0);
}

#[test]
fn the_header_row_measures_titles_decorators_padding_and_dividers() {
    // a: 3 + 2, b: 2 + "  " + 1 + 2, c: 4 + 2; two dividers; two borders
    assert_eq!(header_row_len(&tabs(), "b", LAYOUT), 5 + 7 + 6 + 2 + 2);
}

#[test]
fn without_a_current_tab_the_header_row_is_empty() {
    assert_eq!(header_row_len(&tabs(), "z", LAYOUT), 0);
    assert_eq!(header_row_len(&Vec::new(), "a", LAYOUT), 0);
}

#[test]
fn a_fitted_view_is_as_wide_as_its_header_row() {
    assert_eq!(fitted_width(&tabs(), "a", LAYOUT, true), Some(22));
    assert_eq!(fitted_width(&tabs(), "z", LAYOUT, true), Some(0));
    assert_eq!(fitted_width(&tabs(), "a", LAYOUT, false), None);
}
