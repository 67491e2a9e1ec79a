use pdf2csv::{
    color_scheme, dark_mode_cookie, prefers_dark_from_cookie, resolve_prefers_dark, search_rolls,
    toggle_label,
};

#[test]
fn cookie_records_the_choice() {
    assert_eq!(dark_mode_cookie(true), "darkmode=true; Path=/");
    assert_eq!(dark_mode_cookie(false), "darkmode=false; Path=/");
}

#[test]
fn cookie_is_read_back() {
    assert!(prefers_dark_from_cookie("darkmode=true"));
    assert!(prefers_dark_from_cookie("a=1; darkmode=true; b=2"));
    assert!(!prefers_dark_from_cookie("darkmode=false"));
    assert!(!prefers_dark_from_cookie(""));
    assert!(!prefers_dark_from_cookie("darkmode=tru"));
}

#[test]
fn pending_choice_wins_then_confirmed_then_initial() {
    assert!(resolve_prefers_dark(Some(true), Some(Ok(false)), false));
    assert!(!resolve_prefers_dark(None, Some(Ok(false)), true));
    assert!(resolve_prefers_dark(None, Some(Err(())), true));
    assert!(!resolve_prefers_dark(None, None, false));
}

#[test]
fn scheme_and_label_follow_the_choice() {
    assert_eq!(color_scheme(true), "dark");
    assert_eq!(color_scheme(false), "light");
    assert_eq!(toggle_label(true), "Switch to Light Mode");
    assert_eq!(toggle_label(false), "Switch to Dark Mode");
}

#[test]
fn search_terms_are_cut_and_trimmed() {
    assert_eq!(
        search_rolls("234.008-1-70, 236.015-1-1 ,x"),
        vec!["234.008-1-70".to_string(), "236.015-1-1".to_string(), "x".to_string()]
    );
    assert_eq!(search_rolls(""), vec!["".to_string()]);
}
