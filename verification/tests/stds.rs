use osh_dir_std::stds::Standards;

#[test]
fn from_opts_prefers_all() {
    let name = "unixish".to_string();
    assert!(matches!(Standards::from_opts(true, true, Some(&name)), Standards::All));
    assert!(matches!(Standards::from_opts(true, false, None), Standards::All));
}

#[test]
fn from_opts_prefers_best_fit_over_a_name() {
    let name = "unixish".to_string();
    assert!(matches!(Standards::from_opts(false, true, Some(&name)), Standards::BestFit));
}

#[test]
fn from_opts_takes_the_name() {
    let name = "unixish".to_string();
    match Standards::from_opts(false, false, Some(&name)) {
        Standards::Specific(chosen) => assert_eq!(chosen, "unixish"),
        _ => panic!("the named standard was asked for"),
    }
}

#[test]
fn from_opts_falls_back_to_the_default() {
    assert!(matches!(Standards::from_opts(false, false, None), Standards::Default));
    assert!(matches!(Standards::default(), Standards::Default));
}

#[test]
fn display_names_each_choice() {
    assert_eq!(Standards::Default.display("unixish"), "<default>(unixish)");
    assert_eq!(Standards::All.display("unixish"), "<all>");
    assert_eq!(Standards::BestFit.display("unixish"), "<best-fit>(...)");
    assert_eq!(Standards::Specific("prusaish".to_string()).display("unixish"), "prusaish");
}
