use simple_profiler::label::{resolve_label, LabelArg, LabelError};

fn path(text: &str) -> LabelArg {
    LabelArg::Path(String::from(text))
}

fn name(text: &str) -> LabelArg {
    LabelArg::Name(String::from(text))
}

#[test]
fn function_name_is_the_default_label() {
    assert_eq!(resolve_label(&vec![], Some("mul")), Ok(String::from("mul")));
}

#[test]
fn given_name_replaces_the_function_name() {
    assert_eq!(resolve_label(&vec![name("all")], Some("mul")), Ok(String::from("all")));
    assert_eq!(resolve_label(&vec![name("all")], None), Ok(String::from("all")));
    assert_eq!(resolve_label(&vec![name("")], Some("mul")), Ok(String::from("")));
}

#[test]
fn path_stands_in_front_of_the_name() {
    assert_eq!(resolve_label(&vec![path("math")], Some("mul")), Ok(String::from("math::mul")));
    assert_eq!(
        resolve_label(&vec![name("all"), path("math :: fast")], Some("mul")),
        Ok(String::from("math :: fast::all"))
    );
    assert_eq!(resolve_label(&vec![path("m"), name("n")], None), Ok(String::from("m::n")));
}

#[test]
fn block_without_a_name_has_no_label() {
    assert_eq!(resolve_label(&vec![], None), Err(LabelError::NameMissing));
    assert_eq!(resolve_label(&vec![path("math")], None), Err(LabelError::NameMissing));
}

#[test]
fn second_path_is_refused() {
    assert_eq!(resolve_label(&vec![path("a"), path("b")], Some("f")), Err(LabelError::PathRepeated(1)));
    assert_eq!(
        resolve_label(&vec![path("a"), name("n"), path("a")], Some("f")),
        Err(LabelError::PathRepeated(2))
    );
}

#[test]
fn second_name_is_refused() {
    assert_eq!(resolve_label(&vec![name("a"), name("b")], None), Err(LabelError::NameRepeated(1)));
    assert_eq!(
        resolve_label(&vec![name("a"), path("p"), name("a")], Some("f")),
        Err(LabelError::NameRepeated(2))
    );
}

#[test]
fn first_repeat_is_the_one_reported() {
    assert_eq!(
        resolve_label(&vec![name("a"), path("p"), path("q"), name("b")], None),
        Err(LabelError::PathRepeated(2))
    );
    assert_eq!(
        resolve_label(&vec![path("p"), name("a"), name("b"), path("q")], None),
        Err(LabelError::NameRepeated(2))
    );
    // a repeat is reported even where the name is missing
    assert_eq!(resolve_label(&vec![path("p"), path("q")], None), Err(LabelError::PathRepeated(1)));
}
