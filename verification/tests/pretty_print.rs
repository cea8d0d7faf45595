use oxitortoise::pretty_print::PrettyPrinter;

#[test]
fn pretty_print_struct_with_fields() {
    let mut p = PrettyPrinter::new(String::new());
    p.add_struct("Point", |p| {
        p.add_field("x", "1")?;
        p.add_field("y", "2")
    })
    .unwrap();
    assert_eq!(p.output(), "Point {\n    x: 1,\n    y: 2,\n}");
}

#[test]
fn pretty_print_newlines_are_indented() {
    let mut p = PrettyPrinter::new(String::from(">"));
    p.indented(|p| p.write_str("a\nb")).unwrap();
    assert_eq!(p.output(), ">a\n    b");
}

#[test]
fn pretty_print_nested_list_and_map() {
    let mut p = PrettyPrinter::new(String::new());
    p.add_list(vec![1u32, 2], |p, x| p.write_str(if x == 1 { "one" } else { "two" })).unwrap();
    assert_eq!(p.output(), "[\n    one,\n    two,\n]");

    let mut q = PrettyPrinter::new(String::new());
    q.add_map(vec![("k", 5u32)], |p, k| p.write_str(k), |p, (_, v)| p.write_str(if v == 5 { "five" } else { "?" }))
        .unwrap();
    assert_eq!(q.output(), "{\n    k: five,\n}");
}

#[test]
fn pretty_print_comment_and_field_with() {
    let mut p = PrettyPrinter::new(String::new());
    p.add_comment("note").unwrap();
    p.add_field_with("f", |p| p.write_str("[]")).unwrap();
    assert_eq!(p.output(), " /* note */\nf: [],");
}

#[test]
fn pretty_print_failure_is_passed_on() {
    let mut p = PrettyPrinter::new(String::new());
    let r = p.add_struct("S", |_| Err(std::fmt::Error));
    assert!(r.is_err());
    assert_eq!(p.output(), "S {");
}

#[test]
fn pretty_print_empty_list_and_map() {
    let mut p = PrettyPrinter::new(String::from("x = "));
    p.add_list(Vec::<u32>::new(), |p, _| p.write_str("?")).unwrap();
    assert_eq!(p.output(), "x = [\n]");

    let mut q = PrettyPrinter::new(String::new());
    q.indented(|q| q.add_map(Vec::<(u32, u32)>::new(), |q, _| q.write_str("?"), |q, _| q.write_str("?")))
        .unwrap();
    assert_eq!(q.output(), "{\n    }");
}

#[test]
fn pretty_print_nested_structs_restore_indentation() {
    let mut p = PrettyPrinter::new(String::new());
    p.add_struct("Outer", |p| {
        p.add_field_with("inner", |p| p.add_struct("Inner", |p| p.add_field("a", "1")))?;
        p.add_field("b", "2")
    })
    .unwrap();
    assert_eq!(p.output(), "Outer {\n    inner: Inner {\n        a: 1,\n    },\n    b: 2,\n}");
}
