use fmt_interspersed::digits::u64_to_string;
use fmt_interspersed::intersperse::format_interspersed;
use fmt_interspersed::intersperse::format_interspersed_by;
use fmt_interspersed::intersperse::write_interspersed;
use fmt_interspersed::intersperse::write_interspersed_by;
use fmt_interspersed::intersperse::writeln_interspersed;
use fmt_interspersed::intersperse::writeln_interspersed_by;
use fmt_interspersed::sink::BoundedBuf;
use fmt_interspersed::sink::StrBuf;
use fmt_interspersed::sink::WithMut;
use fmt_interspersed::sink::WriteError;

/// Checks both the default rule and a custom rule that renders each item
/// verbatim: the two must agree.
fn check_case(expected: &str, items: &Vec<String>, sep: &str) {
    assert_eq!(expected, format_interspersed(items, sep));
    assert_eq!(
        expected,
        format_interspersed_by(items, sep, |x: &String| x.clone())
    );
}

#[test]
fn test_simple() {
    let empty: Vec<String> = Vec::new();
    check_case("", &empty, "");
    check_case("", &empty, ", ");

    check_case("", &vec![String::new()], "");
    check_case("a", &vec!["a".to_string()], "");
    check_case("a", &vec!["a".to_string()], ", ");
    check_case("123", &vec![u64_to_string(123)], "");
    check_case("123", &vec![u64_to_string(123)], ", ");

    check_case(", ", &vec![String::new(), String::new()], ", ");
    check_case(", a", &vec![String::new(), "a".to_string()], ", ");
    check_case("a, ", &vec!["a".to_string(), String::new()], ", ");
    check_case("a, b", &vec!["a".to_string(), "b".to_string()], ", ");

    check_case(
        ", , ",
        &vec![String::new(), String::new(), String::new()],
        ", ",
    );
    check_case(
        "a, b, c",
        &vec!["a".to_string(), "b".to_string(), "c".to_string()],
        ", ",
    );

    check_case(
        "99",
        &vec![String::new(), String::new(), String::new()],
        &u64_to_string(9),
    );
    check_case(
        "a9b9c",
        &vec!["a".to_string(), "b".to_string(), "c".to_string()],
        &u64_to_string(9),
    );
}

#[test]
fn test_format_strings() {
    let empty: Vec<u64> = Vec::new();
    assert_eq!(
        "",
        format_interspersed_by(&empty, "", |_x: &u64| "nonempty".to_string())
    );
    assert_eq!(
        "",
        format_interspersed_by(&empty, "nonempty", |_x: &u64| "nonempty".to_string())
    );

    let nums: Vec<u64> = vec![1, 2, 3];
    assert_eq!(
        "149",
        format_interspersed_by(&nums, "", |i: &u64| u64_to_string(i * i))
    );
    assert_eq!(
        "1, 4, 9",
        format_interspersed_by(&nums, ", ", |i: &u64| u64_to_string(i * i))
    );
    assert_eq!(
        "10409",
        format_interspersed_by(&nums, &u64_to_string(0), |i: &u64| u64_to_string(i * i))
    );

    let pairs: Vec<(&str, i32)> = vec![("a", 1), ("b", 2), ("c", 3)];
    assert_eq!(
        r#"(x: "a", y: 1); (x: "b", y: 2); (x: "c", y: 3)"#,
        format_interspersed_by(&pairs, "; ", |p: &(&str, i32)| format!(
            "(x: {:?}, y: {})",
            p.0, p.1
        ))
    );
}

#[test]
fn test_str_write() {
    let items: Vec<String> = (1u64..=5).map(u64_to_string).collect();
    let sep = u64_to_string(0);

    let mut buf = StrBuf::new();
    write_interspersed(&mut buf, &items, &sep).unwrap();
    assert_eq!("102030405", buf.as_str());

    let mut buf = StrBuf::new();
    writeln_interspersed(&mut buf, &items, &sep).unwrap();
    assert_eq!("102030405\n", buf.as_str());

    let pairs: Vec<(&str, i32)> = vec![("a", 1), ("b", 2), ("c", 3)];
    let render = |p: &(&str, i32)| format!("(x: {:?}, y: {})", p.0, p.1);

    let mut buf = StrBuf::new();
    write_interspersed_by(&mut buf, &pairs, "; ", render).unwrap();
    assert_eq!("(x: \"a\", y: 1); (x: \"b\", y: 2); (x: \"c\", y: 3)", buf.as_str());

    let mut buf = StrBuf::new();
    writeln_interspersed_by(&mut buf, &pairs, "; ", render).unwrap();
    assert_eq!(
        "(x: \"a\", y: 1); (x: \"b\", y: 2); (x: \"c\", y: 3)\n",
        buf.as_str()
    );
}

#[test]
fn test_io_write() {
    let items: Vec<String> = (1u64..=5).map(u64_to_string).collect();
    let sep = u64_to_string(0);

    let mut sink = BoundedBuf::new(1024);
    write_interspersed(&mut sink, &items, &sep).unwrap();
    assert_eq!("102030405", sink.into_string());

    let mut sink = BoundedBuf::new(1024);
    writeln_interspersed(&mut sink, &items, &sep).unwrap();
    assert_eq!("102030405\n", sink.into_string());

    let pairs: Vec<(&str, i32)> = vec![("a", 1), ("b", 2), ("c", 3)];
    let render = |p: &(&str, i32)| format!("(x: {:?}, y: {})", p.0, p.1);

    let mut sink = BoundedBuf::new(1024);
    write_interspersed_by(&mut sink, &pairs, "; ", render).unwrap();
    assert_eq!(
        "(x: \"a\", y: 1); (x: \"b\", y: 2); (x: \"c\", y: 3)",
        sink.into_string()
    );

    let mut sink = BoundedBuf::new(1024);
    writeln_interspersed_by(&mut sink, &pairs, "; ", render).unwrap();
    assert_eq!(
        "(x: \"a\", y: 1); (x: \"b\", y: 2); (x: \"c\", y: 3)\n",
        sink.into_string()
    );
}

#[test]
fn test_write_fails_fast() {
    let items: Vec<String> = vec!["ab".to_string(), "cd".to_string(), "ef".to_string()];

    // The budget admits "ab" and ", " and no more: the failure surfaces on
    // the second item and the destination keeps exactly what was written.
    let mut sink = BoundedBuf::new(4);
    assert_eq!(Err(WriteError), write_interspersed(&mut sink, &items, ", "));
    assert_eq!("ab, ", sink.as_str());

    // A failure on the very first write leaves the destination untouched.
    let mut sink = BoundedBuf::new(1);
    assert_eq!(Err(WriteError), write_interspersed(&mut sink, &items, ", "));
    assert_eq!("", sink.as_str());
}

#[test]
fn test_writeln_empty_appends_terminator() {
    let empty: Vec<String> = Vec::new();

    let mut buf = StrBuf::new();
    writeln_interspersed(&mut buf, &empty, ", ").unwrap();
    assert_eq!("\n", buf.as_str());

    let none: Vec<u64> = Vec::new();
    let mut buf = StrBuf::new();
    writeln_interspersed_by(&mut buf, &none, ", ", |i: &u64| u64_to_string(*i)).unwrap();
    assert_eq!("\n", buf.into_string());
}

#[test]
fn test_separator_count() {
    let items: Vec<String> = vec!["a".to_string(), "b".to_string(), "c".to_string()];
    let out = format_interspersed(&items, "--");
    assert_eq!("a--b--c", out);
    assert_eq!(2, out.matches("--").count());

    let one: Vec<String> = vec!["a".to_string()];
    assert_eq!(0, format_interspersed(&one, "--").matches("--").count());
}

#[test]
fn test_with_mut_destination() {
    let items: Vec<String> = vec!["a".to_string(), "b".to_string()];
    let mut buf = StrBuf::new();
    buf.with_mut(|b: &mut StrBuf| write_interspersed(b, &items, ", "))
        .unwrap();
    assert_eq!("a, b", buf.into_string());
}

#[test]
fn test_bounded_budget_boundary() {
    // "ab, cd" is six characters: exactly the budget, so every write fits.
    let items: Vec<String> = vec!["ab".to_string(), "cd".to_string()];
    let mut sink = BoundedBuf::new(6);
    write_interspersed(&mut sink, &items, ", ").unwrap();
    assert_eq!("ab, cd", sink.into_string());
}
