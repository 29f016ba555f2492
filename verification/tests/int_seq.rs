use solomonoff::int_seq::IntSeq;

#[test]
fn int_seq_test_eq1() {
    assert_eq!(IntSeq::from("a"), IntSeq::from("a"));
}

#[test]
fn int_seq_test_eq2() {
    assert_eq!(IntSeq::from("ab"), IntSeq::from("ab"));
}

#[test]
fn int_seq_test_eq3() {
    assert_eq!(IntSeq::from("😀"), IntSeq::from("😀"));
}

#[test]
fn int_seq_test_eq4() {
    assert_eq!(IntSeq::from("Emoji ☺ 😂 🚀 😘 😈"), IntSeq::from("Emoji ☺ 😂 🚀 😘 😈"));
}

#[test]
fn int_seq_test_eq5() {
    assert_eq!(IntSeq::from(""), IntSeq::epsilon());
}

#[test]
fn int_seq_test_ne1() {
    assert_ne!(IntSeq::from("ab"), IntSeq::from("b"));
}

#[test]
fn int_seq_test_ne2() {
    assert_ne!(IntSeq::from(""), IntSeq::from("b"));
}

#[test]
fn int_seq_test_add1() {
    assert_eq!(IntSeq::from("ab"), &IntSeq::from("a") + &IntSeq::from("b"));
}

#[test]
fn int_seq_test_add2() {
    assert_eq!(IntSeq::from("b"), &IntSeq::from("") + &IntSeq::from("b"));
}

#[test]
fn int_seq_test_add3() {
    assert_eq!(IntSeq::from("a"), &IntSeq::from("a") + &IntSeq::from(""));
}

#[test]
fn int_seq_test_add4() {
    let mut a = IntSeq::from("a");
    a += &IntSeq::from("b");
    assert_eq!(IntSeq::from("ab"), a);
}

#[test]
fn int_seq_test_add5() {
    let mut a = IntSeq::from("a");
    a += &IntSeq::from("");
    assert_eq!(IntSeq::from("a"), a);
}

#[test]
fn int_seq_test_add6() {
    let mut a = IntSeq::from("");
    a += &IntSeq::from("b");
    assert_eq!(IntSeq::from("b"), a);
}

#[test]
fn int_seq_test_clone1() {
    let a = IntSeq::from("");
    assert_eq!(a, a.clone());
}

#[test]
fn int_seq_test_clone2() {
    let a = IntSeq::from("advrv");
    assert_eq!(a, a.clone());
}

#[test]
fn int_seq_test_clone3() {
    let a = IntSeq::from("Emoji ☺ 😂 🚀 😘 😈");
    assert_eq!(a, a.clone());
}

#[test]
fn test_literal1() {
    let a = IntSeq::from_literal(solomonoff::v::V::UNKNOWN, "\\n\\t\\r\\\\\\b\\f\\0");
    let a = a.unwrap();
    let mut exp = String::from("\n\t\r\\");
    exp.push(7 as char);
    exp.push(12 as char);
    exp.push(0 as char);
    assert_eq!(a.as_bytes(), exp.as_bytes());
}

#[test]
fn test_literal2() {
    let a = IntSeq::from_literal(
        solomonoff::v::V::UNKNOWN,
        "a\\n b \\t c \\r d \\\\ e \\b f \\f g \\0 h",
    );
    let a = a.unwrap();
    let mut exp = String::from("a\n b \t c \r d \\ e ");
    exp.push(7 as char);
    exp.push_str(" f ");
    exp.push(12 as char);
    exp.push_str(" g \0 h");
    assert_eq!(a.as_bytes(), exp.as_bytes());
}

#[test]
fn test_literal3() {
    let a = IntSeq::from_literal(
        solomonoff::v::V::UNKNOWN,
        "\\a\\n\\ b\\ \\t\\ \\c\\ \\r d \\\\ e \\b f \\f g \\0 h",
    );
    let a = a.unwrap();
    let mut exp = String::from("a\n b \t c \r d \\ e ");
    exp.push(7 as char);
    exp.push_str(" f ");
    exp.push(12 as char);
    exp.push_str(" g \0 h");
    assert_eq!(a.as_bytes(), exp.as_bytes());
}
