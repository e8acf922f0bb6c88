use tw_migrate::arbitrary::{encode, encode_value};


#[test]
fn distinguishes_spaces_from_literal_underscores() {
    assert_eq!(encode("Open Sans"), "Open_Sans");
    assert_eq!(encode("Open_Sans"), "Open\\_Sans");
    assert_eq!(
        encode(" var(--font_key, Open Sans) "),
        "var(--font\\_key,_Open_Sans)"
    );
}

#[test]
fn encodes_quoted_strings() {
    assert_eq!(
        encode_value("\"My Font\", sans-serif").as_deref(),
        Some("\"My_Font\",_sans-serif")
    );
    assert_eq!(encode_value("\"a_b\"").as_deref(), Some("\"a\\_b\""));
    assert_eq!(encode_value("'a b'").as_deref(), Some("'a_b'"));
    assert_eq!(encode_value("\"a;b\"").as_deref(), Some("\"a;b\""));
    assert_eq!(
        encode_value("\"say \\\"hi\\\"\"").as_deref(),
        Some("\"say_\\\"hi\\\"\"")
    );
}

#[test]
fn preserves_url_bodies_verbatim() {
    assert_eq!(
        encode_value("url(\"a_b.png\")").as_deref(),
        Some("url(\"a_b.png\")")
    );
    assert_eq!(
        encode_value("url(a_b.png) no-repeat").as_deref(),
        Some("url(a_b.png)_no-repeat")
    );
    assert_eq!(
        encode_value("image_url(a_b.png)").as_deref(),
        Some("image\\_url(a_b.png)")
    );
}

#[test]
fn encodes_nested_functions_and_bracketed_line_names() {
    assert_eq!(
        encode_value("calc(min(100%, 50vw))").as_deref(),
        Some("calc(min(100%,_50vw))")
    );
    assert_eq!(
        encode_value("[full-start] 1fr").as_deref(),
        Some("[full-start]_1fr")
    );
    assert_eq!(
        encode_value(" var(--font_key, Open Sans) ").as_deref(),
        Some("var(--font\\_key,_Open_Sans)")
    );
}

#[test]
fn preserves_hex_escape_terminators() {
    // `\41  B` is the ident sequence "A B": the first space is consumed
    // by the escape as its terminator, so it must round-trip as its own
    // underscore (Tailwind decodes each `_` to one space).
    assert_eq!(encode_value("\\41  B").as_deref(), Some("\\41__B"));
    assert_eq!(encode_value("\\41 B").as_deref(), Some("\\41_B"));
    assert_eq!(encode_value("\\4B  C").as_deref(), Some("\\4B__C"));
    assert_eq!(encode_value("\\41 ").as_deref(), Some("\\41_"));
    // A hex escape consumes at most six digits: the seventh character is
    // an ordinary ident character and the space a plain separator.
    assert_eq!(encode_value("\\0000411 B").as_deref(), Some("\\0000411_B"));
}

#[test]
fn treats_non_css_whitespace_as_ident_code_points() {
    // NBSP is a CSS ident code point, not whitespace; Tailwind passes it
    // through candidates verbatim.
    assert_eq!(encode_value("A\u{a0}B").as_deref(), Some("A\u{a0}B"));
    assert_eq!(encode_value("\"A\u{a0}B\"").as_deref(), Some("\"A\u{a0}B\""));
    // NBSP glues to a following ident, so this is not a `url()` function
    // and Tailwind decodes underscores inside its parentheses.
    assert_eq!(
        encode_value("A\u{a0}url(x y)").as_deref(),
        Some("A\u{a0}url(x_y)")
    );
    assert_eq!(encode("A\u{a0}B"), "A\u{a0}B");
}

#[test]
fn rejects_unrepresentable_values() {
    // Spaces inside url() cannot be represented: Tailwind keeps url()
    // bodies verbatim and a class attribute cannot hold a literal space.
    assert_eq!(encode_value("url(\"a b.png\")"), None);
    assert_eq!(encode_value("url( a.png )"), None);
    assert_eq!(encode_value("\"unterminated"), None);
    assert_eq!(encode_value("100px; color: red"), None);
    assert_eq!(encode_value("calc(100% - (1rem)"), None);
    assert_eq!(encode_value("calc(100%))"), None);
    assert_eq!(encode_value("[full-start 1fr"), None);
    assert_eq!(encode_value("url(a(b.png)"), None);
}

#[test]
fn both_encoders_agree_on_plain_values() {
    for value in ["calc(1px + (2px * 3))", "[full-start] 1fr", " a_b  c ", "min(100%, 50vw)", ""] {
        assert_eq!(encode_value(value), Some(encode(value)), "{value}");
    }
    for value in ["a; b", "calc(1px", "a)", "[a", "a]"] {
        assert_eq!(encode_value(value), None, "{value}");
    }
    // Each kind closes for itself.
    assert_eq!(encode_value("([)]"), Some(encode("([)]")));
}
