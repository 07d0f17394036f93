use bashman::author::nice_author;
use bashman::text::{esc_markdown, normalize_string, strip_markdown};

#[test]
fn t_strip_markdown() {
    let mut raw: String = r" H(E)L[L]O <W>O|RLD |".to_string();
    strip_markdown(&mut raw);
    assert_eq!(raw, "HELLO WORLD");
}

#[test]
fn t_esc_markdown() {
    let mut buf = String::new();
    for (raw, expected) in [
        ("I`m #1!", "I&#96;m &#35;1!"),
        ("### Headline", "&#35;&#35;&#35; Headline"),
        ("((<_>))", "((&lt;&#95;&gt;))"),
        ("#[On]* | *[Off]#", "&#35;&#91;On&#93;&#42; &#124; &#42;&#91;Off&#93;&#35;"),
        ("Up^", "Up&#94;"),
        ("Crook`d~~", "Crook&#96;d&#126;&#126;"),
        ("hello world", "hello world"),
    ] {
        raw.clone_into(&mut buf);
        esc_markdown(&mut buf);
        assert_eq!(buf, expected);
    }
}

#[test]
fn t_nice_author() {
    let mut author = String::new();
    for (raw, expected) in [
        (" <", ""),
        ("Josh  <USER@♥.com>", "[Josh](mailto:user@xn--g6h.com)"),
        ("<USER@♥.com>", "<user@xn--g6h.com>"),
        ("The\tConsortium", "The Consortium"),
        ("Björk <localhost>", "Björk"),
    ] {
        raw.clone_into(&mut author);
        nice_author(&mut author);
        assert_eq!(author, expected);
    }
}

#[test]
fn t_normalize_string() {
    let mut buf = String::new();

    for (raw, expected) in [
        ("Björk", "Björk"),
        (" Björk\t\n", "Björk"),
        ("hello\tB\0j\x1börk", "hello Björk"),
        (" \0 ", ""),
    ] {
        raw.clone_into(&mut buf);
        normalize_string(&mut buf);
        assert_eq!(buf, expected);
    }
}
