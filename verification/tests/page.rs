use bashman::page::{push_decimal, render};
use bashman::pkg::{Dependency, PackageName};
use bashman::version::Version;

fn dep(name: &str, version: &str, context: u8) -> Dependency {
    Dependency {
        name: PackageName::try_from(name.to_owned()).expect("Bad name."),
        version: Version::parse(version).expect("Bad version."),
        license: None,
        authors: Vec::new(),
        url: None,
        context,
    }
}

#[test]
fn numbers_in_decimal() {
    for (n, expected) in [
        (0_u64, "0"),
        (7, "7"),
        (10, "10"),
        (909, "909"),
        (1_000_000, "1000000"),
        (u64::MAX, "18446744073709551615"),
    ] {
        let mut out = "v".to_owned();
        push_decimal(&mut out, n);
        assert_eq!(out, format!("v{expected}"));
    }
}

#[test]
fn versions_as_written() {
    for raw in ["0.0.0", "1.2.3", "10.20.30-rc.1", "1.0.0+build.7", "1.0.0-alpha.1+b-5", "18446744073709551615.0.1"] {
        assert_eq!(Version::parse(raw).expect("Bad version.").text(), raw);
    }
}

#[test]
fn rows() {
    let mut d = dep("serde", "1.0.200", 0b0001_0101);
    assert_eq!(d.row(), "| **serde** | 1.0.200 |  |  |");

    d.license = Some("MIT OR Apache-2.0".to_owned());
    d.authors = vec!["[Jane](mailto:jane@example.com)".to_owned(), "Joe".to_owned(), "Jim".to_owned()];
    d.url = Some("https://github.com/serde-rs/serde".to_owned());
    assert_eq!(
        d.row(),
        "| [**serde**](https://github.com/serde-rs/serde) | 1.0.200 | [Jane](mailto:jane@example.com), Joe, and Jim | MIT OR Apache-2.0 |",
    );

    d.authors.truncate(2);
    d.context = 0b0010_1010;
    assert_eq!(
        d.row(),
        "| [_serde_](https://github.com/serde-rs/serde) ⚒️ | 1.0.200 | [Jane](mailto:jane@example.com) and Joe | MIT OR Apache-2.0 |",
    );

    d.url = None;
    d.authors.truncate(1);
    d.context = 0b0001_0111;
    assert_eq!(d.row(), "| **_serde_** | 1.0.200 | [Jane](mailto:jane@example.com) | MIT OR Apache-2.0 |");

    d.context = 0b0011_0100;
    assert_eq!(d.row(), "| serde | 1.0.200 | [Jane](mailto:jane@example.com) | MIT OR Apache-2.0 |");
}

#[test]
fn pages() {
    assert_eq!(
        render("app", "0.1.0", None, "2024-01-02 03:04:05", &Vec::new()),
        "# Project Dependencies\n    Package:   app\n    Version:   0.1.0\n    Generated: 2024-01-02 03:04:05 UTC\n\nThis project has no dependencies.\n",
    );

    // Direct dependencies only: no legend.
    let deps = vec![dep("a", "1.0.0", 0b0001_0101), dep("b", "2.0.0", 0b0001_0101)];
    assert_eq!(
        render("app", "0.1.0", Some("x86_64-unknown-linux-gnu"), "2024-01-02 03:04:05", &deps),
        "# Project Dependencies\n    Package:   app\n    Version:   0.1.0\n    Target:    x86_64-unknown-linux-gnu\n    Generated: 2024-01-02 03:04:05 UTC\n\n| Package | Version | Author(s) | License |\n| ---- | ---- | ---- | ---- |\n| **a** | 1.0.0 |  |  |\n| **b** | 2.0.0 |  |  |\n",
    );

    // Everything in the legend.
    let deps = vec![dep("a", "1.0.0", 0b0001_0101), dep("b", "2.0.0", 0b0010_0100), dep("c", "3.0.0", 0b0001_0110)];
    assert_eq!(
        render("app", "0.1.0", None, "now", &deps),
        "# Project Dependencies\n    Package:   app\n    Version:   0.1.0\n    Generated: now UTC\n\n| Package | Version | Author(s) | License |\n| ---- | ---- | ---- | ---- |\n| **a** | 1.0.0 |  |  |\n| b ⚒️ | 2.0.0 |  |  |\n| _c_ | 3.0.0 |  |  |\n\n### Legend\n\n* **Direct Dependency**\n* Child Dependency\n* _Optional Dependency_\n* ⚒️ Build-Only\n",
    );

    // A conditional dependency that does not stand last is not looked at.
    let deps = vec![dep("a", "1.0.0", 0b0001_0111), dep("b", "2.0.0", 0b0001_0101)];
    assert_eq!(
        render("app", "0.1.0", None, "now", &deps),
        "# Project Dependencies\n    Package:   app\n    Version:   0.1.0\n    Generated: now UTC\n\n| Package | Version | Author(s) | License |\n| ---- | ---- | ---- | ---- |\n| **_a_** | 1.0.0 |  |  |\n| **b** | 2.0.0 |  |  |\n",
    );

    // Build-only, direct.
    let deps = vec![dep("a", "1.0.0", 0b0010_0101)];
    assert_eq!(
        render("app", "0.1.0", None, "now", &deps),
        "# Project Dependencies\n    Package:   app\n    Version:   0.1.0\n    Generated: now UTC\n\n| Package | Version | Author(s) | License |\n| ---- | ---- | ---- | ---- |\n| **a** ⚒️ | 1.0.0 |  |  |\n\n### Legend\n\n* ⚒️ Build-Only\n",
    );
}
