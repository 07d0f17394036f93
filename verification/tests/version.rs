use bashman::order::Order;
use bashman::version::{tag_key_of, Version};

fn order_of(a: &str, b: &str) -> Order {
    let x = Version::parse(a).expect("Bad version.");
    let y = Version::parse(b).expect("Bad version.");
    x.compare(&y)
}

#[test]
fn parses_the_parts() {
    let v = Version::parse("1.22.333-alpha.1+build.5").expect("Bad version.");
    assert_eq!(v.major, 1);
    assert_eq!(v.minor, 22);
    assert_eq!(v.patch, 333);
    assert_eq!(v.pre, "alpha.1");
    assert_eq!(v.build, "build.5");

    let v = Version::parse("0.6.3").expect("Bad version.");
    assert_eq!((v.major, v.minor, v.patch), (0, 6, 3));
    assert_eq!(v.pre, "");
    assert_eq!(v.build, "");
}

#[test]
fn refuses_what_is_no_version() {
    assert!(Version::parse("").is_none());
    assert!(Version::parse("1.2").is_none());
    assert!(Version::parse("v1.2.3").is_none());
    assert!(Version::parse("1.2.3-").is_none());
    assert!(Version::parse("01.2.3").is_none());
    assert!(Version::parse("1.2.3 ").is_none());
}

#[test]
fn numbers_order_as_numbers() {
    assert_eq!(order_of("1.0.0", "1.0.0"), Order::Equal);
    assert_eq!(order_of("9.0.0", "10.0.0"), Order::Less);
    assert_eq!(order_of("1.10.0", "1.9.0"), Order::Greater);
    assert_eq!(order_of("1.0.9", "1.0.10"), Order::Less);
    assert_eq!(order_of("2.0.0", "1.99.99"), Order::Greater);
}

#[test]
fn tags_order_by_precedence() {
    let chain = [
        "1.0.0-alpha",
        "1.0.0-alpha.1",
        "1.0.0-alpha.beta",
        "1.0.0-beta",
        "1.0.0-beta.2",
        "1.0.0-beta.11",
        "1.0.0-rc.1",
        "1.0.0",
    ];
    for i in 0..chain.len() {
        for j in 0..chain.len() {
            let expected = if i < j {
                Order::Less
            } else if i == j {
                Order::Equal
            } else {
                Order::Greater
            };
            assert_eq!(order_of(chain[i], chain[j]), expected, "{} / {}", chain[i], chain[j]);
        }
    }
    assert_eq!(order_of("1.0.0-pre12", "1.0.0-pre8"), Order::Less);
    assert_eq!(order_of("1.0.0-pre.1", "1.0.0-pre.x"), Order::Less);
}

#[test]
fn keys_of_tags() {
    assert_eq!(tag_key_of("12", false), [1, 2, 50, 51]);
    assert_eq!(tag_key_of("a.7", false), [2, 98, 0, 1, 1, 56]);
    assert_eq!(tag_key_of("", false), [1, 0]);
    assert_eq!(tag_key_of("007", true), [1, 1, 56, 3]);
    assert_eq!(tag_key_of("0", true), [1, 0, 1]);
    assert_eq!(tag_key_of("x-1", true), [2, 121, 46, 50, 0]);
}

#[test]
fn agrees_with_semver() {
    let all = [
        "0.0.0",
        "0.0.1",
        "0.1.0",
        "1.0.0",
        "1.0.0-0",
        "1.0.0-1",
        "1.0.0-10",
        "1.0.0-2",
        "1.0.0-a",
        "1.0.0-a.b",
        "1.0.0-a.1",
        "1.0.0-a-b",
        "1.0.0-ab",
        "1.0.0-A",
        "1.0.0-alpha.10",
        "1.0.0-alpha.9",
        "1.0.0-alpha.9a",
        "1.0.0-rc.1",
        "1.0.0-rc.1.0",
        "1.0.0+0",
        "1.0.0+00",
        "1.0.0+1",
        "1.0.0+01",
        "1.0.0+001",
        "1.0.0+2",
        "1.0.0+10",
        "1.0.0+a",
        "1.0.0+a.1",
        "1.0.0+a.a",
        "1.0.0+1.a",
        "1.0.0-rc.1+5",
        "1.0.0-rc.1+05",
        "1.0.0-rc.1+build",
        "1.0.1-0",
        "1.2.3",
        "10.0.0",
        "2.0.0",
        "18446744073709551615.0.0",
    ];
    for a in all {
        for b in all {
            let expected = match semver::Version::parse(a)
                .expect("Bad version.")
                .cmp(&semver::Version::parse(b).expect("Bad version."))
            {
                std::cmp::Ordering::Less => Order::Less,
                std::cmp::Ordering::Equal => Order::Equal,
                std::cmp::Ordering::Greater => Order::Greater,
            };
            assert_eq!(order_of(a, b), expected, "{a} / {b}");
        }
    }
}
