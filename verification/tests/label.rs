use std::cmp::Ordering;
use std::collections::hash_map::DefaultHasher;
use std::hash::{Hash, Hasher};

use timings::Label;

fn hash_of(label: &Label) -> u64 {
    let mut hasher = DefaultHasher::new();
    label.hash(&mut hasher);
    hasher.finish()
}

#[test]
fn labels_compare_by_text() {
    assert!(Label::from("a") == Label::from(String::from("a")));
    assert!(Label::from("a") != Label::from("b"));
    assert!(Label::from("") == Label::from(String::new()));
    assert!(Label::from("a") != Label::from("ab"));
}

#[test]
fn labels_are_ordered_by_text() {
    let a = Label::from("a");
    let ab = Label::from(String::from("ab"));
    let b = Label::from("b");
    assert_eq!(a.partial_cmp(&ab), Some(Ordering::Less));
    assert_eq!(ab.partial_cmp(&b), Some(Ordering::Less));
    assert_eq!(a.partial_cmp(&b), Some(Ordering::Less));
    assert_eq!(b.partial_cmp(&a), Some(Ordering::Greater));
    assert_eq!(
        b.partial_cmp(&Label::from(String::from("b"))),
        Some(Ordering::Equal)
    );
    assert!(a < b);
}

#[test]
fn labels_are_ordered_as_strings_are() {
    let texts = ["", "a", "A", "z", "\u{7f}", "\u{80}", "\u{e9}", "\u{ffff}", "\u{10000}", "aa"];
    for x in texts {
        for y in texts {
            assert_eq!(
                Label::from(x).partial_cmp(&Label::from(String::from(y))),
                Some(x.cmp(y))
            );
            assert_eq!(Label::from(x) == Label::from(y), x == y);
        }
    }
}

#[test]
fn equal_labels_hash_alike() {
    assert_eq!(
        hash_of(&Label::from("metric")),
        hash_of(&Label::from(String::from("metric")))
    );
    let mut bytes = DefaultHasher::new();
    bytes.write(b"metric");
    assert_eq!(hash_of(&Label::from("metric")), bytes.finish());
    assert_ne!(hash_of(&Label::from("metric")), hash_of(&Label::from("other")));
}

#[test]
fn labels_give_their_text() {
    let fixed = Label::from("fixed");
    let owned = Label::from(format!("{}-{:02}t", "lock", 4));
    assert!(matches!(fixed, Label::Static("fixed")));
    assert!(matches!(owned, Label::Owned(_)));
    assert_eq!(fixed.to_string(), "fixed");
    assert_eq!(owned.to_string(), "lock-04t");
    assert_eq!(&*owned, "lock-04t");
    assert_eq!(owned.len(), 8);
    assert!(owned.clone() == owned);
}

#[test]
fn labels_are_quoted_for_debugging() {
    assert_eq!(Label::from("plain").debug_string(), "\"plain\"");
    assert_eq!(
        Label::from(String::from("tab\t\"quote\"")).debug_string(),
        "\"tab\\t\\\"quote\\\"\""
    );
}

#[test]
fn labels_hash_as_the_bytes_of_their_text() {
    assert_eq!(Label::from("a\u{e9}").hashed_bytes(), [0x61, 0xc3, 0xa9]);
    assert_eq!(
        Label::from(String::from("ab")).hashed_bytes(),
        Label::from("ab").hashed_bytes()
    );
}
