use abi_stable::tagging::{Tag, TagEntry};

fn entry(key: &str, value: Tag) -> TagEntry {
    TagEntry { key: key.to_string(), value }
}

fn sample() -> Tag {
    Tag::Dict(vec![
        entry("bound", Tag::Int(32)),
        entry("names", Tag::List(vec![Tag::Str("a".to_string()), Tag::Bool(true)])),
    ])
}

#[test]
fn get_finds_the_first_entry_under_a_key() {
    let t = Tag::Dict(vec![entry("k", Tag::Int(1)), entry("k", Tag::Int(2))]);
    assert!(matches!(t.get(&"k".to_string()), Some(Tag::Int(1))));
    assert!(t.get(&"missing".to_string()).is_none());
    assert!(Tag::Int(3).get(&"k".to_string()).is_none());
}

#[test]
fn tag_is_compatible_with_itself() {
    assert!(Tag::is_compatible(&sample(), &sample()));
    assert!(Tag::is_compatible(&Tag::Null, &Tag::Null));
}

#[test]
fn extra_found_keys_are_tolerated() {
    let mut found = vec![entry("extra", Tag::Null)];
    if let Tag::Dict(es) = sample() {
        found.extend(es);
    }
    assert!(Tag::is_compatible(&sample(), &Tag::Dict(found)));
}

#[test]
fn missing_expected_key_is_incompatible() {
    let found = Tag::Dict(vec![entry("bound", Tag::Int(32))]);
    assert!(!Tag::is_compatible(&sample(), &found));
    assert!(Tag::is_compatible(&found, &sample()));
}

#[test]
fn scalars_and_lists_must_match() {
    assert!(!Tag::is_compatible(&Tag::Int(1), &Tag::Int(2)));
    assert!(!Tag::is_compatible(&Tag::Int(1), &Tag::Bool(true)));
    assert!(!Tag::is_compatible(&Tag::Str("a".to_string()), &Tag::Str("b".to_string())));
    let short = Tag::List(vec![Tag::Int(1)]);
    let long = Tag::List(vec![Tag::Int(1), Tag::Int(2)]);
    assert!(!Tag::is_compatible(&short, &long));
    let nested_bad =
        Tag::Dict(vec![entry("names", Tag::List(vec![Tag::Str("a".to_string()), Tag::Bool(false)]))]);
    let nested_expected =
        Tag::Dict(vec![entry("names", Tag::List(vec![Tag::Str("a".to_string()), Tag::Bool(true)]))]);
    assert!(!Tag::is_compatible(&nested_expected, &nested_bad));
}
