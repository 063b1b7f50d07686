use garde::Error;
use garde::Kind;
use garde::NoKey;
use garde::Path;
use std::collections::hash_map::DefaultHasher;
use std::hash::Hash;
use std::hash::Hasher;

#[test]
fn path_join() {
    let path = Path::new("a").join("b").join("c");
    assert_eq!(path.to_string(), "a.b.c");
}

#[test]
fn empty_path_renders_empty() {
    assert_eq!(Path::empty().to_string(), "");
    assert_eq!(Path::empty().len(), 0);
    assert!(Path::empty().is_empty());
}

#[test]
fn single_component_rendering() {
    assert_eq!(Path::new("a").to_string(), "a");
    assert_eq!(Path::new(0usize).to_string(), "[0]");
    assert_eq!(Path::new(NoKey).to_string(), "");
    assert_eq!(Path::new(String::from("field")).to_string(), "field");
}

#[test]
fn index_rendering() {
    let path = Path::new("xs").join(0usize).join("c");
    assert_eq!(path.to_string(), "xs[0].c");
}

#[test]
fn multi_digit_index_rendering() {
    assert_eq!(Path::new(12345usize).to_string(), "[12345]");
    assert_eq!(Path::new("v").join(907usize).to_string(), "v[907]");
}

#[test]
fn no_key_root_is_skipped() {
    assert_eq!(Path::new(NoKey).join("a").to_string(), "a");
    assert_eq!(Path::new(NoKey).join("a").join("b").to_string(), "a.b");
    assert_eq!(Path::new(NoKey).join(0usize).to_string(), "[0]");
}

#[test]
fn no_key_in_the_middle_adds_no_separator() {
    assert_eq!(Path::new("a").join(NoKey).to_string(), "a");
    assert_eq!(Path::new("a").join(NoKey).join("b").to_string(), "a.b");
    assert_eq!(Path::new(NoKey).join(NoKey).to_string(), "");
}

#[test]
fn length_grows_by_one() {
    let p0 = Path::empty();
    let p1 = p0.join("a");
    let p2 = p1.join(3usize);
    let p3 = p2.join(NoKey);
    assert_eq!(p0.len(), 0);
    assert_eq!(p1.len(), p0.len() + 1);
    assert_eq!(p2.len(), p1.len() + 1);
    assert_eq!(p3.len(), p2.len() + 1);
    let scenario = Path::new("a").join("b").join("c");
    assert_eq!(scenario.len(), 3);
}

#[test]
fn join_leaves_the_old_path_unchanged() {
    let p = Path::new("a").join("b");
    let rendered_before = p.to_string();
    let q = p.join("c");
    assert_eq!(p.to_string(), rendered_before);
    assert_eq!(p.len(), 2);
    assert_eq!(q.to_string(), "a.b.c");
}

#[test]
fn equality_ignores_sharing_topology() {
    let shared = Path::new("a").join("b");
    let q = shared.join("c");
    let fresh = Path::new("a").join("b").join("c");
    assert!(q == fresh);
    assert!(shared == Path::new("a").join("b"));
    assert!(q != shared.join("d"));
    assert!(Path::new("a") != Path::new(0usize));

    let mut h1 = DefaultHasher::new();
    q.hash(&mut h1);
    let mut h2 = DefaultHasher::new();
    fresh.hash(&mut h2);
    assert_eq!(h1.finish(), h2.finish());
}

#[test]
fn key_and_index_with_equal_text_differ() {
    // Both render as "0" when isolated, yet the paths compare unequal.
    let key = Path::new("a").join("0");
    let index = Path::new("a").join(0usize);
    assert!(key != index);
    assert_eq!(Path::new("0").to_string(), "0");
    assert_eq!(Path::new(0usize).to_string(), "[0]");
}

#[test]
fn clone_preserves_value() {
    let p = Path::new("a").join(7usize);
    let c = p.clone();
    assert!(p == c);
    assert_eq!(c.to_string(), "a[7]");
}

#[test]
fn components_are_root_first() {
    let p = Path::new(NoKey).join("a").join(2usize);
    let comps = p.components();
    assert_eq!(comps.len(), 3);
    assert_eq!(comps[0].0, Kind::Anonymous);
    assert_eq!(comps[0].1, "");
    assert_eq!(comps[1].0, Kind::Key);
    assert_eq!(comps[1].1, "a");
    assert_eq!(comps[2].0, Kind::Index);
    assert_eq!(comps[2].1, "2");
}

#[test]
fn reference_components_inherit_the_kind() {
    let name = String::from("b");
    let p = Path::new(&"a").join(&name).join(&5usize);
    assert_eq!(p.to_string(), "a.b[5]");
}

#[test]
fn cow_components_are_keys() {
    let borrowed: std::borrow::Cow<'_, str> = std::borrow::Cow::Borrowed("k");
    let owned: std::borrow::Cow<'_, str> = std::borrow::Cow::Owned(String::from("v"));
    assert_eq!(Path::new(borrowed).join(owned).to_string(), "k.v");
}

#[test]
fn error_holds_its_message() {
    let e = Error::new("boom");
    assert_eq!(e.message(), "boom");
    assert_eq!(e.to_string(), "boom");
    assert!(e == Error::new("boom"));
    assert!(e != Error::new("bang"));
    assert!(e == e.clone());
}

#[test]
fn deep_paths_stay_cheap_to_extend() {
    let mut p = Path::new("root");
    for i in 0..1000usize {
        p = p.join(i);
    }
    assert_eq!(p.len(), 1001);
    let s = p.to_string();
    assert!(s.starts_with("root[0][1]["));
    assert!(s.ends_with("[998][999]"));
}

#[test]
fn error_ordering_is_lexicographic() {
    assert!(Error::new("a") < Error::new("b"));
    assert!(Error::new("a") < Error::new("ab"));
    assert!(Error::new("b") > Error::new("ab"));
    assert_eq!(
        Error::new("x").partial_cmp(&Error::new("x")),
        Some(std::cmp::Ordering::Equal)
    );
}
