use garde::Error;
use garde::Path;
use garde::Pattern;
use garde::Report;

#[test]
fn report_select() {
    let mut report = Report::new();
    report.append(Path::new("a").join("b"), Error::new("lol"));
    report.append(
        Path::new("a").join("b").join("c"),
        Error::new("that seems wrong"),
    );
    report.append(Path::new("a").join("b").join("c"), Error::new("pog"));
    report.append(Path::new("array").join(0usize).join("c"), Error::new("pog"));

    assert_eq!(
        report.select(&Pattern::parse("a.b.c").unwrap()),
        [&Error::new("that seems wrong"), &Error::new("pog")]
    );

    assert_eq!(
        report.select(&Pattern::parse("array[0].c").unwrap()),
        [&Error::new("pog")]
    );
}

#[test]
fn select_is_a_prefix_query() {
    let mut report = Report::new();
    report.append(Path::new("a").join("b"), Error::new("lol"));
    report.append(
        Path::new("a").join("b").join("c"),
        Error::new("that seems wrong"),
    );
    report.append(Path::new("a").join("b").join("c"), Error::new("pog"));
    report.append(Path::new("array").join(0usize).join("c"), Error::new("pog"));

    assert_eq!(
        report.select(&Pattern::parse("a.b").unwrap()),
        [
            &Error::new("lol"),
            &Error::new("that seems wrong"),
            &Error::new("pog")
        ]
    );
    assert!(report.select(&Pattern::parse("a.b.c.d").unwrap()).is_empty());
    assert!(report.select(&Pattern::parse("z").unwrap()).is_empty());
}

#[test]
fn select_empty_pattern_yields_everything() {
    let mut report = Report::new();
    report.append(Path::new("a"), Error::new("one"));
    report.append(Path::new("b").join(1usize), Error::new("two"));
    report.append(Path::new("a"), Error::new("three"));

    assert_eq!(
        report.select(&Pattern::parse("").unwrap()),
        [&Error::new("one"), &Error::new("two"), &Error::new("three")]
    );
}

#[test]
fn select_distinguishes_key_and_index() {
    // A component joined from the text "0" is a key, not an index, so
    // the pattern token [0] must not select it.
    let mut report = Report::new();
    report.append(Path::new("array").join("0").join("c"), Error::new("keyed"));
    report.append(Path::new("array").join(0usize).join("c"), Error::new("indexed"));

    assert_eq!(
        report.select(&Pattern::parse("array[0].c").unwrap()),
        [&Error::new("indexed")]
    );
}

#[test]
fn select_skips_anonymous_roots() {
    let mut report = Report::new();
    report.append(Path::new(garde::NoKey).join("a").join("b"), Error::new("under a root"));
    report.append(Path::new("a").join(garde::NoKey).join("b"), Error::new("around a root"));

    assert_eq!(
        report.select(&Pattern::parse("a.b").unwrap()),
        [&Error::new("under a root"), &Error::new("around a root")]
    );
}

#[test]
fn pattern_grammar_is_checked() {
    assert!(Pattern::parse("a").is_some());
    assert!(Pattern::parse("a.b").is_some());
    assert!(Pattern::parse("a[0]").is_some());
    assert!(Pattern::parse("a[10].b_c[3]").is_some());
    assert!(Pattern::parse("_x").is_some());
    assert!(Pattern::parse("").is_some());

    assert!(Pattern::parse(".a").is_none());
    assert!(Pattern::parse("a.").is_none());
    assert!(Pattern::parse("a..b").is_none());
    assert!(Pattern::parse("[0]").is_none());
    assert!(Pattern::parse("a[]").is_none());
    assert!(Pattern::parse("a[07]").is_none());
    assert!(Pattern::parse("a[0").is_none());
    assert!(Pattern::parse("0a").is_none());
    assert!(Pattern::parse("a b").is_none());
}

#[test]
fn insertion_order_is_kept() {
    let mut report = Report::new();
    report.append(Path::new("z"), Error::new("first"));
    report.append(Path::new("a"), Error::new("second"));
    report.append(Path::new("z"), Error::new("third"));

    let entries = report.iter();
    assert_eq!(entries.len(), 3);
    assert_eq!(entries[0].0.to_string(), "z");
    assert_eq!(entries[0].1.message(), "first");
    assert_eq!(entries[1].0.to_string(), "a");
    assert_eq!(entries[1].1.message(), "second");
    assert_eq!(entries[2].0.to_string(), "z");
    assert_eq!(entries[2].1.message(), "third");
}

#[test]
fn report_display_lines() {
    let mut report = Report::new();
    assert!(report.is_empty());
    report.append(Path::new("a"), Error::new("x"));
    assert!(!report.is_empty());
    report.append(Path::new("b"), Error::new("y"));
    assert_eq!(report.to_string(), "a: x\nb: y\n");

    let mut one = Report::new();
    one.append(Path::new("a").join("b"), Error::new("oops"));
    assert_eq!(one.to_string(), "a.b: oops\n");

    assert_eq!(Report::new().to_string(), "");
}

fn movable<T: Send>() {}

#[test]
fn report_can_move_between_threads() {
    movable::<Report>();
    movable::<Path>();
    movable::<Error>();
}
