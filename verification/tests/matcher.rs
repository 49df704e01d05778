use accio::listing::{scan_listing, Entry};
use accio::matcher;
use accio::matcher::fold_char;

#[test]
fn case_of_ascii_letters_is_ignored() {
    assert!(matcher::matches("foo.TXT", "Foo.txt"));
    assert!(matcher::matches("Foo.txt", "foo.TXT"));
    assert!(!matcher::matches("Foo.text", "Foo.txt"));
}

#[test]
fn match_is_exact_otherwise() {
    assert!(matcher::matches("", ""));
    assert!(!matcher::matches("", "a"));
    assert!(!matcher::matches("a", ""));
    assert!(!matcher::matches("a.txt", "a.tx"));
    assert!(!matcher::matches("a.tx", "a.txt"));
    assert!(!matcher::matches("a_txt", "a.txt"));
    assert!(!matcher::matches("xa.txt", "a.txt"));
    assert!(matcher::matches("README", "readme"));
    assert!(matcher::matches("a1-b2", "A1-B2"));
}

#[test]
fn letters_outside_ascii_keep_their_case() {
    assert!(matcher::matches("caf\u{e9}", "CAF\u{e9}"));
    assert!(!matcher::matches("caf\u{e9}", "caf\u{c9}"));
    assert!(!matcher::matches("\u{3b1}", "\u{391}"));
    assert!(matcher::matches("\u{65e5}\u{672c}.TXT", "\u{65e5}\u{672c}.txt"));
}

#[test]
fn characters_next_to_the_letters_are_not_folded() {
    assert!(!matcher::matches("@", "`"));
    assert!(!matcher::matches("[", "{"));
    assert!(matcher::matches("Z", "z"));
    assert!(matcher::matches("A", "a"));
}

#[test]
fn fold_maps_capitals_to_small_letters() {
    assert_eq!(fold_char('A'), 'a' as u32);
    assert_eq!(fold_char('Z'), 'z' as u32);
    assert_eq!(fold_char('m'), 'm' as u32);
    assert_eq!(fold_char('@'), '@' as u32);
    assert_eq!(fold_char('['), '[' as u32);
    assert_eq!(fold_char('\u{c9}'), 0xc9);
}

#[test]
fn scan_keeps_listing_order_in_both_parts() {
    let entries = vec![
        Entry::Dir { path: "r/z".to_string() },
        Entry::File { name: "N".to_string(), path: "r/N".to_string() },
        Entry::File { name: "other".to_string(), path: "r/other".to_string() },
        Entry::Dir { path: "r/n".to_string() },
        Entry::File { name: "n".to_string(), path: "r/n2".to_string() },
        Entry::Dir { path: "r/a".to_string() },
    ];
    let scan = scan_listing(&entries, "n");
    assert_eq!(scan.matched, vec!["r/N".to_string(), "r/n2".to_string()]);
    assert_eq!(scan.subdirs, vec!["r/z".to_string(), "r/n".to_string(), "r/a".to_string()]);
}

#[test]
fn scan_of_empty_listing_is_empty() {
    let scan = scan_listing(&Vec::new(), "n");
    assert!(scan.matched.is_empty());
    assert!(scan.subdirs.is_empty());
}
