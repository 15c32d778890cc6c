use lib::cache_control::CacheControl;

#[test]
fn parses_bare_and_valued_directives() {
    let cc = CacheControl::parse("no-cache, max-age=600, private");
    assert!(cc.has("no-cache"));
    assert!(cc.has("private"));
    assert_eq!(cc.max_age(), Some(600));
}

#[test]
fn is_case_insensitive_on_names() {
    let cc = CacheControl::parse("Max-Age=10, NO-STORE");
    assert!(cc.has("no-store"));
    assert_eq!(cc.max_age(), Some(10));
}

#[test]
fn parses_stale_while_revalidate() {
    let cc = CacheControl::parse("max-age=60, stale-while-revalidate=30");
    assert_eq!(cc.stale_while_revalidate(), Some(30));
}

#[test]
fn empty_header_has_no_directives() {
    let cc = CacheControl::parse("");
    assert!(cc.directives().is_empty());
    let cc = CacheControl::parse(" ,  , ");
    assert!(cc.directives().is_empty());
}

#[test]
fn directives_keep_their_order_and_values() {
    let cc = CacheControl::parse(" Public ,max-age = \"120\" , x=, =y");
    let ds = cc.directives();
    assert_eq!(ds.len(), 4);
    assert_eq!(ds[0].name, "public");
    assert_eq!(ds[0].value, None);
    assert_eq!(ds[1].name, "max-age");
    assert_eq!(ds[1].value.as_deref(), Some("120"));
    assert_eq!(ds[2].name, "x");
    assert_eq!(ds[2].value.as_deref(), Some(""));
    assert_eq!(ds[3].name, "");
    assert_eq!(ds[3].value.as_deref(), Some("y"));
    assert_eq!(cc.max_age(), Some(120));
}

#[test]
fn value_keeps_what_stands_after_the_first_equals_sign() {
    let cc = CacheControl::parse("ext=a=b");
    assert_eq!(cc.value_of("ext"), Some("a=b"));
}

#[test]
fn quotes_are_stripped_but_inner_spaces_kept() {
    let cc = CacheControl::parse("private=\"\" , ext=\"\"\" a \"\"");
    assert_eq!(cc.value_of("private"), Some(""));
    assert_eq!(cc.value_of("ext"), Some(" a "));
}

#[test]
fn unicode_whitespace_is_trimmed() {
    let cc = CacheControl::parse("\u{a0}No-Store\u{3000},\tmax-age=5\u{2009}");
    assert!(cc.has("no-store"));
    assert_eq!(cc.max_age(), Some(5));
}

#[test]
fn first_directive_of_a_name_wins() {
    let cc = CacheControl::parse("max-age=1, max-age=2");
    assert_eq!(cc.max_age(), Some(1));
    let cc = CacheControl::parse("max-age, max-age=5");
    assert!(cc.has("max-age"));
    assert_eq!(cc.value_of("max-age"), None);
    assert_eq!(cc.max_age(), None);
}

#[test]
fn has_is_exact_after_lowercasing() {
    let cc = CacheControl::parse("no-store");
    assert!(!cc.has("NO-STORE"));
    assert!(!cc.has("no-stor"));
    assert!(!cc.has("no-store "));
}

#[test]
fn max_age_numbers() {
    assert_eq!(CacheControl::parse("max-age=+5").max_age(), Some(5));
    assert_eq!(CacheControl::parse("max-age=007").max_age(), Some(7));
    assert_eq!(CacheControl::parse("max-age=-5").max_age(), None);
    assert_eq!(CacheControl::parse("max-age=+").max_age(), None);
    assert_eq!(CacheControl::parse("max-age=").max_age(), None);
    assert_eq!(CacheControl::parse("max-age=12s").max_age(), None);
    assert_eq!(CacheControl::parse("max-age=1 2").max_age(), None);
    assert_eq!(
        CacheControl::parse("max-age=18446744073709551615").max_age(),
        Some(u64::MAX)
    );
    assert_eq!(CacheControl::parse("max-age=18446744073709551616").max_age(), None);
    assert_eq!(CacheControl::parse("private").max_age(), None);
    assert_eq!(CacheControl::parse("max-age=\"60\"").max_age(), Some(60));
}

#[test]
fn stale_while_revalidate_absent() {
    let cc = CacheControl::parse("max-age=60");
    assert_eq!(cc.stale_while_revalidate(), None);
}

#[test]
fn default_and_clone() {
    let cc = CacheControl::default();
    assert!(cc.directives().is_empty());
    let cc = CacheControl::parse("a=1");
    let d = cc.directives()[0].clone();
    assert_eq!(d.name, "a");
    assert_eq!(d.value.as_deref(), Some("1"));
}

#[test]
fn parsed_names_are_lowercase() {
    let cc = CacheControl::parse("MAX-AGE=1, Ä-Name=2, No-Cache");
    for d in cc.directives() {
        assert_eq!(d.name, d.name.to_ascii_lowercase());
    }
    assert_eq!(cc.directives()[1].name, "Ä-name");
}

#[test]
fn written_directive_reads_back() {
    for (name, value) in [("max-age", "60"), ("x", ""), ("ext", "a=b c"), ("é", "ü")] {
        let cc = CacheControl::parse(&format!("{name}={value}"));
        assert_eq!(cc.directives().len(), 1);
        assert_eq!(cc.directives()[0].name, name);
        assert_eq!(cc.directives()[0].value.as_deref(), Some(value));
        let cc = CacheControl::parse(name);
        assert_eq!(cc.directives().len(), 1);
        assert_eq!(cc.directives()[0].name, name);
        assert_eq!(cc.directives()[0].value, None);
    }
}

#[test]
fn clone_keeps_the_directives() {
    let cc = CacheControl::parse("no-cache, max-age=5");
    let copy = cc.clone();
    assert!(copy.has("no-cache"));
    assert_eq!(copy.max_age(), Some(5));
    assert_eq!(copy.directives().len(), 2);
}
