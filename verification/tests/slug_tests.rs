use blink::slug::{
    export_filename, export_stem_of, generate_slug, generate_unique_slug, sanitize_filename,
    slug_from_lowercase, slug_from_uuid_filename, slug_with_lowercase, unique_from,
    uuid_from_slug,
};

#[test]
fn test_generate_slug() {
    assert_eq!(generate_slug("Hello World"), "hello-world");
    assert_eq!(generate_slug("Test  Multiple   Spaces"), "test-multiple-spaces");
    assert_eq!(generate_slug("Special!@#$%^&*()Characters"), "special-characters");
    assert_eq!(generate_slug("Mix123Numbers"), "mix123numbers");
    assert_eq!(generate_slug("UPPERCASE"), "uppercase");
    assert_eq!(generate_slug(""), "");
}

#[test]
fn test_generate_unique_slug() {
    let mut existing = Vec::new();
    existing.push("hello-world".to_string());
    existing.push("hello-world-2".to_string());

    assert_eq!(generate_unique_slug("Hello World", &existing), "hello-world-3");
    assert_eq!(generate_unique_slug("New Title", &existing), "new-title");
}

#[test]
fn test_slug_generation() {
    assert_eq!(generate_slug("Hello World"), "hello-world");
    assert_eq!(generate_slug("Test  Multiple   Spaces"), "test-multiple-spaces");
    assert_eq!(generate_slug("Special!@#$%^&*()Characters"), "special-characters");
    assert_eq!(generate_slug("Mix123Numbers"), "mix123numbers");
    assert_eq!(generate_slug("UPPERCASE"), "uppercase");
    assert_eq!(generate_slug(""), "");

    let mut existing = Vec::new();
    existing.push("hello-world".to_string());
    existing.push("hello-world-2".to_string());

    assert_eq!(generate_unique_slug("Hello World", &existing), "hello-world-3");
    assert_eq!(generate_unique_slug("New Title", &existing), "new-title");
}

#[test]
fn test_deterministic_slugs() {
    let title = "My Amazing Note Title!";
    let slug1 = generate_slug(title);
    let slug2 = generate_slug(title);
    assert_eq!(slug1, slug2);
    assert_eq!(slug1, "my-amazing-note-title");
}

#[test]
fn test_deterministic_uuid() {
    let slug = "my-awesome-note";
    let uuid1 = uuid_from_slug(slug);
    let uuid2 = uuid_from_slug(slug);

    assert_eq!(uuid1, uuid2);
    assert!(uuid::Uuid::parse_str(&uuid1).is_ok());
}

#[test]
fn test_different_slugs_different_uuids() {
    let uuid1 = uuid_from_slug("note-one");
    let uuid2 = uuid_from_slug("note-two");

    assert_ne!(uuid1, uuid2);
}

#[test]
fn uuid_from_slug_is_version_five_in_the_dns_namespace() {
    assert_eq!(uuid_from_slug("example.org"), "aad03681-8b63-5304-89e0-8ca8f49461b5");
    assert_eq!(uuid_from_slug("rust-lang.org"), "c66bbb60-d62e-5f17-a399-3a0bd237c503");
    let by_crate = uuid::Uuid::new_v5(&uuid::Uuid::NAMESPACE_DNS, b"my-awesome-note").to_string();
    assert_eq!(uuid_from_slug("my-awesome-note"), by_crate);
}

#[test]
fn slug_of_titles_without_letters() {
    assert_eq!(generate_slug("!!!"), "untitled");
    assert_eq!(generate_slug("   "), "");
    assert_eq!(generate_slug(" - "), "untitled");
    assert_eq!(generate_slug("--a--b--"), "a-b");
    assert_eq!(generate_slug("  Trim Me  "), "trim-me");
    assert_eq!(generate_slug("snake_case_title"), "snake-case-title");
}

#[test]
fn slug_follows_unicode_lower_case() {
    // The Kelvin sign lowers to an ASCII k; an accented capital lowers to a
    // letter that is no slug character.
    assert_eq!(generate_slug("\u{212a}elvin"), "kelvin");
    assert_eq!(generate_slug("\u{c9}cole"), "cole");
    assert_eq!(generate_slug("a\u{c9}b"), "a-b");
}

#[test]
fn slug_from_lowercase_joins_parts() {
    assert_eq!(slug_from_lowercase("a  b"), "a-b");
    assert_eq!(slug_from_lowercase("  a"), "a");
    assert_eq!(slug_from_lowercase("a  "), "a");
    assert_eq!(slug_from_lowercase(""), "");
    assert_eq!(slug_from_lowercase("ABC"), "");
    assert_eq!(slug_from_lowercase("x9-y8_z7"), "x9-y8-z7");
}

#[test]
fn unique_slug_counts_from_two() {
    let none: Vec<String> = Vec::new();
    assert_eq!(generate_unique_slug("Note", &none), "note");
    let one = vec!["note".to_string()];
    assert_eq!(generate_unique_slug("Note", &one), "note-2");
    let gap = vec!["note".to_string(), "note-3".to_string()];
    assert_eq!(generate_unique_slug("Note", &gap), "note-2");
    let mut many = vec!["note".to_string()];
    for k in 2..12 {
        many.push(format!("note-{}", k));
    }
    assert_eq!(generate_unique_slug("Note", &many), "note-12");
}

#[test]
fn slug_from_uuid_filename_is_the_name() {
    assert_eq!(slug_from_uuid_filename("my-note"), "my-note");
    assert_eq!(slug_from_uuid_filename(""), "");
}

#[test]
fn sanitize_filename_replaces_what_a_file_system_refuses() {
    assert_eq!(sanitize_filename("a/b\\c:d*e?f\"g<h>i|j"), "a-b-c-d-e-f-g-h-i-j");
    assert_eq!(sanitize_filename("  My Note  "), "My Note");
    assert_eq!(sanitize_filename("tab\there"), "tab-here");
    assert_eq!(sanitize_filename("\u{7f}x\u{9f}"), "-x-");
    assert_eq!(sanitize_filename("Caf\u{e9} notes"), "Caf\u{e9} notes");
    assert_eq!(sanitize_filename(""), "");
}

#[test]
fn export_filename_agrees_with_the_pattern() {
    let pattern = regex::Regex::new(r"[^a-zA-Z0-9\s\-_]").unwrap();
    let titles = [
        "Hello World",
        "  Spaces  around  ",
        "Special!@#$%^&*()Characters",
        "tabs\tand\nlines",
        "under_score-and-hyphen",
        "Caf\u{e9} \u{212a}elvin",
        "",
        "\u{2003}wide space\u{2003}",
        "MiXeD 123",
    ];
    for title in titles {
        let expected = pattern.replace_all(title, "").trim().replace(" ", "-").to_lowercase();
        assert_eq!(export_filename(title), expected);
    }
    assert_eq!(export_filename("Hello, World!"), "hello-world");
}

#[test]
fn slug_with_lowercase_falls_back_by_the_title() {
    assert_eq!(slug_with_lowercase("Hello World", "hello world"), "hello-world");
    assert_eq!(slug_with_lowercase("", ""), "");
    assert_eq!(slug_with_lowercase("!!!", "!!!"), "untitled");
    assert_eq!(slug_with_lowercase("ÄÖ", "äö"), "untitled");
}

#[test]
fn export_stem_keeps_letters_digits_whitespace_hyphen_and_underscore() {
    assert_eq!(export_stem_of("Hello, World!"), "Hello-World");
    assert_eq!(export_stem_of("  a  b  "), "a--b");
    assert_eq!(export_stem_of("tab\tstays"), "tab\tstays");
    assert_eq!(export_stem_of("é_x-1"), "_x-1");
    assert_eq!(export_stem_of(""), "");
}

#[test]
fn unique_from_takes_the_name_as_it_is() {
    let taken = vec!["A".to_string(), "A-2".to_string()];
    assert_eq!(unique_from("A", &taken), "A-3");
    assert_eq!(unique_from("a", &taken), "a");
    assert_eq!(unique_from("", &vec![String::new()]), "-2");
}
