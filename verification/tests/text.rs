use rutree2::text::chars_of;
use rutree2::text::extension;
use rutree2::text::is_hidden;
use rutree2::text::name_less;
use rutree2::text::str_eq;

#[test]
fn str_eq_compares_text() {
    assert!(str_eq("", ""));
    assert!(str_eq("auto", "auto"));
    assert!(!str_eq("auto", "autO"));
    assert!(!str_eq("auto", "aut"));
    assert!(!str_eq("aut", "auto"));
    assert!(str_eq("żółw", "żółw"));
}

#[test]
fn names_are_ordered_by_bytes() {
    assert!(name_less("a", "b"));
    assert!(!name_less("b", "a"));
    assert!(!name_less("a", "a"));
    assert!(name_less("", "a"));
    assert!(!name_less("a", ""));
    assert!(!name_less("", ""));
    // A proper prefix comes first.
    assert!(name_less("ab", "abc"));
    assert!(!name_less("abc", "ab"));
    // Upper case comes before lower case, digits before letters.
    assert!(name_less("Z", "a"));
    assert!(name_less("10", "9"));
    assert!(name_less(".hidden", "a"));
    assert!(name_less("-dash", ".hidden"));
    // Beyond ASCII the order is that of the code points.
    assert!(name_less("z", "é"));
    assert!(name_less("é", "日本"));
}

#[test]
fn name_order_agrees_with_the_order_of_str() {
    let names = ["", "a", "A", "ab", "abc", "b", ".x", "-x", "é", "日本", "z", "10", "9"];
    for a in names {
        for b in names {
            assert_eq!(name_less(a, b), a < b);
        }
    }
}

#[test]
fn hidden_names_start_with_a_dot() {
    assert!(is_hidden(".hidden"));
    assert!(is_hidden("."));
    assert!(is_hidden(".."));
    assert!(!is_hidden("visible.txt"));
    assert!(!is_hidden("a.b"));
    assert!(!is_hidden(""));
    assert!(!is_hidden("é."));
}

#[test]
fn extension_is_what_follows_the_last_dot() {
    assert_eq!(extension("file.txt"), Some("txt"));
    assert_eq!(extension("archive.tar.gz"), Some("gz"));
    assert_eq!(extension("trailing."), Some(""));
    assert_eq!(extension("..."), Some(""));
    assert_eq!(extension("..a"), Some("a"));
    assert_eq!(extension(".hidden.png"), Some("png"));
    assert_eq!(extension("日本.語"), Some("語"));
}

#[test]
fn some_names_have_no_extension() {
    assert_eq!(extension("README"), None);
    assert_eq!(extension(".hidden"), None);
    assert_eq!(extension("."), None);
    assert_eq!(extension(".."), None);
    assert_eq!(extension(""), None);
}

#[test]
fn extension_agrees_with_std_path() {
    let names = ["a.b", "a", ".a", "a.", "..", "...", "..a", "a.b.c", "", ".", "x.tar.gz"];
    for name in names {
        let expected = std::path::Path::new(name).extension().and_then(|e| e.to_str());
        assert_eq!(extension(name), expected);
    }
}

#[test]
fn chars_of_gives_every_character() {
    assert_eq!(chars_of(""), Vec::<char>::new());
    assert_eq!(chars_of("a.b"), vec!['a', '.', 'b']);
    assert_eq!(chars_of("é日"), vec!['é', '日']);
}
