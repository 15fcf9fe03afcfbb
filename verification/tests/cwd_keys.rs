use session_normalizer::cwd::normalize_cwd;

#[test]
fn spellings_of_one_directory_share_a_key() {
    let a = normalize_cwd("C:\\Users\\Bob\\");
    let b = normalize_cwd("C:/Users/Bob");
    let c = normalize_cwd("c:/users/bob/");
    assert_eq!(a, "c:/users/bob");
    assert_eq!(a, b);
    assert_eq!(b, c);
}

#[test]
fn extended_prefix_is_stripped_in_both_spellings() {
    assert_eq!(normalize_cwd("\\\\?\\C:\\Work"), "c:/work");
    assert_eq!(normalize_cwd("//?/C:/Work"), "c:/work");
}

#[test]
fn repeated_prefixes_are_all_stripped() {
    assert_eq!(normalize_cwd("//?///?/srv"), "srv");
}

#[test]
fn prefix_elsewhere_than_at_the_start_stays() {
    assert_eq!(normalize_cwd("/a//?/b"), "/a//?/b");
}

#[test]
fn every_trailing_slash_is_stripped() {
    assert_eq!(normalize_cwd("/home/a///"), "/home/a");
    assert_eq!(normalize_cwd("/"), "");
    assert_eq!(normalize_cwd(""), "");
}

#[test]
fn letters_beyond_ascii_are_folded() {
    assert_eq!(normalize_cwd("/Home/\u{c9}lan"), "/home/\u{e9}lan");
    assert_eq!(normalize_cwd("C:\\\u{dc}BER\\\u{416}\\"), "c:/\u{fc}ber/\u{436}");
    assert_eq!(normalize_cwd("/home/\u{e9}lan"), "/home/\u{e9}lan");
}

#[test]
fn letter_with_a_longer_lowercase_mapping() {
    assert_eq!(normalize_cwd("/\u{130}zmir"), "/i\u{307}zmir");
}

#[test]
fn capital_sigma_is_folded_on_its_own() {
    assert_eq!(normalize_cwd("/\u{39f}\u{394}\u{39f}\u{3a3}"), "/\u{3bf}\u{3b4}\u{3bf}\u{3c3}");
}

#[test]
fn key_of_a_key_is_the_key() {
    let once = normalize_cwd("\\\\?\\D:\\Proj\\Sub\\");
    let twice = normalize_cwd(&once);
    assert_eq!(once, "d:/proj/sub");
    assert_eq!(once, twice);
}

#[test]
fn trailing_slash_that_completes_a_prefix_changes_the_key() {
    assert_eq!(normalize_cwd("//?"), "//?");
    assert_eq!(normalize_cwd("//?/"), "");
}
