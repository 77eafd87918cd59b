use rfat::path::split_path;
use rfat::short_name::{gen_short_name, short_name_from_upper};
use rfat::text::{decode_utf16_lossy, encode_utf16, eq_ignore_ascii_case, short_name_string};

#[test]
fn short_name_takes_base_and_extension() {
    assert_eq!(&gen_short_name("short.txt"), b"SHORT   TXT");
    assert_eq!(&gen_short_name("noext"), b"NOEXT      ");
    assert_eq!(&gen_short_name("a.b.c"), b"A.B     C  ");
    assert_eq!(&gen_short_name("averyverylongname.text"), b"AVERYVERTEX");
    assert_eq!(&gen_short_name("exactly8.ext"), b"EXACTLY8EXT");
    assert_eq!(&gen_short_name(".bashrc"), b"        BAS");
    assert_eq!(&gen_short_name("trailing."), b"TRAILING   ");
    assert_eq!(&gen_short_name(""), b"           ");
}

#[test]
fn short_name_works_on_the_bytes_of_the_upper_case_name() {
    // U+00E9 becomes U+00C9, two bytes in UTF-8
    assert_eq!(&gen_short_name("\u{e9}.txt"), &[0xC3, 0x89, 32, 32, 32, 32, 32, 32, b'T', b'X', b'T']);
    // the sharp s becomes two letters
    assert_eq!(&gen_short_name("\u{df}"), b"SS         ");
    assert_eq!(&short_name_from_upper(b"lower.x"), b"lower   x  ");
    assert_eq!(&short_name_from_upper(b"..."), b"..         ");
}

#[test]
fn short_name_text_trims_and_joins() {
    assert_eq!(short_name_string(b"SHORT   TXT"), "SHORT.TXT");
    assert_eq!(short_name_string(b"VERY       "), "VERY");
    assert_eq!(short_name_string(b".          "), ".");
    assert_eq!(short_name_string(b"..         "), "..");
    assert_eq!(short_name_string(b"           "), "");
    assert_eq!(short_name_string(b"        TXT"), ".TXT");
    // a tab counts as whitespace, a byte that is no UTF-8 becomes U+FFFD
    assert_eq!(short_name_string(b"AB\t     C \t"), "AB.C");
    assert_eq!(short_name_string(b"A\xFFB     \xE5  "), "A\u{FFFD}B.\u{FFFD}");
    assert_eq!(short_name_string(&[0xC3, 0x89, 32, 32, 32, 32, 32, 32, 32, 32, 32]), "\u{c9}");
}

#[test]
fn utf16_encoding_agrees_with_std() {
    for s in ["", "plain", "gr\u{fc}\u{df}e", "\u{1F600} face", "\u{FFFF}\u{0}", "\u{10FFFF}\u{10000}"] {
        let want: Vec<u16> = s.encode_utf16().collect();
        assert_eq!(encode_utf16(s), want);
        let back: String = decode_utf16_lossy(&want).into_iter().collect();
        assert_eq!(back, s);
    }
    assert_eq!(encode_utf16("\u{1F600}"), [0xD83D, 0xDE00]);
}

#[test]
fn utf16_decoding_replaces_lone_surrogates() {
    let cases: [&[u16]; 7] = [
        &[0xD800],
        &[0xDC00],
        &[0x41, 0xD800, 0x42],
        &[0xD800, 0xD800, 0xDC00],
        &[0xDC00, 0xD800],
        &[0xDBFF, 0xDFFF, 0xDFFF],
        &[0xD83D, 0xDE00, 0xFFFF, 0x0000],
    ];
    for units in cases {
        let got: String = decode_utf16_lossy(units).into_iter().collect();
        assert_eq!(got, String::from_utf16_lossy(units));
    }
    assert_eq!(decode_utf16_lossy(&[0x41, 0xD800, 0x42]), ['A', '\u{FFFD}', 'B']);
    assert_eq!(decode_utf16_lossy(&[0xDBFF, 0xDFFF]), ['\u{10FFFF}']);
}

#[test]
fn comparison_folds_ascii_letters_only() {
    assert!(eq_ignore_ascii_case("Long.TXT", "lONG.txt"));
    assert!(eq_ignore_ascii_case("", ""));
    assert!(!eq_ignore_ascii_case("abc", "abcd"));
    assert!(!eq_ignore_ascii_case("abc", "abd"));
    assert!(!eq_ignore_ascii_case("\u{e9}", "\u{c9}"));
    // the characters next to the letters in the table are no letters
    assert!(!eq_ignore_ascii_case("@", "`"));
    assert!(!eq_ignore_ascii_case("[", "{"));
    for (a, b) in [("a[Z", "A[z"), ("stra\u{df}e", "STRA\u{df}E"), ("x", "y")] {
        assert_eq!(eq_ignore_ascii_case(a, b), a.eq_ignore_ascii_case(b));
    }
}

#[test]
fn path_splits_at_first_separator() {
    assert_eq!(split_path("very/long/path/"), ("very", Some("long/path")));
    assert_eq!(split_path("/very/long"), ("very", Some("long")));
    assert_eq!(split_path("name"), ("name", None));
    assert_eq!(split_path("//name//"), ("name", None));
    assert_eq!(split_path(""), ("", None));
    assert_eq!(split_path("///"), ("", None));
    assert_eq!(split_path("a//b"), ("a", Some("/b")));
    assert_eq!(split_path("\u{e9}t\u{e9}/\u{1F600}/"), ("\u{e9}t\u{e9}", Some("\u{1F600}")));
}
