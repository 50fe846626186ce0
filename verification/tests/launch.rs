use gsm_windrose::launch::{char_is_white_space, force_install_dir_args, split_launch_args};

#[test]
fn launch_args_split_at_white_space() {
    assert_eq!(split_launch_args("-log  -port=7777\t-x"), vec!["-log", "-port=7777", "-x"]);
    assert_eq!(split_launch_args(""), Vec::<String>::new());
    assert_eq!(split_launch_args("   "), Vec::<String>::new());
    assert_eq!(split_launch_args(" a "), vec!["a"]);
}

#[test]
fn launch_args_agree_with_std() {
    for text in ["a b", "\u{3000}x\u{a0}y\u{2009}z", "\n\r\u{85}q", "one", "é ü"] {
        let expected: Vec<String> = text.split_whitespace().map(|s| s.to_string()).collect();
        assert_eq!(split_launch_args(text), expected, "{:?}", text);
    }
}

#[test]
fn white_space_matches_std() {
    for c in ['\u{0}', ' ', '\t', '\u{b}', 'a', '\u{85}', '\u{a0}', '\u{1680}', '\u{2000}', '\u{200a}', '\u{200b}', '\u{2028}', '\u{202f}', '\u{205f}', '\u{3000}', '\u{feff}'] {
        assert_eq!(char_is_white_space(c), c.is_whitespace(), "{:?}", c);
    }
}

#[test]
fn install_args_name_the_install_dir() {
    assert_eq!(force_install_dir_args("/home/steam/windrose"), vec![
        "+force_install_dir /home/steam/windrose"
    ]);
}
