use tank_core::strings::{str_contains, str_eq, str_has_prefix, str_split};

#[test]
fn contains_finds_substring() {
    assert!(str_contains("Socket.Hull.Mount", "Socket"));
    assert!(str_contains("MySocketNode", "Socket"));
    assert!(!str_contains("Hull", "Socket"));
    assert!(str_contains("abc", ""));
    assert!(!str_contains("ab", "abc"));
}

#[test]
fn prefix_is_anchored() {
    assert!(str_has_prefix("Socket.Hull", "Socket."));
    assert!(!str_has_prefix("MySocket.Hull", "Socket."));
    assert!(!str_has_prefix("Sock", "Socket."));
}

#[test]
fn split_behaves_like_std_split() {
    let cases = ["a.b.c", "", "a", ".a", "a.", "a..b", "..."];
    for s in cases {
        let got: Vec<String> = str_split(s, '.');
        let want: Vec<String> = s.split('.').map(|x| x.to_string()).collect();
        assert_eq!(got, want, "splitting {:?}", s);
    }
}

#[test]
fn eq_compares_contents() {
    assert!(str_eq("Hull", "Hull"));
    assert!(!str_eq("Hull", "Hulk"));
    assert!(!str_eq("Hull", "Hul"));
}
