use shares::entry::{listing_leaf, percent_decode};

#[test]
fn percent_decoding_decodes_hex_escapes() {
    assert_eq!(percent_decode(&b"a%20b%2Fc".to_vec()), b"a b/c".to_vec());
    assert_eq!(percent_decode(&b"%41%6a%6A".to_vec()), b"Ajj".to_vec());
    assert_eq!(percent_decode(&b"plain".to_vec()), b"plain".to_vec());
    assert_eq!(percent_decode(&b"".to_vec()), b"".to_vec());
}

#[test]
fn malformed_escapes_pass_through() {
    assert_eq!(percent_decode(&b"%zz".to_vec()), b"%zz".to_vec());
    assert_eq!(percent_decode(&b"100%".to_vec()), b"100%".to_vec());
    assert_eq!(percent_decode(&b"%4".to_vec()), b"%4".to_vec());
}

#[test]
fn listing_leaf_takes_the_last_component() {
    assert_eq!(listing_leaf(&b"share/projects/".to_vec()), b"projects".to_vec());
    assert_eq!(listing_leaf(&b"projects".to_vec()), b"projects".to_vec());
    assert_eq!(listing_leaf(&b"a/b/c".to_vec()), b"c".to_vec());
}

#[test]
fn listing_leaf_of_the_root_is_the_fallback() {
    assert_eq!(listing_leaf(&b"".to_vec()), b"archive".to_vec());
    assert_eq!(listing_leaf(&b"/".to_vec()), b"archive".to_vec());
}
