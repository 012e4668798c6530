use redis_lite::parser::OptionalArgs;

fn keys(ks: &[&str]) -> Vec<Vec<u8>> {
    ks.iter().map(|k| k.as_bytes().to_vec()).collect()
}

#[test]
fn new_lowercases_keys() {
    let o = OptionalArgs::new(&keys(&["PX", "ex"]), &keys(&["NX"]));
    assert_eq!(o.args, vec![(b"px".to_vec(), None), (b"ex".to_vec(), None)]);
    assert_eq!(o.flags, vec![(b"nx".to_vec(), false)]);
}

#[test]
fn fills_keywords_and_flags_case_insensitively() {
    let mut o = OptionalArgs::new(&keys(&["px"]), &keys(&["nx"]));
    o.insert_from_iter(&keys(&["Nx", "PX", "100"])).unwrap();
    assert_eq!(o.args, vec![(b"px".to_vec(), Some(b"100".to_vec()))]);
    assert_eq!(o.flags, vec![(b"nx".to_vec(), true)]);
}

#[test]
fn unknown_token_is_returned_lowercased() {
    let mut o = OptionalArgs::new(&keys(&["px"]), &[]);
    assert_eq!(o.insert_from_iter(&keys(&["XX"])), Err(b"xx".to_vec()));
}

#[test]
fn keyword_without_value_is_an_error() {
    let mut o = OptionalArgs::new(&keys(&["px"]), &[]);
    assert_eq!(o.insert_from_iter(&keys(&["PX"])), Err(b"px".to_vec()));
}
