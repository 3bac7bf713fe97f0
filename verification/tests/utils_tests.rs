use netcom::utils::{key_to_string, string_to_key, tag_to_string, upgrade_vec};

fn sample_key() -> [u8; 32] {
    let mut key = [0u8; 32];
    for (i, b) in key.iter_mut().enumerate() {
        *b = (i as u8).wrapping_mul(37).wrapping_add(3);
    }
    key
}

#[test]
fn key_to_string_joins_decimal_bytes() {
    assert_eq!(key_to_string(&[1, 2, 3]), "1-2-3");
    assert_eq!(key_to_string(&[0, 255, 10]), "0-255-10");
    assert_eq!(key_to_string(&[7]), "7");
}

#[test]
fn key_to_string_of_a_full_key() {
    let key = [9u8; 32];
    let text = key_to_string(&key);
    assert_eq!(text, vec!["9"; 32].join("-"));
}

#[test]
fn string_to_key_reads_back_key_to_string() {
    let key = sample_key();
    assert_eq!(string_to_key(&key_to_string(&key)), Ok(key));
    let zeros = [0u8; 32];
    assert_eq!(string_to_key(&key_to_string(&zeros)), Ok(zeros));
    let full = [255u8; 32];
    assert_eq!(string_to_key(&key_to_string(&full)), Ok(full));
}

#[test]
fn string_to_key_wants_exactly_32_pieces() {
    let short = vec!["1"; 31].join("-");
    assert_eq!(string_to_key(&short), Err(()));
    let long = vec!["1"; 33].join("-");
    assert_eq!(string_to_key(&long), Err(()));
    assert_eq!(string_to_key(""), Err(()));
}

#[test]
fn string_to_key_rejects_pieces_that_are_no_byte() {
    let mut pieces = vec!["1".to_string(); 32];
    pieces[5] = "256".to_string();
    assert_eq!(string_to_key(&pieces.join("-")), Err(()));
    pieces[5] = "".to_string();
    assert_eq!(string_to_key(&pieces.join("-")), Err(()));
    pieces[5] = "x".to_string();
    assert_eq!(string_to_key(&pieces.join("-")), Err(()));
    pieces[5] = "-".to_string();
    assert_eq!(string_to_key(&pieces.join("-")), Err(()));
}

#[test]
fn string_to_key_reads_bytes_as_u8_from_str_does() {
    let mut pieces = vec!["0".to_string(); 32];
    pieces[0] = "+5".to_string();
    pieces[1] = "007".to_string();
    pieces[31] = "255".to_string();
    let mut expected = [0u8; 32];
    expected[0] = 5;
    expected[1] = 7;
    expected[31] = 255;
    assert_eq!(string_to_key(&pieces.join("-")), Ok(expected));
    pieces[2] = "++1".to_string();
    assert_eq!(string_to_key(&pieces.join("-")), Err(()));
}

#[test]
fn tag_to_string_joins_with_spaces() {
    let tags = vec!["rust".to_string(), "coding".to_string()];
    assert_eq!(tag_to_string(tags), "rust coding");
}

#[test]
fn tag_to_string_trims() {
    assert_eq!(tag_to_string(vec![]), "");
    assert_eq!(tag_to_string(vec!["  x ".to_string()]), "x");
    assert_eq!(tag_to_string(vec!["\ta".to_string(), "b\u{3000}".to_string()]), "a b");
    assert_eq!(tag_to_string(vec!["".to_string(), "".to_string()]), "");
}

#[test]
fn upgrade_vec_owns_each_item() {
    let out = upgrade_vec(vec!["a", "", "bc"]);
    assert_eq!(out, vec!["a".to_string(), "".to_string(), "bc".to_string()]);
    assert!(upgrade_vec(vec![]).is_empty());
}
