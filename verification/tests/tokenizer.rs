use forge_core::tokenizer::subsyntax_path;

#[test]
fn state_is_walked_up_to_its_first_zero() {
    assert_eq!(subsyntax_path(&[3, 1, 0, 5]), vec![3, 1]);
    assert_eq!(subsyntax_path(&[2, 7]), vec![2, 7]);
    assert_eq!(subsyntax_path(&[0, 1]), Vec::<u8>::new());
    assert_eq!(subsyntax_path(&[]), Vec::<u8>::new());
}
