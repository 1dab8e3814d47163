use chess_engine::utils::{translate_index_to_position, translate_position_to_index};

#[test]
fn index_to_position_test() {
    let position = translate_index_to_position(12);

    assert_eq!(position, "e7");
}

#[test]
fn position_to_index_test() {
    let index = translate_position_to_index("f1");

    assert_eq!(index, 61);
}

#[test]
fn translation_test() {
    for i in 0..64 {
        let position = translate_index_to_position(i);
        let index = translate_position_to_index(&position);

        assert_eq!(i, index as u8);
    }
}
