use rir_codegen::text::{i32_text, sort_texts};

#[test]
fn numbers_are_written_in_decimal() {
    for x in [0, 7, 10, 99, 1203, -1, -10, i32::MAX, i32::MIN] {
        assert_eq!(i32_text(x), x.to_string());
    }
}

#[test]
fn texts_come_out_in_dictionary_order() {
    let parts: Vec<String> = ["b", "a", "", "ab", "B", "a", "\u{e9}", "z"]
        .iter()
        .map(|s| s.to_string())
        .collect();
    assert_eq!(sort_texts(&parts), ["", "B", "a", "a", "ab", "b", "z", "\u{e9}"]);
}
