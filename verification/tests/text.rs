use query_map::text::{join, split};

fn strings(values: &[&str]) -> Vec<String> {
    values.iter().map(|v| v.to_string()).collect()
}

#[test]
fn split_at_commas() {
    assert_eq!(strings(&["bar", "baz"]), split("bar,baz", ','));
}

#[test]
fn split_without_separator_is_one_piece() {
    assert_eq!(strings(&["bar"]), split("bar", ','));
}

#[test]
fn split_empty_text_is_one_empty_piece() {
    assert_eq!(strings(&[""]), split("", ','));
}

#[test]
fn split_keeps_empty_pieces() {
    assert_eq!(strings(&["a", "", "b", ""]), split("a,,b,", ','));
    assert_eq!(strings(&["", "a"]), split(",a", ','));
    assert_eq!(strings(&["", ""]), split(",", ','));
}

#[test]
fn split_counts_characters_not_bytes() {
    assert_eq!(strings(&["né", "ü€", "𝄞x"]), split("né,ü€,𝄞x", ','));
    assert_eq!(strings(&["a", "b"]), split("a€b", '€'));
}

#[test]
fn split_is_what_std_gives() {
    for text in ["", ",", "a", "a,b", ",,", "a,,b,", "x=1,y=2", "é,é"] {
        let expected: Vec<String> = text.split(',').map(String::from).collect();
        assert_eq!(expected, split(text, ','));
    }
}

#[test]
fn join_with_commas() {
    assert_eq!("value1,value2,value3", join(&strings(&["value1", "value2", "value3"]), ","));
}

#[test]
fn join_one_piece_is_that_piece() {
    assert_eq!("bar", join(&strings(&["bar"]), ","));
}

#[test]
fn join_nothing_is_empty() {
    assert_eq!("", join(&Vec::new(), ","));
}

#[test]
fn join_keeps_empty_pieces() {
    assert_eq!(",a,,", join(&strings(&["", "a", "", ""]), ","));
}

#[test]
fn join_with_a_longer_separator() {
    assert_eq!("a, b, c", join(&strings(&["a", "b", "c"]), ", "));
    assert_eq!("abc", join(&strings(&["a", "b", "c"]), ""));
}

#[test]
fn join_is_what_std_gives() {
    for pieces in [&[][..], &["a"], &["a", "b"], &["", ""], &["x", "", "é"]] {
        let pieces = strings(pieces);
        assert_eq!(pieces.join(","), join(&pieces, ","));
    }
}

#[test]
fn join_after_split_gives_the_text_back() {
    for text in ["", ",", "a", "a,b", ",,", "a,,b,", "bar,baz", "é,ü"] {
        assert_eq!(text, join(&split(text, ','), ","));
    }
}

#[test]
fn split_after_join_gives_the_pieces_back() {
    for pieces in [&["a"][..], &["a", "b"], &["", ""], &["x", "", "é"], &[""]] {
        let pieces = strings(pieces);
        assert_eq!(pieces, split(&join(&pieces, ","), ','));
    }
}

#[test]
fn split_after_join_differs_where_a_piece_holds_the_separator() {
    let pieces = strings(&["a,b", "c"]);
    assert_eq!(strings(&["a", "b", "c"]), split(&join(&pieces, ","), ','));
    assert_eq!(strings(&[""]), split(&join(&Vec::new(), ","), ','));
}
