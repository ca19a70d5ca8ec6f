use blaze_db::ingest::{batch, chunk_lines, join_words, split_words, trim, Ingestor};

fn strings(v: &[&str]) -> Vec<String> {
    v.iter().map(|s| s.to_string()).collect()
}

#[test]
fn split_words_like_split_whitespace() {
    for text in ["", "   ", "one", "  two  words ", "tab\tand\nnewline", "\u{2003}wide\u{2003}space"] {
        let expected: Vec<String> = text.split_whitespace().map(|s| s.to_string()).collect();
        assert_eq!(split_words(text), expected, "{:?}", text);
    }
}

#[test]
fn trim_like_str_trim() {
    for text in ["", "  ", " a ", "a", "\t a b \n", "\u{a0}x\u{3000}"] {
        assert_eq!(trim(text), text.trim(), "{:?}", text);
    }
}

#[test]
fn join_words_with_spaces() {
    assert_eq!(join_words(&strings(&[])), "");
    assert_eq!(join_words(&strings(&["a"])), "a");
    assert_eq!(join_words(&strings(&["a", "b", "c"])), "a b c");
}

#[test]
fn batch_groups_in_order() {
    let b = batch(vec![1, 2, 3, 4, 5, 6, 7], 3);
    assert_eq!(b, vec![vec![1, 2, 3], vec![4, 5, 6], vec![7]]);
    assert!(batch(Vec::<u8>::new(), 4).is_empty());
    assert_eq!(batch(vec![1, 2], 2), vec![vec![1, 2]]);
}

#[test]
fn chunk_lines_with_overlap() {
    let lines = strings(&["one two three", "", "four five", "six seven eight nine"]);
    let chunks = chunk_lines(&lines, 5, 2);
    assert_eq!(chunks, strings(&["one two three four five", "four five six seven eight nine"]));
}

#[test]
fn chunk_lines_without_overlap() {
    let lines = strings(&["a b", "c d", "e"]);
    assert_eq!(chunk_lines(&lines, 2, 0), strings(&["a b", "c d", "e"]));
    assert_eq!(chunk_lines(&lines, 4, 0), strings(&["a b c d", "e"]));
    assert!(chunk_lines(&strings(&["", "  "]), 4, 1).is_empty());
}

#[test]
fn ingestor_line_batches() {
    let ing = Ingestor::new("data.txt".to_string(), 8);
    let lines = strings(&[" first ", "", "second", "   ", "third"]);
    let b = ing.line_batches(&lines);
    assert_eq!(b, vec![strings(&["first", "second", "third"])]);
    let many: Vec<String> = (0..20).map(|i| format!("line {}", i)).collect();
    let b2 = ing.line_batches(&many);
    assert_eq!(b2.iter().map(|x| x.len()).collect::<Vec<_>>(), vec![8, 8, 4]);
}

#[test]
fn ingestor_chunk_batches() {
    let ing = Ingestor::new("data.txt".to_string(), 8);
    let lines = strings(&["a b c", "d e f"]);
    assert_eq!(ing.chunk_batches(&lines, 4, 1), vec![strings(&["a b c", "c d e f"])]);
}
