use riff::{diff, lcs, DeltaLine, EditType, HUNK_RADIUS};

fn lines(items: &[&str]) -> Vec<String> {
    items.iter().map(|item| String::from(*item)).collect()
}

fn rendered(entries: &Vec<DeltaLine>) -> Vec<String> {
    entries.iter().map(|entry| entry.to_string()).collect()
}

#[test]
fn to_string_marks_a_deleted_line_with_a_minus() {
    let entry = DeltaLine { edit_type: EditType::DELETE, line: String::from("gone") };
    assert_eq!(entry.to_string(), "-gone");
}

#[test]
fn to_string_marks_an_inserted_line_with_a_plus() {
    let entry = DeltaLine { edit_type: EditType::INSERT, line: String::from("new") };
    assert_eq!(entry.to_string(), "+new");
}

#[test]
fn to_string_marks_an_unchanged_line_with_a_space() {
    let entry = DeltaLine { edit_type: EditType::NIL, line: String::from("same") };
    assert_eq!(entry.to_string(), " same");
}

#[test]
fn to_string_of_an_empty_line_is_the_mark_alone() {
    let entry = DeltaLine { edit_type: EditType::DELETE, line: String::new() };
    assert_eq!(entry.to_string(), "-");
}

#[test]
fn diff_of_one_changed_line() {
    let seq_a = lines(&["a", "b", "c"]);
    let seq_b = lines(&["a", "x", "c"]);
    assert_eq!(rendered(&diff(&seq_a, &seq_b)), vec![" a", "-b", "+x", " c"]);
}

#[test]
fn diff_from_nothing_inserts_every_line() {
    let seq_a = lines(&[]);
    let seq_b = lines(&["x", "y"]);
    assert_eq!(rendered(&diff(&seq_a, &seq_b)), vec!["+x", "+y"]);
}

#[test]
fn diff_to_nothing_deletes_every_line() {
    let seq_a = lines(&["x", "y"]);
    let seq_b = lines(&[]);
    assert_eq!(rendered(&diff(&seq_a, &seq_b)), vec!["-x", "-y"]);
}

#[test]
fn diff_of_nothing_with_nothing_is_empty() {
    let none = lines(&[]);
    assert!(diff(&none, &none).is_empty());
}

#[test]
fn diff_of_a_sequence_with_itself_is_unchanged() {
    let seq = lines(&["one", "two", "two", "three"]);
    let entries = diff(&seq, &seq);
    assert_eq!(entries.len(), seq.len());
    for (entry, line) in entries.iter().zip(seq.iter()) {
        assert_eq!(entry.edit_type, EditType::NIL);
        assert_eq!(&entry.line, line);
    }
}

#[test]
fn diff_of_disjoint_sequences_deletes_then_inserts() {
    let seq_a = lines(&["a", "b", "c"]);
    let seq_b = lines(&["x", "y"]);
    assert_eq!(rendered(&diff(&seq_a, &seq_b)), vec!["-a", "-b", "-c", "+x", "+y"]);
}

#[test]
fn diff_keeps_deletions_and_insertions_with_their_gap() {
    let seq_a = lines(&["a", "b", "c", "d", "e"]);
    let seq_b = lines(&["b", "x", "d", "y", "e", "z"]);
    assert_eq!(
        rendered(&diff(&seq_a, &seq_b)),
        vec!["-a", " b", "-c", "+x", " d", "+y", " e", "+z"]
    );
}

#[test]
fn diff_of_science_and_incentive() {
    let seq_a = lines(&["s", "c", "i", "e", "n", "c", "e"]);
    let seq_b = lines(&["i", "n", "c", "e", "n", "t", "i", "v", "e"]);
    assert_eq!(
        rendered(&diff(&seq_a, &seq_b)),
        vec!["-s", "+i", "+n", " c", "-i", " e", " n", "-c", "+t", "+i", "+v", " e"]
    );
}

#[test]
fn diff_covers_both_sequences() {
    let seq_a = lines(&["a", "b", "c", "a", "b"]);
    let seq_b = lines(&["b", "a", "c", "b", "a"]);
    let k = lcs(&seq_a, &seq_b).len();
    let entries = diff(&seq_a, &seq_b);

    let deleted = entries.iter().filter(|e| e.edit_type == EditType::DELETE).count();
    let inserted = entries.iter().filter(|e| e.edit_type == EditType::INSERT).count();
    let unchanged = entries.iter().filter(|e| e.edit_type == EditType::NIL).count();
    assert_eq!(k, 3);
    assert_eq!(deleted, seq_a.len() - k);
    assert_eq!(inserted, seq_b.len() - k);
    assert_eq!(unchanged, k);

    let first: Vec<String> = entries
        .iter()
        .filter(|e| e.edit_type != EditType::INSERT)
        .map(|e| e.line.clone())
        .collect();
    let second: Vec<String> = entries
        .iter()
        .filter(|e| e.edit_type != EditType::DELETE)
        .map(|e| e.line.clone())
        .collect();
    assert_eq!(first, seq_a);
    assert_eq!(second, seq_b);
    assert_eq!(rendered(&entries), vec!["+b", " a", "+c", " b", "-c", " a", "-b"]);
}

#[test]
fn hunk_radius_is_three_lines() {
    assert_eq!(HUNK_RADIUS, 3);
}
