use kea::engine::buffer::{map_error, Buffer, BufferId, Line, LineIndices, ShallowCache};
use kea::engine::rope::{Rope, RopeError};
use kea::engine::{CoreError, IoFailure, RopeyStore, TextStore};

fn text_of<S: TextStore>(buffer: &Buffer<S>) -> String {
    let content = buffer.content();
    content.slice_bytes(0, content.len_bytes()).unwrap()
}

fn starts<S: TextStore>(buffer: &Buffer<S>) -> Vec<usize> {
    let cache = buffer.line_cache();
    (0..cache.len()).map(|i| cache.get(i).unwrap().start_index()).collect()
}

fn content_ends<S: TextStore>(buffer: &Buffer<S>) -> Vec<usize> {
    let cache = buffer.line_cache();
    (0..cache.len()).map(|i| cache.get(i).unwrap().end_line()).collect()
}

fn full_ends<S: TextStore>(buffer: &Buffer<S>) -> Vec<usize> {
    let cache = buffer.line_cache();
    (0..cache.len()).map(|i| cache.get(i).unwrap().end_index()).collect()
}

fn entries<S: TextStore>(buffer: &Buffer<S>) -> Vec<Line> {
    let cache = buffer.line_cache();
    (0..cache.len()).map(|i| *cache.get(i).unwrap()).collect()
}

#[test]
fn three_lines() {
    check_three_lines::<Rope>();
}

#[test]
fn three_lines_with_ropey() {
    check_three_lines::<RopeyStore>();
}

fn check_three_lines<S: TextStore>() {
    let buffer = Buffer::<S>::from_text(1, "a\nbb\nccc\n");
    assert_eq!(buffer.request_lines(0, 3), vec!["a", "bb", "ccc"]);
    assert_eq!(starts(&buffer), vec![0, 2, 5]);
    assert_eq!(content_ends(&buffer), vec![1, 4, 8]);
    assert_eq!(full_ends(&buffer), vec![2, 5, 9]);
    let numbers: Vec<usize> = entries(&buffer).iter().map(|e| e.line).collect();
    assert_eq!(numbers, vec![1, 2, 3]);
}

#[test]
fn index_has_one_entry_for_each_line() {
    check_index_has_one_entry_for_each_line::<Rope>();
}

#[test]
fn index_has_one_entry_for_each_line_with_ropey() {
    check_index_has_one_entry_for_each_line::<RopeyStore>();
}

fn check_index_has_one_entry_for_each_line<S: TextStore>() {
    let lines = ["first", "", "third line", "é✓", "last without a line feed"];
    let text = lines.join("\n");
    let mut buffer = Buffer::<S>::from_text(1, &text);
    buffer.invalidate_line_cache(0);
    assert_eq!(buffer.line_cache().len(), lines.len());
    let found = starts(&buffer);
    for pair in found.windows(2) {
        assert!(pair[0] < pair[1]);
    }
    assert_eq!(buffer.request_lines(0, lines.len()), lines);
}

#[test]
fn line_breaks_are_left_off() {
    check_line_breaks_are_left_off::<Rope>();
}

#[test]
fn line_breaks_are_left_off_with_ropey() {
    check_line_breaks_are_left_off::<RopeyStore>();
}

fn check_line_breaks_are_left_off<S: TextStore>() {
    let buffer = Buffer::<S>::from_text(1, "unix\nwindows\r\n\r\n\nbare\rreturn\nend");
    assert_eq!(
        buffer.request_lines(0, 10),
        vec!["unix", "windows", "", "", "bare\rreturn", "end"]
    );
    assert_eq!(starts(&buffer), vec![0, 5, 14, 16, 17, 29]);
    assert_eq!(content_ends(&buffer), vec![4, 12, 14, 16, 28, 32]);
    assert_eq!(full_ends(&buffer), vec![5, 14, 16, 17, 29, 32]);
}

#[test]
fn request_lines_gives_what_exists() {
    check_request_lines_gives_what_exists::<Rope>();
}

#[test]
fn request_lines_gives_what_exists_with_ropey() {
    check_request_lines_gives_what_exists::<RopeyStore>();
}

fn check_request_lines_gives_what_exists<S: TextStore>() {
    let buffer = Buffer::<S>::from_text(1, "a\nbb\nccc\n");
    assert_eq!(buffer.request_lines(1, 3), vec!["bb", "ccc"]);
    assert_eq!(buffer.request_lines(1, 100), vec!["bb", "ccc"]);
    assert_eq!(buffer.request_lines(2, 3), vec!["ccc"]);
    assert_eq!(buffer.request_lines(3, 5), Vec::<String>::new());
    assert_eq!(buffer.request_lines(7, 9), Vec::<String>::new());
    assert_eq!(buffer.request_lines(2, 2), Vec::<String>::new());
    assert_eq!(buffer.request_lines(2, 1), Vec::<String>::new());
    assert_eq!(buffer.request_lines(0, usize::MAX), vec!["a", "bb", "ccc"]);
}

#[test]
fn empty_document() {
    check_empty_document::<Rope>();
}

#[test]
fn empty_document_with_ropey() {
    check_empty_document::<RopeyStore>();
}

fn check_empty_document<S: TextStore>() {
    let buffer = Buffer::<S>::empty(4).unwrap();
    assert_eq!(buffer.id(), BufferId(4));
    assert_eq!(buffer.path(), &None);
    assert_eq!(buffer.content().len_bytes(), 0);
    assert_eq!(buffer.line_cache().len(), 0);
    assert_eq!(buffer.request_lines(0, 5), Vec::<String>::new());

    let blank = Buffer::<S>::from_text(5, "");
    assert_eq!(text_of(&blank), "");
    assert_eq!(blank.line_cache().len(), 0);
}

#[test]
fn opening_maps_read_errors() {
    check_opening_maps_read_errors::<Rope>();
}

#[test]
fn opening_maps_read_errors_with_ropey() {
    check_opening_maps_read_errors::<RopeyStore>();
}

fn check_opening_maps_read_errors<S: TextStore>() {
    let path = "notes/today.txt".to_string();
    let opened = Buffer::<S>::from_path(path.clone(), 9, Ok("one\ntwo".to_string())).unwrap();
    assert_eq!(opened.id(), BufferId(9));
    assert_eq!(opened.path(), &Some(path.clone()));
    assert_eq!(opened.request_lines(0, 2), vec!["one", "two"]);

    let missing = Buffer::<S>::from_path(path.clone(), 9, Err(IoFailure::NotFound)).err();
    assert_eq!(missing, Some(CoreError::FileNotFound(path.clone())));
    let denied = Buffer::<S>::from_path(path.clone(), 9, Err(IoFailure::PermissionDenied)).err();
    assert_eq!(denied, Some(CoreError::FilePermissions(path.clone())));
    let interrupted = Buffer::<S>::from_path(path.clone(), 9, Err(IoFailure::Interrupted)).err();
    assert_eq!(interrupted, Some(CoreError::Io(path.clone())));
    let other = Buffer::<S>::from_path(path.clone(), 9, Err(IoFailure::Other)).err();
    assert_eq!(other, Some(CoreError::Io(path.clone())));

    assert_eq!(map_error(IoFailure::NotFound, &path), CoreError::FileNotFound(path.clone()));
    assert_eq!(
        map_error(IoFailure::PermissionDenied, &path),
        CoreError::FilePermissions(path.clone())
    );
    assert_eq!(map_error(IoFailure::Other, &path), CoreError::Io(path.clone()));
}

#[test]
fn error_messages() {
    let path = "a.txt".to_string();
    assert_eq!(CoreError::FileNotFound(path.clone()).message(), "file not found: 'a.txt'");
    assert_eq!(
        CoreError::FilePermissions(path.clone()).message(),
        "do not have permission to open: 'a.txt'"
    );
    assert_eq!(CoreError::Io(path).message(), "failed to read: 'a.txt'");
}

#[test]
fn invalidating_keeps_the_lines_before() {
    check_invalidating_keeps_the_lines_before::<Rope>();
}

#[test]
fn invalidating_keeps_the_lines_before_with_ropey() {
    check_invalidating_keeps_the_lines_before::<RopeyStore>();
}

fn check_invalidating_keeps_the_lines_before<S: TextStore>() {
    let mut buffer = Buffer::<S>::from_text(1, "zero\none\ntwo\nthree\n");
    let before = entries(&buffer);
    for k in 0..6 {
        buffer.invalidate_line_cache(k);
        assert_eq!(entries(&buffer), before);
    }
}

#[test]
fn edits_keep_the_index_up_to_date() {
    check_edits_keep_the_index_up_to_date::<Rope>();
}

#[test]
fn edits_keep_the_index_up_to_date_with_ropey() {
    check_edits_keep_the_index_up_to_date::<RopeyStore>();
}

fn check_edits_keep_the_index_up_to_date<S: TextStore>() {
    let mut buffer = Buffer::<S>::from_text(1, "zero\none\ntwo\nthree\n");
    let before = entries(&buffer);

    // the edit is in line 2: the entries of lines 0 and 1 stay as they are
    assert_eq!(buffer.insert(10, "XX\nYY"), Ok(2));
    assert_eq!(text_of(&buffer), "zero\none\ntXX\nYYwo\nthree\n");
    let after = entries(&buffer);
    assert_eq!(&after[..2], &before[..2]);
    assert_eq!(after.len(), 5);
    assert_eq!(starts(&buffer), vec![0, 5, 9, 13, 18]);
    assert_eq!(buffer.request_lines(0, 9), vec!["zero", "one", "tXX", "YYwo", "three"]);

    assert_eq!(buffer.remove(12), Ok(2));
    assert_eq!(buffer.request_lines(0, 9), vec!["zero", "one", "tXXYYwo", "three"]);
    assert_eq!(&entries(&buffer)[..2], &before[..2]);

    assert_eq!(buffer.insert_char(0, '\n'), Ok(0));
    assert_eq!(buffer.request_lines(0, 9), vec!["", "zero", "one", "tXXYYwo", "three"]);

    let end = buffer.content().len_chars();
    assert_eq!(buffer.insert(end, "tail"), Ok(5));
    assert_eq!(buffer.request_lines(4, 9), vec!["three", "tail"]);

    assert_eq!(buffer.insert(end + 5, "x"), Err(RopeError::OutOfBounds));
    assert_eq!(buffer.remove(end + 4), Err(RopeError::OutOfBounds));
    assert_eq!(buffer.request_lines(4, 9), vec!["three", "tail"]);
    assert_eq!(buffer.id(), BufferId(1));
}

#[test]
fn removing_lines_shrinks_the_index() {
    check_removing_lines_shrinks_the_index::<Rope>();
}

#[test]
fn removing_lines_shrinks_the_index_with_ropey() {
    check_removing_lines_shrinks_the_index::<RopeyStore>();
}

fn check_removing_lines_shrinks_the_index<S: TextStore>() {
    let mut buffer = Buffer::<S>::from_text(1, "a\nb\nc");
    assert_eq!(buffer.remove(4), Ok(2));
    assert_eq!(buffer.line_cache().len(), 2);
    assert_eq!(buffer.remove(3), Ok(1));
    assert_eq!(buffer.request_lines(0, 5), vec!["a", "b"]);
    assert_eq!(buffer.remove(1), Ok(0));
    assert_eq!(buffer.request_lines(0, 5), vec!["ab"]);
    assert_eq!(entries(&buffer), vec![Line::new(1, LineIndices::new(0, 2, 2))]);
}

#[test]
fn removing_a_range_of_lines() {
    check_removing_a_range_of_lines::<Rope>();
}

#[test]
fn removing_a_range_of_lines_with_ropey() {
    check_removing_a_range_of_lines::<RopeyStore>();
}

fn check_removing_a_range_of_lines<S: TextStore>() {
    let mut buffer = Buffer::<S>::from_text(1, "zero\none\ntwo\nthree\n");
    let before = entries(&buffer);
    assert_eq!(buffer.remove_range(6, 14), Ok(1));
    assert_eq!(buffer.request_lines(0, 9), vec!["zero", "ohree"]);
    assert_eq!(&entries(&buffer)[..1], &before[..1]);
    assert_eq!(buffer.remove_range(3, 2), Err(RopeError::OutOfBounds));
    assert_eq!(buffer.remove_range(0, 12), Err(RopeError::OutOfBounds));
    assert_eq!(buffer.request_lines(0, 9), vec!["zero", "ohree"]);
}

#[test]
fn long_documents() {
    check_long_documents::<Rope>();
}

#[test]
fn long_documents_with_ropey() {
    check_long_documents::<RopeyStore>();
}

fn check_long_documents<S: TextStore>() {
    let lines: Vec<String> = (0..200).map(|i| format!("line number {} of the document", i)).collect();
    let text = lines.join("\r\n") + "\r\n";
    let buffer = Buffer::<S>::from_text(1, &text);
    assert_eq!(buffer.line_cache().len(), 200);
    assert_eq!(buffer.request_lines(0, 200), lines);
    assert_eq!(buffer.request_lines(150, 153), &lines[150..153]);
}

#[test]
fn shallow_cache_holds_entries_in_order() {
    let entry = |n: usize| Line::new(n, LineIndices::new(n * 10, n * 10 + 9, n * 10 + 8));
    let mut cache = ShallowCache::new();
    assert_eq!(cache.len(), 0);
    cache.push_line(entry(1));
    cache.push_line(entry(3));
    cache.insert_line(1, entry(2));
    cache.insert_line(3, entry(4));
    assert_eq!(cache.len(), 4);
    assert_eq!(cache.get(1), Some(&entry(2)));
    assert_eq!(cache.get(3), Some(&entry(4)));
    assert_eq!(cache.get(4), None);
    cache.replace_line(0, entry(7));
    cache.replace_line(8, entry(8));
    assert_eq!(cache.get(0), Some(&entry(7)));
    assert_eq!(cache.slice(1, 3), Some(&[entry(2), entry(3)][..]));
    assert_eq!(cache.slice(2, 2), Some(&[][..]));
    assert_eq!(cache.slice(3, 2), None);
    assert_eq!(cache.slice(1, 5), None);
    cache.truncate(9);
    assert_eq!(cache.len(), 4);
    cache.truncate(1);
    assert_eq!(cache.len(), 1);
    cache.clear();
    assert_eq!(cache.len(), 0);

    let line = entry(2);
    assert_eq!(line.start_index(), 20);
    assert_eq!(line.end_index(), 29);
    assert_eq!(line.end_line(), 28);
}
