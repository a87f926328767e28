use kea::engine::rope::{Node, Rope, RopeBuilder, RopeError, RopeMetrics, MAX_LEAF_SIZE, MIN_LEAF_SIZE};

const LOREM: &str = "Lorem ipsum dolor sit amet, consectetur adipiscing elit. Nullam pellentesque iaculis nunc, at tristique massa.";

const MIXED: &str = "héllo wörld — ünïcödé text with ✓ marks and 日本語 characters, long enough for chunks";

fn assert_indexing_matches(s: &str) {
    let rope = Rope::from_str(s).unwrap();
    let chars = s.chars().count();
    for idx in 0..chars {
        assert_eq!(rope.get(idx), s.chars().nth(idx));
    }
    assert_eq!(rope.get(chars), None);
    assert_eq!(rope.get(chars + 7), None);
    for idx in 0..s.len() {
        assert_eq!(rope.get_byte(idx), Some(s.as_bytes()[idx]));
    }
    assert_eq!(rope.get_byte(s.len()), None);
    assert_eq!(rope.get_byte(s.len() + 7), None);
}

/// internal tests
#[test]
fn concate() {
    let left = Rope::from_str("hello, ").unwrap();
    let right = Rope::from_str("world").unwrap();
    let both = Node::concatenate(left, right);
    assert_eq!(both.to_string(), "hello, world");
    assert_eq!(both.len_bytes(), 12);
    assert_eq!(both.len(), 12);
    // the root caches the size of its left subtree
    assert_eq!(both.weight(), 7);
    assert_eq!(both.weight_chars(), 7);
    assert_eq!(both.get(7), Some('w'));
    assert_eq!(both.get_byte(6), Some(b' '));
}

#[test]
fn concatenate_caches_the_size_of_the_left_tree() {
    // 'é' and 'ö' take two bytes each
    let left = Rope::from_str("héllo wörld, ").unwrap();
    let right = Rope::from_str("again").unwrap();
    let both = Node::concatenate(left, right);
    assert_eq!(both.weight(), 15);
    assert_eq!(both.weight_chars(), 13);
    assert_eq!(both.len_bytes(), 20);
    assert_eq!(both.len(), 18);
    assert_eq!(both.get(13), Some('a'));
    assert_eq!(both.get_byte(15), Some(b'a'));
    assert_eq!(both.get(12), Some(' '));
    assert_eq!(both.get_byte(2), Some(0xa9));

    let leaf = Rope::from_str("wörld").unwrap();
    assert_eq!(leaf.weight(), 6);
    assert_eq!(leaf.weight_chars(), 5);
    assert_eq!(Rope::empty().weight(), 0);
    assert_eq!(Rope::empty().weight_chars(), 0);

    let nested = Node::concatenate(both, Rope::from_str("!").unwrap());
    assert_eq!(nested.weight(), 20);
    assert_eq!(nested.weight_chars(), 18);
    assert_eq!(nested.get(18), Some('!'));
    assert_eq!(nested.get(19), None);
}

#[test]
fn split() {
    let chars = LOREM.chars().count();
    for k in 0..=chars {
        let rope = Rope::from_str(LOREM).unwrap();
        let (left, right) = Node::split(rope, k).unwrap();
        assert_eq!(left.to_string(), &LOREM[..k]);
        assert_eq!(right.to_string(), &LOREM[k..]);
        let joined = Node::concatenate(left, right);
        assert_eq!(joined.to_string(), LOREM);
    }
    let rope = Rope::from_str(LOREM).unwrap();
    assert_eq!(Node::split(rope, chars + 1).err(), Some(RopeError::OutOfBounds));
}

#[test]
fn split_counts_characters_not_bytes() {
    let chars: Vec<char> = MIXED.chars().collect();
    for k in 0..=chars.len() {
        let rope = Rope::from_str(MIXED).unwrap();
        let (left, right) = Node::split(rope, k).unwrap();
        let head: String = chars[..k].iter().collect();
        let tail: String = chars[k..].iter().collect();
        assert_eq!(left.to_string(), head);
        assert_eq!(right.to_string(), tail);
        assert_eq!(Node::concatenate(left, right).to_string(), MIXED);
    }
}

#[test]
fn split_of_the_empty_tree() {
    let (left, right) = Node::split(Rope::empty(), 0).unwrap();
    assert_eq!(left.to_string(), "");
    assert_eq!(right.to_string(), "");
    assert_eq!(Node::split(Rope::empty(), 1).err(), Some(RopeError::OutOfBounds));
}

#[test]
fn index() {
    let rope = Rope::from_str(LOREM).unwrap();
    for idx in [10usize, 40, 100, 109] {
        assert_eq!(rope.get(idx), LOREM.chars().nth(idx));
        assert_eq!(rope.get_byte(idx), Some(LOREM.as_bytes()[idx]));
    }
    for idx in [110usize, 150, 200] {
        assert_eq!(rope.get(idx), None);
        assert_eq!(rope.get_byte(idx), None);
    }
}

#[test]
fn indexing_follows_the_source_string() {
    assert_indexing_matches(LOREM);
    assert_indexing_matches(MIXED);
    assert_indexing_matches("a");
    assert_indexing_matches("a\nbb\nccc\n");
}

/// external tests
#[test]
fn build() {
    let rope = Rope::from_str(LOREM).unwrap();
    assert_eq!(rope.to_string(), LOREM);
    assert_eq!(rope.len_bytes(), 110);
    assert_eq!(rope.len(), 110);
    // 110 bytes: three full chunks, then the 14 bytes that are left
    assert_eq!(rope.chunk_sizes(), vec![32, 32, 32, 14]);

    assert_eq!(Rope::from_str("").err(), Some(RopeError::Empty));
    assert_eq!(Rope::from_str("abc").unwrap().chunk_sizes(), vec![3]);
}

#[test]
fn build_chunk_sizes() {
    let text = |n: usize| "x".repeat(n);
    assert_eq!(Rope::from_str(&text(1)).unwrap().chunk_sizes(), vec![1]);
    assert_eq!(Rope::from_str(&text(7)).unwrap().chunk_sizes(), vec![7]);
    assert_eq!(Rope::from_str(&text(8)).unwrap().chunk_sizes(), vec![8]);
    assert_eq!(Rope::from_str(&text(31)).unwrap().chunk_sizes(), vec![31]);
    // a full chunk would leave nothing behind it: two halves
    assert_eq!(Rope::from_str(&text(32)).unwrap().chunk_sizes(), vec![16, 16]);
    assert_eq!(Rope::from_str(&text(39)).unwrap().chunk_sizes(), vec![19, 20]);
    assert_eq!(Rope::from_str(&text(40)).unwrap().chunk_sizes(), vec![32, 8]);
    assert_eq!(Rope::from_str(&text(71)).unwrap().chunk_sizes(), vec![32, 19, 20]);
    for n in 8..200 {
        let rope = Rope::from_str(&text(n)).unwrap();
        let sizes = rope.chunk_sizes();
        assert_eq!(sizes.iter().sum::<usize>(), n);
        for size in sizes {
            assert!(MIN_LEAF_SIZE <= size && size <= MAX_LEAF_SIZE);
        }
    }
}

#[test]
fn build_cuts_at_character_boundaries() {
    // 'é' takes two bytes: byte 32 of the text falls inside a character
    let text = format!("{}{}", "x".repeat(31), "é".repeat(30));
    let rope = Rope::from_str(&text).unwrap();
    assert_eq!(rope.to_string(), text);
    assert_eq!(rope.len_bytes(), 91);
    assert_eq!(rope.len(), 61);
    // the first chunk stops one byte short, before the character
    assert_eq!(rope.chunk_sizes(), vec![31, 32, 28]);
    for size in rope.chunk_sizes() {
        assert!(MIN_LEAF_SIZE <= size && size <= MAX_LEAF_SIZE);
    }
    assert_eq!(rope.get(31), Some('é'));
    assert_eq!(rope.get_byte(31), Some(0xc3));
    assert_eq!(rope.get_byte(32), Some(0xa9));
}

#[test]
fn builder_takes_several_pieces() {
    let mut builder = RopeBuilder::<RopeMetrics>::new();
    builder.push("first piece, ");
    builder.push("");
    builder.push("second piece");
    builder.push_node(Rope::from_str("!").unwrap());
    let rope = builder.rope().unwrap();
    assert_eq!(rope.to_string(), "first piece, second piece!");
    assert_eq!(rope.chunk_sizes(), vec![13, 12, 1]);

    let empty = RopeBuilder::<RopeMetrics>::new();
    assert_eq!(empty.rope().err(), Some(RopeError::Empty));
}

#[test]
fn insert() {
    let mut rope = Rope::from_str("one\ntwo\nfour\n").unwrap();
    assert_eq!(rope.insert(8, "three\n"), Ok(2));
    assert_eq!(rope.to_string(), "one\ntwo\nthree\nfour\n");
    assert_eq!(rope.insert(0, "zero\n"), Ok(0));
    assert_eq!(rope.to_string(), "zero\none\ntwo\nthree\nfour\n");
    let end = rope.len();
    assert_eq!(rope.insert(end, "five"), Ok(5));
    assert_eq!(rope.to_string(), "zero\none\ntwo\nthree\nfour\nfive");
    assert_eq!(rope.insert(3, ""), Ok(0));
    assert_eq!(rope.to_string(), "zero\none\ntwo\nthree\nfour\nfive");
    let end = rope.len();
    assert_eq!(rope.insert(end + 1, "x"), Err(RopeError::OutOfBounds));
    assert_eq!(rope.to_string(), "zero\none\ntwo\nthree\nfour\nfive");

    let mut empty = Rope::empty();
    assert_eq!(empty.insert(0, "text"), Ok(0));
    assert_eq!(empty.to_string(), "text");
}

#[test]
fn insert_char() {
    let mut rope = Rope::from_str("ac\n").unwrap();
    assert_eq!(rope.insert_char(1, 'b'), Ok(0));
    assert_eq!(rope.to_string(), "abc\n");
    assert_eq!(rope.insert_char(4, 'é'), Ok(1));
    assert_eq!(rope.to_string(), "abc\né");
    assert_eq!(rope.len(), 5);
    assert_eq!(rope.len_bytes(), 6);
    assert_eq!(rope.insert_char(6, 'x'), Err(RopeError::OutOfBounds));
    assert_eq!(rope.to_string(), "abc\né");
}

#[test]
fn remove() {
    let mut rope = Rope::from_str("one\ntwo\n").unwrap();
    assert_eq!(rope.remove(3), Ok(0));
    assert_eq!(rope.to_string(), "onetwo\n");
    assert_eq!(rope.remove(6), Ok(0));
    assert_eq!(rope.to_string(), "onetwo");
    assert_eq!(rope.remove(0), Ok(0));
    assert_eq!(rope.to_string(), "netwo");
    assert_eq!(rope.remove(5), Err(RopeError::OutOfBounds));
    assert_eq!(rope.to_string(), "netwo");

    let mut lines = Rope::from_str("a\nb\nc").unwrap();
    assert_eq!(lines.remove(4), Ok(2));
    assert_eq!(lines.to_string(), "a\nb\n");

    let mut empty = Rope::empty();
    assert_eq!(empty.remove(0), Err(RopeError::OutOfBounds));
}

#[test]
fn remove_range() {
    let mut rope = Rope::from_str("one\ntwo\nthree\n").unwrap();
    assert_eq!(rope.remove_range(4, 8), Ok(1));
    assert_eq!(rope.to_string(), "one\nthree\n");
    assert_eq!(rope.remove_range(3, 3), Ok(0));
    assert_eq!(rope.to_string(), "one\nthree\n");
    assert_eq!(rope.remove_range(4, 3), Err(RopeError::OutOfBounds));
    assert_eq!(rope.remove_range(4, 11), Err(RopeError::OutOfBounds));
    assert_eq!(rope.to_string(), "one\nthree\n");
    assert_eq!(rope.remove_range(0, 10), Ok(0));
    assert_eq!(rope.to_string(), "");
    assert_eq!(rope.remove_range(0, 0), Ok(0));
}

#[test]
fn build_is_balanced() {
    assert_eq!(Rope::from_str("short").unwrap().depth(), 0);
    // four chunks: two levels
    assert_eq!(Rope::from_str(LOREM).unwrap().depth(), 2);
    assert_eq!(Rope::empty().depth(), 0);
    for chunks in 1..70usize {
        let rope = Rope::from_str(&"x".repeat(32 * chunks + 8)).unwrap();
        assert_eq!(rope.chunk_sizes().len(), chunks + 1);
        let mut levels = 0;
        while (1usize << levels) < chunks + 1 {
            levels += 1;
        }
        assert_eq!(rope.depth(), levels);
    }
    let joined = Node::concatenate(Rope::from_str(LOREM).unwrap(), Rope::empty());
    assert_eq!(joined.depth(), 3);
}

#[test]
fn print() {
    let rope = Rope::from_str(MIXED).unwrap();
    assert_eq!(format!("{}", rope.to_string()), MIXED);
    assert_eq!(rope.duplicate().to_string(), MIXED);
    assert_eq!(Rope::empty().to_string(), "");
}

#[test]
fn lines_walk_the_text() {
    let rope = Rope::from_str("a\nbb\r\n\nccc").unwrap();
    let mut walk = rope.lines();
    let mut found = Vec::new();
    while let Some(slice) = walk.next() {
        found.push((slice.start, slice.end));
    }
    assert_eq!(found, vec![(0, 2), (2, 6), (6, 7), (7, 10)]);
    assert_eq!(rope.num_lines(), 4);
    assert_eq!(rope.count_line_feeds(), 3);

    let mut later = rope.lines_from(6);
    assert_eq!(later.next().map(|s| (s.start, s.end)), Some((6, 7)));
    let mut past = rope.lines_from(100);
    assert!(past.next().is_none());

    let closed = Rope::from_str("a\nb\n").unwrap();
    assert_eq!(closed.num_lines(), 2);
    assert_eq!(Rope::empty().num_lines(), 0);
    assert!(Rope::empty().lines().next().is_none());
}

#[test]
fn line_end_finds_the_line_feed() {
    let text = format!("{}\n{}\nend", "x".repeat(50), "y".repeat(70));
    let rope = Rope::from_str(&text).unwrap();
    assert_eq!(rope.line_end(0), 51);
    assert_eq!(rope.line_end(10), 51);
    assert_eq!(rope.line_end(51), 122);
    assert_eq!(rope.line_end(122), 125);
    assert_eq!(rope.line_end(125), 125);
    assert_eq!(rope.line_end(1000), 125);
}

#[test]
fn slice_bytes_cuts_whole_characters() {
    let rope = Rope::from_str(MIXED).unwrap();
    for start in 0..=MIXED.len() {
        for end in [start, start + 1, start + 5, start + 40, MIXED.len()] {
            let expected = if start <= end && end <= MIXED.len() {
                MIXED.get(start..end).map(|s| s.to_string())
            } else {
                None
            };
            assert_eq!(rope.slice_bytes(start, end), expected);
        }
    }
    assert_eq!(rope.slice_bytes(3, 2), None);
    // byte 2 lies inside 'é'
    assert_eq!(rope.slice_bytes(0, 2), None);
    assert_eq!(rope.slice_bytes(0, 3), Some("hé".to_string()));
}
