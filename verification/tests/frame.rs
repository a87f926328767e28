use kea::engine::buffer::{Buffer, BufferId};
use kea::engine::rope::Rope;
use kea::engine::RopeyStore;
use kea::geometry::Vector2U;
use kea::renderer::style::{Span, StyleId};
use kea::ui::frame::{Cursor, CursorMotion, Frame, FrameId, Invalidation};
use kea::ui::edits::Operation;
use kea::ui::line_cache::Text;

type Payload = Vec<u32>;

fn frame(lines: usize) -> Frame<Payload> {
    Frame::new(FrameId(1), BufferId(1), Vector2U::new(640, 480), Vector2U::zero(), lines)
}

fn ten_lines() -> Buffer<Rope> {
    let text: String = (0..10).map(|i| format!("line {}\n", i)).collect();
    Buffer::from_text(1, &text)
}

fn shown(frame: &Frame<Payload>) -> Vec<Option<(usize, String)>> {
    frame
        .lines()
        .iter()
        .map(|slot| slot.as_ref().map(|text| (text.line_number, text.text.clone())))
        .collect()
}

fn expected(first: usize, count: usize, document: usize) -> Vec<Option<(usize, String)>> {
    (first..first + count)
        .map(|line| if line < document { Some((line + 1, format!("line {}", line))) } else { None })
        .collect()
}

#[test]
fn new_frame_is_empty() {
    let frame = frame(4);
    assert_eq!(frame.id(), FrameId(1));
    assert_eq!(frame.buffer(), BufferId(1));
    assert_eq!(frame.width(), 640);
    assert_eq!(frame.height(), 480);
    assert_eq!(frame.origin(), &Vector2U::zero());
    assert!(!frame.is_active());
    assert_eq!(frame.view(), 0..4);
    assert_eq!(frame.cursor(), Cursor::new(0, 0));
    assert_eq!(frame.lines().len(), 4);
    assert!(frame.lines().iter().all(|slot| slot.is_none()));
}

#[test]
fn init_on_an_empty_document() {
    let buffer = Buffer::<Rope>::empty(1).unwrap();
    let mut frame = frame(5);
    frame.update_line_cache(&buffer, Invalidation::Init);
    assert_eq!(frame.lines().len(), 5);
    assert!(frame.lines().iter().all(|slot| slot.is_none()));
    assert_eq!(frame.view(), 0..5);
}

#[test]
fn init_fills_every_slot() {
    let buffer = ten_lines();
    let mut frame = frame(3);
    frame.update_line_cache(&buffer, Invalidation::Init);
    assert_eq!(frame.view(), 0..3);
    assert_eq!(shown(&frame), expected(0, 3, 10));
    let first = frame.lines()[0].as_ref().unwrap();
    assert!(!first.visual_line);
    assert!(first.assoc.is_none());
    // the cursor stands at the start of the text
    assert_eq!(first.cursors, vec![0]);
    assert_eq!(first.styles.len(), 1);
    assert_eq!(first.styles[0].style(), StyleId(0));
    assert_eq!(*first.styles[0].span(), Span::new(0, 6));
    let second = frame.lines()[1].as_ref().unwrap();
    assert_eq!(second.cursors, Vec::<usize>::new());
}

#[test]
fn init_on_a_short_document() {
    let buffer = Buffer::<Rope>::from_text(1, "only\ntwo");
    let mut frame = frame(4);
    frame.update_line_cache(&buffer, Invalidation::Init);
    assert_eq!(
        shown(&frame),
        vec![Some((1, "only".to_string())), Some((2, "two".to_string())), None, None]
    );
    assert_eq!(frame.view(), 0..4);
}

#[test]
fn init_goes_back_to_the_top() {
    let buffer = ten_lines();
    let mut frame = frame(3);
    frame.update_line_cache(&buffer, Invalidation::Init);
    frame.update_line_cache(&buffer, Invalidation::ScrollDown { pixels: 0, lines: 4 });
    assert_eq!(frame.view(), 4..7);
    frame.update_line_cache(&buffer, Invalidation::Init);
    assert_eq!(frame.view(), 0..3);
    assert_eq!(shown(&frame), expected(0, 3, 10));
}

#[test]
fn scroll_down_reuses_what_stays_in_view() {
    let buffer = ten_lines();
    let mut frame = frame(5);
    frame.update_line_cache(&buffer, Invalidation::Init);
    // what a renderer attached shows which records were kept
    for (i, slot) in frame.lines_mut().iter_mut().enumerate() {
        slot.as_mut().unwrap().set_assoc(vec![i as u32]);
    }
    frame.update_line_cache(&buffer, Invalidation::ScrollDown { pixels: 32, lines: 2 });
    assert_eq!(frame.view(), 2..7);
    assert_eq!(shown(&frame), expected(2, 5, 10));
    let payloads: Vec<Option<Payload>> =
        frame.lines().iter().map(|slot| slot.as_ref().unwrap().assoc.clone()).collect();
    assert_eq!(payloads, vec![Some(vec![2]), Some(vec![3]), Some(vec![4]), None, None]);
}

#[test]
fn scroll_up_reuses_what_stays_in_view() {
    let buffer = ten_lines();
    let mut frame = frame(4);
    frame.update_line_cache(&buffer, Invalidation::Init);
    frame.update_line_cache(&buffer, Invalidation::ScrollDown { pixels: 0, lines: 5 });
    assert_eq!(frame.view(), 5..9);
    for (i, slot) in frame.lines_mut().iter_mut().enumerate() {
        slot.as_mut().unwrap().set_assoc(vec![i as u32]);
    }
    frame.update_line_cache(&buffer, Invalidation::ScrollUp { pixels: 0, lines: 3 });
    assert_eq!(frame.view(), 2..6);
    assert_eq!(shown(&frame), expected(2, 4, 10));
    let payloads: Vec<Option<Payload>> =
        frame.lines().iter().map(|slot| slot.as_ref().unwrap().assoc.clone()).collect();
    assert_eq!(payloads, vec![None, None, None, Some(vec![0])]);
}

#[test]
fn scroll_up_stops_at_the_first_line() {
    let buffer = ten_lines();
    let mut frame = frame(3);
    frame.update_line_cache(&buffer, Invalidation::Init);
    frame.update_line_cache(&buffer, Invalidation::ScrollDown { pixels: 0, lines: 2 });
    frame.update_line_cache(&buffer, Invalidation::ScrollUp { pixels: 0, lines: 50 });
    assert_eq!(frame.view(), 0..3);
    assert_eq!(shown(&frame), expected(0, 3, 10));
    frame.update_line_cache(&buffer, Invalidation::ScrollUp { pixels: 0, lines: 1 });
    assert_eq!(frame.view(), 0..3);
    assert_eq!(shown(&frame), expected(0, 3, 10));
}

#[test]
fn scroll_past_the_document() {
    let buffer = ten_lines();
    let mut frame = frame(4);
    frame.update_line_cache(&buffer, Invalidation::Init);
    frame.update_line_cache(&buffer, Invalidation::ScrollDown { pixels: 0, lines: 8 });
    assert_eq!(frame.view(), 8..12);
    assert_eq!(shown(&frame), expected(8, 4, 10));
    frame.update_line_cache(&buffer, Invalidation::ScrollDown { pixels: 0, lines: 100 });
    assert_eq!(frame.view(), 108..112);
    assert_eq!(shown(&frame), vec![None, None, None, None]);
    frame.update_line_cache(&buffer, Invalidation::ScrollDown { pixels: 0, lines: usize::MAX });
    assert_eq!(frame.view(), usize::MAX - 4..usize::MAX);
    assert_eq!(shown(&frame), vec![None, None, None, None]);
    frame.update_line_cache(&buffer, Invalidation::ScrollUp { pixels: 0, lines: usize::MAX });
    assert_eq!(frame.view(), 0..4);
    assert_eq!(shown(&frame), expected(0, 4, 10));
}

#[test]
fn scrolling_a_frame_without_slots() {
    let buffer = ten_lines();
    let mut frame = frame(0);
    frame.update_line_cache(&buffer, Invalidation::Init);
    frame.update_line_cache(&buffer, Invalidation::ScrollDown { pixels: 0, lines: 3 });
    assert_eq!(frame.view(), 3..3);
    frame.update_line_cache(&buffer, Invalidation::ScrollUp { pixels: 0, lines: 1 });
    assert_eq!(frame.view(), 2..2);
    assert_eq!(frame.lines().len(), 0);
    assert_eq!(frame.move_cursor(CursorMotion::Down, 2), Some(1));
}

#[test]
fn scrolling_an_empty_document() {
    let buffer = Buffer::<Rope>::empty(1).unwrap();
    let mut frame = frame(3);
    frame.update_line_cache(&buffer, Invalidation::Init);
    frame.update_line_cache(&buffer, Invalidation::ScrollDown { pixels: 0, lines: 7 });
    assert_eq!(frame.view(), 7..10);
    frame.update_line_cache(&buffer, Invalidation::ScrollUp { pixels: 0, lines: 9 });
    assert_eq!(frame.view(), 0..3);
    assert!(frame.lines().iter().all(|slot| slot.is_none()));
}

#[test]
fn cursor_leaves_the_view() {
    let buffer = ten_lines();
    let mut frame = frame(3);
    frame.update_line_cache(&buffer, Invalidation::Init);
    assert_eq!(frame.view(), 0..3);
    // line 5 is three lines past line 2, the last one in view
    let delta = frame.move_cursor(CursorMotion::Down, 5);
    assert_eq!(delta, Some(3));
    assert_eq!(frame.cursor(), Cursor::new(5, 0));
    frame.update_line_cache(&buffer, Invalidation::ScrollDown { pixels: 0, lines: 3 });
    assert_eq!(frame.view(), 3..6);
    assert!(frame.view().contains(&frame.cursor().line()));
    assert_eq!(shown(&frame), expected(3, 3, 10));
    assert_eq!(frame.lines()[2].as_ref().unwrap().cursors, vec![0]);
}

#[test]
fn cursor_two_lines_below_the_view() {
    let buffer = ten_lines();
    let mut frame = frame(3);
    frame.update_line_cache(&buffer, Invalidation::Init);
    assert_eq!(frame.move_cursor(CursorMotion::Down, 4), Some(2));
    frame.update_line_cache(&buffer, Invalidation::ScrollDown { pixels: 0, lines: 2 });
    assert_eq!(frame.view(), 2..5);
    assert!(frame.view().contains(&frame.cursor().line()));
    assert_eq!(shown(&frame), expected(2, 3, 10));
}

#[test]
fn cursor_moves_within_the_view() {
    let buffer = ten_lines();
    let mut frame = frame(4);
    frame.update_line_cache(&buffer, Invalidation::Init);
    assert_eq!(frame.move_cursor(CursorMotion::Down, 3), None);
    assert_eq!(frame.move_cursor(CursorMotion::Up, 1), None);
    assert_eq!(frame.move_cursor(CursorMotion::Right, 7), None);
    assert_eq!(frame.move_cursor(CursorMotion::Left, 2), None);
    assert_eq!(frame.cursor(), Cursor::new(2, 5));
    assert_eq!(frame.move_cursor(CursorMotion::Left, 50), None);
    assert_eq!(frame.move_cursor(CursorMotion::Up, 50), None);
    assert_eq!(frame.cursor(), Cursor::new(0, 0));
    assert_eq!(frame.view(), 0..4);
}

#[test]
fn cursor_delta_brings_the_cursor_back() {
    let buffer = ten_lines();
    for capacity in 1..5usize {
        for start in 0..6usize {
            for target in 0..12usize {
                let mut frame = frame(capacity);
                frame.update_line_cache(&buffer, Invalidation::Init);
                frame.update_line_cache(&buffer, Invalidation::ScrollDown { pixels: 0, lines: start });
                let view = frame.view();
                let delta = frame.move_cursor(CursorMotion::Down, target);
                match delta {
                    None => assert!(view.contains(&target)),
                    Some(by) => {
                        assert!(!view.contains(&target));
                        let moved = (view.start as i128 + by)..(view.end as i128 + by);
                        assert!(moved.contains(&(target as i128)));
                        // one line less does not reach it
                        let short = by - by.signum();
                        let nearly = (view.start as i128 + short)..(view.end as i128 + short);
                        assert!(!nearly.contains(&(target as i128)));
                    }
                }
            }
        }
    }
}

#[test]
fn cursor_above_the_view() {
    let buffer = ten_lines();
    let mut frame = frame(3);
    frame.update_line_cache(&buffer, Invalidation::Init);
    frame.update_line_cache(&buffer, Invalidation::ScrollDown { pixels: 0, lines: 6 });
    assert_eq!(frame.move_cursor(CursorMotion::Down, 2), Some(-4));
    assert_eq!(frame.move_cursor(CursorMotion::Down, usize::MAX), Some(usize::MAX as i128 - 8));
    assert_eq!(frame.cursor(), Cursor::new(usize::MAX, 0));
    assert_eq!(frame.move_cursor(CursorMotion::Right, usize::MAX), Some(usize::MAX as i128 - 8));
    assert_eq!(frame.cursor(), Cursor::new(usize::MAX, usize::MAX));
}

#[test]
fn cursor_columns_are_attached_at_layout() {
    let buffer = ten_lines();
    let mut frame = frame(3);
    assert_eq!(frame.move_cursor(CursorMotion::Down, 1), None);
    assert_eq!(frame.move_cursor(CursorMotion::Right, 4), None);
    assert_eq!(frame.get_cursors(1), Some(Cursor::new(1, 4)));
    assert_eq!(frame.get_cursors(0), None);
    frame.update_line_cache(&buffer, Invalidation::Init);
    let cursors: Vec<Vec<usize>> =
        frame.lines().iter().map(|slot| slot.as_ref().unwrap().cursors.clone()).collect();
    assert_eq!(cursors, vec![vec![], vec![4], vec![]]);
}

#[test]
fn layout_of_one_line() {
    let frame = frame(1);
    let laid = frame.layout_line(7, "héllo".to_string(), Some(Cursor::new(6, 2)));
    assert_eq!(laid.len(), 1);
    assert_eq!(laid[0].text, "héllo");
    assert_eq!(laid[0].line_number, 7);
    assert!(!laid[0].visual_line);
    assert!(laid[0].assoc.is_none());
    assert_eq!(laid[0].cursors, vec![2]);
    assert_eq!(laid[0].styles.len(), 1);
    assert_eq!(laid[0].styles[0].start(), 0);
    // the span is in bytes
    assert_eq!(laid[0].styles[0].end(), 6);
    let plain = frame.layout_line(1, String::new(), None);
    assert_eq!(plain[0].cursors, Vec::<usize>::new());
    assert_eq!(plain[0].styles[0].end(), 0);
}

#[test]
fn set_line_writes_to_lines_in_view() {
    let buffer = ten_lines();
    let mut frame = frame(3);
    frame.update_line_cache(&buffer, Invalidation::Init);
    frame.update_line_cache(&buffer, Invalidation::ScrollDown { pixels: 0, lines: 2 });
    frame.set_line(3, Text::from_string(4, "changed".to_string()));
    frame.set_line(1, Text::from_string(2, "above".to_string()));
    frame.set_line(5, Text::from_string(6, "below".to_string()));
    assert_eq!(
        shown(&frame),
        vec![
            Some((3, "line 2".to_string())),
            Some((4, "changed".to_string())),
            Some((5, "line 4".to_string()))
        ]
    );
}

#[test]
fn active_flag() {
    let mut frame = frame(2);
    frame.set_active(true);
    assert!(frame.is_active());
    frame.set_active(false);
    assert!(!frame.is_active());
    assert_eq!(frame.view(), 0..2);
}

#[test]
fn capacity_from_pixels() {
    assert_eq!(Frame::<Payload>::compute_lines(480, 16), 30);
    assert_eq!(Frame::<Payload>::compute_lines(481, 16), 30);
    assert_eq!(Frame::<Payload>::compute_lines(15, 16), 0);
    assert_eq!(Frame::<Payload>::compute_lines(0, 1), 0);
}

#[test]
fn scroll_for_a_delta() {
    assert_eq!(Invalidation::from_delta(0), None);
    assert_eq!(Invalidation::from_delta(3), Some(Invalidation::ScrollDown { pixels: 0, lines: 3 }));
    assert_eq!(Invalidation::from_delta(-4), Some(Invalidation::ScrollUp { pixels: 0, lines: 4 }));
    assert_eq!(
        Invalidation::from_delta(i128::MAX),
        Some(Invalidation::ScrollDown { pixels: 0, lines: usize::MAX })
    );
    assert_eq!(
        Invalidation::from_delta(i128::MIN),
        Some(Invalidation::ScrollUp { pixels: 0, lines: usize::MAX })
    );
    assert_eq!(
        Invalidation::from_delta(usize::MAX as i128),
        Some(Invalidation::ScrollDown { pixels: 0, lines: usize::MAX })
    );
}

#[test]
fn operations_are_performed() {
    let buffer = ten_lines();
    let mut frame = frame(3);
    frame.update_line_cache(&buffer, Invalidation::Init);

    assert_eq!(frame.perform(&buffer, Operation::CursorDown, 16), None);
    assert_eq!(frame.perform(&buffer, Operation::CursorDown, 16), None);
    assert_eq!(frame.cursor(), Cursor::new(2, 0));
    assert_eq!(frame.view(), 0..3);
    // the cursor leaves the view by one line, and the view follows
    assert_eq!(
        frame.perform(&buffer, Operation::CursorDown, 16),
        Some(Invalidation::ScrollDown { pixels: 0, lines: 1 })
    );
    assert_eq!(frame.cursor(), Cursor::new(3, 0));
    assert_eq!(frame.view(), 1..4);
    assert_eq!(shown(&frame), expected(1, 3, 10));

    assert_eq!(
        frame.perform(&buffer, Operation::ScrollDown, 16),
        Some(Invalidation::ScrollDown { pixels: 16, lines: 1 })
    );
    assert_eq!(frame.view(), 2..5);
    assert_eq!(frame.cursor(), Cursor::new(3, 0));
    assert_eq!(
        frame.perform(&buffer, Operation::ScrollUp, 16),
        Some(Invalidation::ScrollUp { pixels: 16, lines: 1 })
    );
    assert_eq!(
        frame.perform(&buffer, Operation::ScrollUp, 16),
        Some(Invalidation::ScrollUp { pixels: 16, lines: 1 })
    );
    assert_eq!(frame.view(), 0..3);
    assert_eq!(shown(&frame), expected(0, 3, 10));

    // the cursor is at line 3, below the view: moving it up brings it to line 2
    assert_eq!(frame.perform(&buffer, Operation::CursorUp, 16), None);
    assert_eq!(frame.cursor(), Cursor::new(2, 0));
    assert_eq!(frame.perform(&buffer, Operation::CursorRight, 16), None);
    assert_eq!(frame.perform(&buffer, Operation::CursorRight, 16), None);
    assert_eq!(frame.perform(&buffer, Operation::CursorLeft, 16), None);
    assert_eq!(frame.cursor(), Cursor::new(2, 1));

    frame.update_line_cache(&buffer, Invalidation::ScrollDown { pixels: 0, lines: 6 });
    assert_eq!(frame.view(), 6..9);
    assert_eq!(
        frame.perform(&buffer, Operation::CursorUp, 16),
        Some(Invalidation::ScrollUp { pixels: 0, lines: 5 })
    );
    assert_eq!(frame.cursor(), Cursor::new(1, 1));
    assert_eq!(frame.view(), 1..4);
    assert_eq!(shown(&frame), expected(1, 3, 10));
}

#[test]
fn frames_over_a_document_in_ropey() {
    let text: String = (0..10).map(|i| format!("line {}\r\n", i)).collect();
    let mut buffer = Buffer::<RopeyStore>::from_text(1, &text);
    let mut frame = frame(3);
    frame.update_line_cache(&buffer, Invalidation::Init);
    assert_eq!(shown(&frame), expected(0, 3, 10));
    frame.update_line_cache(&buffer, Invalidation::ScrollDown { pixels: 0, lines: 8 });
    assert_eq!(frame.view(), 8..11);
    assert_eq!(shown(&frame), expected(8, 3, 10));
    assert_eq!(buffer.insert(0, "first\n"), Ok(0));
    frame.update_line_cache(&buffer, Invalidation::Init);
    assert_eq!(
        shown(&frame),
        vec![
            Some((1, "first".to_string())),
            Some((2, "line 0".to_string())),
            Some((3, "line 1".to_string()))
        ]
    );
}
