use book::cli::{parse_args, Command};
use book::progress::Position;
use book::reader::{
    clamp_offset, content_height, position_after_wrap, library_key, max_offset, page_size, progress_bar, progress_percent,
    reader_key, rescale_offset, toc_key, LibraryKey, LibraryStep, ReaderKey, ReaderStep, TocKey, TocStep,
};

#[test]
fn shelf_keys_move_open_and_quit() {
    assert_eq!(
        library_key(Some(0), 3, LibraryKey::Down),
        LibraryStep { quit: false, selected: Some(1), open: None }
    );
    assert_eq!(library_key(Some(2), 3, LibraryKey::Down).selected, Some(2));
    assert_eq!(library_key(Some(0), 3, LibraryKey::Up).selected, Some(0));
    assert_eq!(library_key(None, 3, LibraryKey::Down).selected, Some(1));
    assert_eq!(library_key(Some(1), 3, LibraryKey::Enter).open, Some(1));
    assert_eq!(library_key(None, 0, LibraryKey::Enter).open, None);
    assert!(library_key(None, 0, LibraryKey::Quit).quit);
    assert_eq!(library_key(None, 0, LibraryKey::Down).selected, None);
}

#[test]
fn reading_keys_scroll_within_and_across_chapters() {
    let lengths = [30, 50];
    let page = 20;
    assert_eq!(reader_key(&lengths, 0, 5, page, ReaderKey::LineDown), ReaderStep::Scroll { chapter: 0, offset: 6 });
    assert_eq!(reader_key(&lengths, 0, 10, page, ReaderKey::LineDown), ReaderStep::Scroll { chapter: 1, offset: 0 });
    assert_eq!(reader_key(&lengths, 1, 0, page, ReaderKey::LineUp), ReaderStep::Scroll { chapter: 0, offset: 10 });
    assert_eq!(reader_key(&lengths, 1, 0, page, ReaderKey::PageDown), ReaderStep::Scroll { chapter: 1, offset: 20 });
    assert_eq!(reader_key(&lengths, 1, 20, page, ReaderKey::PageDown), ReaderStep::Scroll { chapter: 1, offset: 30 });
    assert_eq!(reader_key(&lengths, 1, 30, page, ReaderKey::PageDown), ReaderStep::Scroll { chapter: 1, offset: 30 });
    assert_eq!(reader_key(&lengths, 1, 5, page, ReaderKey::PageUp), ReaderStep::Scroll { chapter: 1, offset: 0 });
    assert_eq!(reader_key(&lengths, 0, 0, page, ReaderKey::PageUp), ReaderStep::Scroll { chapter: 0, offset: 0 });
    assert_eq!(reader_key(&lengths, 1, 3, page, ReaderKey::Contents), ReaderStep::OpenContents { selected: 1 });
    assert_eq!(reader_key(&lengths, 1, 3, page, ReaderKey::Back), ReaderStep::Leave);
    assert_eq!(reader_key(&lengths, 1, 3, page, ReaderKey::Other), ReaderStep::Stay);
}

#[test]
fn contents_keys_select_and_jump() {
    assert_eq!(toc_key(Some(0), 4, TocKey::Down), TocStep::Select(1));
    assert_eq!(toc_key(Some(3), 4, TocKey::Down), TocStep::Select(3));
    assert_eq!(toc_key(Some(0), 4, TocKey::Up), TocStep::Select(0));
    assert_eq!(toc_key(Some(2), 4, TocKey::Enter), TocStep::Jump(Some(2)));
    assert_eq!(toc_key(None, 4, TocKey::Enter), TocStep::Jump(None));
    assert_eq!(toc_key(Some(2), 4, TocKey::Back), TocStep::Back);
}

#[test]
fn page_layout_and_progress_bar() {
    assert_eq!(content_height(25), 24);
    assert_eq!(content_height(1), 1);
    assert_eq!(content_height(0), 1);
    assert_eq!(page_size(None), 20);
    assert_eq!(page_size(Some(11)), 10);
    assert_eq!(max_offset(100, 20), 80);
    assert_eq!(max_offset(10, 20), 0);
    assert_eq!(clamp_offset(95, 100, 20), 80);
    assert_eq!(clamp_offset(5, 100, 20), 5);
    assert_eq!(rescale_offset(50, 100, 200), 100);
    assert_eq!(rescale_offset(7, 0, 3), 21);
    assert_eq!(progress_percent(0, 10, 100), 10);
    assert_eq!(progress_percent(95, 10, 100), 100);
    assert_eq!(progress_percent(0, 10, 0), 100);
    assert_eq!(progress_bar(30), "[####------]30%");
    assert_eq!(progress_bar(100), "[##########]100%");
    assert_eq!(progress_bar(0), "[#---------]0%");
}

#[test]
fn command_line_queries() {
    assert_eq!(parse_args(vec![]), Command::Run);
    assert_eq!(parse_args(vec!["--version".to_string()]), Command::Version);
    assert_eq!(parse_args(vec!["--help".to_string()]), Command::Help);
    assert_eq!(parse_args(vec!["-h".to_string()]), Command::Help);
    assert_eq!(parse_args(vec!["--unknown".to_string()]), Command::Unsupported("--unknown".to_string()));
    assert_eq!(
        parse_args(vec!["--help".to_string(), "x".to_string()]),
        Command::Unsupported("x".to_string())
    );
}

#[test]
fn position_is_placed_after_wrapping() {
    // a saved legacy line is placed once the chapters have line counts
    assert_eq!(position_after_wrap(Some(Position::Line(70)), &[61, 61], 0, 0, 0, false), (1, 9));
    assert_eq!(
        position_after_wrap(Some(Position::Chapter { chapter: 5, offset: 3 }), &[10, 10], 0, 0, 0, false),
        (1, 3)
    );
    // a change of width keeps the share read
    assert_eq!(position_after_wrap(None, &[40, 200], 1, 30, 100, true), (1, 60));
    assert_eq!(position_after_wrap(None, &[40, 200], 1, 30, 100, false), (1, 30));
}
