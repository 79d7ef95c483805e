use book::progress::{Position, Progress};

/// Reads a progress file the way the program does: a bare number is a legacy
/// line, a table holds a chapter and an offset.
fn progress_from_toml(raw: &str) -> Progress {
    let table: toml::Table = toml::from_str(raw).unwrap();
    let mut entries = Vec::new();
    if let Some(toml::Value::Table(positions)) = table.get("positions") {
        for (key, value) in positions {
            let position = match value {
                toml::Value::Integer(n) => Position::Line(*n as usize),
                toml::Value::Table(t) => Position::Chapter {
                    chapter: t["chapter"].as_integer().unwrap() as usize,
                    offset: t["offset"].as_integer().unwrap() as usize,
                },
                other => panic!("unexpected position {other:?}"),
            };
            entries.push((key.clone(), position));
        }
    }
    Progress::from_entries(entries)
}

fn progress_to_toml(progress: &Progress) -> String {
    let mut positions = toml::Table::new();
    for (key, position) in progress.entries() {
        let value = match position {
            Position::Line(n) => toml::Value::Integer(n as i64),
            Position::Chapter { chapter, offset } => {
                let mut t = toml::Table::new();
                t.insert("chapter".to_string(), toml::Value::Integer(chapter as i64));
                t.insert("offset".to_string(), toml::Value::Integer(offset as i64));
                toml::Value::Table(t)
            }
        };
        positions.insert(key, value);
    }
    let mut table = toml::Table::new();
    table.insert("positions".to_string(), toml::Value::Table(positions));
    toml::to_string(&table).unwrap()
}

#[test]
fn legacy_progress_restores_a_later_chapter() {
    let progress: Progress = progress_from_toml("[positions]\nbook = 70\n");
    assert_eq!(progress.get("book").resolve(&[61, 61]), (1, 9));
    assert_eq!(Position::Line(61).resolve(&[61, 61]), (1, 0));
}

#[test]
fn chapter_progress_round_trips_alongside_legacy_entries() {
    let mut progress: Progress = progress_from_toml("[positions]\nold = 70\n");
    progress.set("new".to_string(), 1, 23);
    let restored: Progress = progress_from_toml(&progress_to_toml(&progress));
    assert_eq!(restored.get("old").resolve(&[61, 61]), (1, 9));
    assert_eq!(restored.get("new").resolve(&[61, 61]), (1, 23));
}

#[test]
fn progress_handles_shortened_or_empty_books() {
    assert_eq!(Position::Line(999).resolve(&[20, 30]), (1, 29));
    assert_eq!(Position::Line(10).resolve(&[]), (0, 0));
    assert_eq!(
        Position::Chapter {
            chapter: 9,
            offset: 10
        }
        .resolve(&[20]),
        (0, 10)
    );
}

#[test]
fn unknown_book_starts_at_the_top() {
    let progress = Progress::new();
    assert_eq!(progress.get("missing"), Position::Line(0));
    assert_eq!(Progress::default().get("missing"), Position::Line(0));
}

#[test]
fn saving_again_replaces_the_position_of_that_book_only() {
    let mut progress = Progress::new();
    progress.set("a".to_string(), 1, 2);
    progress.set("b".to_string(), 3, 4);
    progress.set("a".to_string(), 5, 6);
    assert_eq!(progress.get("a"), Position::Chapter { chapter: 5, offset: 6 });
    assert_eq!(progress.get("b"), Position::Chapter { chapter: 3, offset: 4 });
    assert_eq!(progress.entries().len(), 2);
}

#[test]
fn later_entries_win_when_building_a_table() {
    let progress = Progress::from_entries(vec![
        ("x".to_string(), Position::Line(1)),
        ("x".to_string(), Position::Line(2)),
    ]);
    assert_eq!(progress.get("x"), Position::Line(2));
    assert_eq!(progress.entries().len(), 1);
}

#[test]
fn legacy_line_lands_in_its_chapter() {
    // line 3 of chapter 2 stands after 5 + 7 lines
    assert_eq!(Position::Line(5 + 7 + 3).resolve(&[5, 7, 9]), (2, 3));
    assert_eq!(Position::Line(4).resolve(&[5, 7, 9]), (0, 4));
    assert_eq!(Position::Line(5).resolve(&[5, 7, 9]), (1, 0));
    // an empty last chapter stops at its first line
    assert_eq!(Position::Line(100).resolve(&[5, 0]), (1, 0));
}
