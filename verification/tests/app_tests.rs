use cac::{App, Contributor, Key, Row, RowStyle};

fn person(name: &str, email: &str) -> Contributor {
    Contributor { name: name.to_string(), email: email.to_string() }
}

fn id_bytes(hex: &str) -> [u8; 20] {
    git2::Oid::from_str(hex).unwrap().as_bytes().try_into().unwrap()
}

fn sample_app() -> App {
    let contributors = vec![
        person("Alice Smith", "alice@example.com"),
        person("Bob Jones", "bob@example.com"),
        person("Alina Mueller", "alina@example.com"),
        person("Ali Hassan", "ali.hassan@example.com"),
    ];
    let id = id_bytes("a1b2c3d4e5f60718293a4b5c6d7e8f9012345678");
    App::new(contributors, "feat: add user authentication\n\nBody".to_string(), id)
}

#[test]
fn new_shows_everyone_in_order() {
    let app = sample_app();
    assert_eq!(app.filtered, vec![0, 1, 2, 3]);
    assert!(app.selected.is_empty());
    assert_eq!(app.cursor, 0);
    assert_eq!(app.search, "");
    assert!(!app.should_quit && !app.confirmed);
}

#[test]
fn toggle_pins_selected_on_top_and_cursor_follows() {
    let mut app = sample_app();
    app.move_down();
    app.move_down();
    assert_eq!(app.cursor, 2);
    app.toggle_selected();
    assert_eq!(app.selected, vec![2]);
    assert_eq!(app.filtered, vec![2, 0, 1, 3]);
    assert_eq!(app.cursor, 0);
    assert!(app.is_selected(2));
    assert!(!app.is_selected(0));
    app.move_down();
    app.move_down();
    app.toggle_selected();
    assert_eq!(app.selected, vec![2, 1]);
    assert_eq!(app.filtered, vec![2, 1, 0, 3]);
    assert_eq!(app.cursor, 1);
    let chosen = app.get_selected_contributors();
    assert_eq!(chosen, vec![person("Alina Mueller", "alina@example.com"), person("Bob Jones", "bob@example.com")]);
}

#[test]
fn toggling_twice_restores_the_selection() {
    let mut app = sample_app();
    app.move_down();
    app.toggle_selected();
    app.toggle_selected();
    assert!(app.selected.is_empty());
    assert_eq!(app.filtered[app.cursor], 1);
    let mut shown = app.filtered.clone();
    shown.sort();
    assert_eq!(shown, vec![0, 1, 2, 3]);
}

#[test]
fn cursor_stays_in_bounds() {
    let mut app = sample_app();
    app.move_up();
    assert_eq!(app.cursor, 0);
    for _ in 0..10 {
        app.move_down();
    }
    assert_eq!(app.cursor, 3);
}

#[test]
fn typing_filters_with_fuzzy_search_and_keeps_selection_on_top() {
    let mut app = sample_app();
    app.handle_key(Key::Down);
    app.handle_key(Key::Tab);
    assert_eq!(app.selected, vec![1]);
    for c in "ali".chars() {
        assert!(!app.handle_key(Key::Char { ch: c, ctrl: false }));
    }
    assert_eq!(app.search, "ali");
    // Bob does not match "ali" and is not shown, though selected.
    assert!(!app.filtered.contains(&1));
    let mut shown = app.filtered.clone();
    shown.sort();
    assert_eq!(shown, vec![0, 2, 3]);
    assert!(app.cursor < app.filtered.len());
    // A search nothing matches empties the list and puts the cursor at 0.
    app.handle_key(Key::Char { ch: 'z', ctrl: false });
    app.handle_key(Key::Char { ch: 'q', ctrl: false });
    assert!(app.filtered.is_empty());
    assert_eq!(app.cursor, 0);
    // Backspace edits the search and recomputes the list.
    app.handle_key(Key::Backspace);
    app.handle_key(Key::Backspace);
    assert_eq!(app.search, "ali");
    let mut shown = app.filtered.clone();
    shown.sort();
    assert_eq!(shown, vec![0, 2, 3]);
}

#[test]
fn tab_clears_search_and_shows_everyone() {
    let mut app = sample_app();
    for c in "bob".chars() {
        app.handle_key(Key::Char { ch: c, ctrl: false });
    }
    assert_eq!(app.filtered, vec![1]);
    app.handle_key(Key::Tab);
    assert_eq!(app.search, "");
    assert_eq!(app.selected, vec![1]);
    assert_eq!(app.filtered, vec![1, 0, 2, 3]);
}

#[test]
fn backspace_on_empty_search_keeps_it_empty() {
    let mut app = sample_app();
    assert!(!app.handle_key(Key::Backspace));
    assert_eq!(app.search, "");
    assert_eq!(app.filtered, vec![0, 1, 2, 3]);
}

#[test]
fn esc_and_ctrl_c_cancel_enter_confirms() {
    let mut app = sample_app();
    assert!(app.handle_key(Key::Esc));
    assert!(app.should_quit && !app.confirmed);
    assert!(app.result_contributors().is_empty());

    let mut app = sample_app();
    assert!(app.handle_key(Key::Char { ch: 'c', ctrl: true }));
    assert!(app.should_quit);
    assert_eq!(app.search, "");

    let mut app = sample_app();
    assert!(!app.handle_key(Key::Char { ch: 'a', ctrl: true }));
    assert_eq!(app.search, "a");

    let mut app = sample_app();
    app.handle_key(Key::Tab);
    assert!(!app.handle_key(Key::Other));
    assert!(app.handle_key(Key::Enter));
    assert!(app.confirmed && !app.should_quit);
    assert_eq!(app.result_contributors(), vec![person("Alice Smith", "alice@example.com")]);
}

#[test]
fn list_rows_mark_selection_cursor_and_separator() {
    let mut app = sample_app();
    app.move_down();
    app.toggle_selected();
    let rows = app.list_rows();
    assert_eq!(rows.len(), 5);
    match &rows[0] {
        Row::Entry { text, style } => {
            assert_eq!(text, "✓ Bob Jones <bob@example.com>");
            assert_eq!(*style, RowStyle::Cursor);
        }
        _ => panic!("expected an entry"),
    }
    assert!(matches!(rows[1], Row::Separator));
    match &rows[2] {
        Row::Entry { text, style } => {
            assert_eq!(text, "  Alice Smith <alice@example.com>");
            assert_eq!(*style, RowStyle::Plain);
        }
        _ => panic!("expected an entry"),
    }
    app.move_down();
    app.move_down();
    app.move_up();
    let rows = app.list_rows();
    match &rows[0] {
        Row::Entry { style, .. } => assert_eq!(*style, RowStyle::Selected),
        _ => panic!("expected an entry"),
    }
}

#[test]
fn list_rows_without_selection_have_no_separator() {
    let app = sample_app();
    let rows = app.list_rows();
    assert_eq!(rows.len(), 4);
    assert!(rows.iter().all(|r| !matches!(r, Row::Separator)));
}

#[test]
fn header_shows_short_id_and_first_line() {
    let app = sample_app();
    assert_eq!(app.header_text(), " Amending: a1b2c3d feat: add user authentication");
    let id = id_bytes("0000000000000000000000000000000000000001");
    let empty = App::new(vec![], String::new(), id);
    assert_eq!(empty.header_text(), " Amending: 0000000 ");
    assert!(empty.list_rows().is_empty());
}

#[test]
fn header_hex_is_lowercase_and_high_half_first() {
    let mut id = [0u8; 20];
    id[0] = 0xAB;
    id[1] = 0x0F;
    id[2] = 0x9C;
    id[3] = 0x10;
    let app = App::new(vec![], "Line one\r\nLine two".to_string(), id);
    assert_eq!(app.header_text(), " Amending: ab0f9c1 Line one");
}

#[test]
fn sort_filtered_twice_changes_nothing_more() {
    let mut app = sample_app();
    app.filtered = vec![3, 1, 0, 2];
    app.selected = vec![2, 3];
    app.sort_filtered();
    assert_eq!(app.filtered, vec![2, 3, 1, 0]);
    app.sort_filtered();
    assert_eq!(app.filtered, vec![2, 3, 1, 0]);
}
