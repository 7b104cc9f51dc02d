use transit_radar::autocomplete::{
    autocomplete_update, Autocomplete, AutocompleteAction, AutocompleteEvent, Key, StationSuggestion,
};

fn model() -> Autocomplete {
    Autocomplete {
        search: String::new(),
        suggestions: vec![],
        is_open: false,
        highlighted_index: None,
        ignore_blur: false,
        ignore_focus: false,
    }
}

fn suggestion(stop_id: u64, name: &str) -> StationSuggestion {
    StationSuggestion { stop_id, name: name.to_string() }
}

#[test]
fn typing_fetches_from_three_bytes_on() {
    let mut m = model();
    match autocomplete_update(&mut m, AutocompleteEvent::Input("Al".to_string())) {
        AutocompleteAction::Nothing => {}
        other => panic!("unexpected {:?}", other),
    }
    assert_eq!(m.search, "Al");
    match autocomplete_update(&mut m, AutocompleteEvent::Input("Ale".to_string())) {
        AutocompleteAction::Fetch(url) => assert_eq!(url, "/searchStation/Ale"),
        other => panic!("unexpected {:?}", other),
    }
    // two characters, three bytes
    match autocomplete_update(&mut m, AutocompleteEvent::Input("Aß".to_string())) {
        AutocompleteAction::Fetch(url) => assert_eq!(url, "/searchStation/Aß"),
        other => panic!("unexpected {:?}", other),
    }
}

#[test]
fn arrows_move_the_highlight_within_the_list() {
    let mut m = model();
    autocomplete_update(&mut m, AutocompleteEvent::SuggestionsFetched(Some(vec![
        suggestion(1, "Alexanderplatz"),
        suggestion(2, "Alt-Mariendorf"),
    ])));
    autocomplete_update(&mut m, AutocompleteEvent::KeyDown(Key::ArrowDown));
    assert_eq!(m.highlighted_index, Some(0));
    assert!(m.is_open);
    autocomplete_update(&mut m, AutocompleteEvent::KeyDown(Key::ArrowDown));
    autocomplete_update(&mut m, AutocompleteEvent::KeyDown(Key::ArrowDown));
    assert_eq!(m.highlighted_index, Some(1));
    autocomplete_update(&mut m, AutocompleteEvent::KeyDown(Key::ArrowUp));
    autocomplete_update(&mut m, AutocompleteEvent::KeyDown(Key::ArrowUp));
    assert_eq!(m.highlighted_index, Some(0));
    match autocomplete_update(&mut m, AutocompleteEvent::KeyDown(Key::Enter(13))) {
        AutocompleteAction::Select(s, prevent) => {
            assert_eq!(s.stop_id, 1);
            assert!(prevent);
        }
        other => panic!("unexpected {:?}", other),
    }
    assert_eq!(m.search, "Alexanderplatz");
    assert!(!m.is_open);
    assert_eq!(m.highlighted_index, None);
}

#[test]
fn blur_and_focus_follow_the_ignore_flags() {
    let mut m = model();
    autocomplete_update(&mut m, AutocompleteEvent::Focus);
    assert!(m.is_open);
    autocomplete_update(&mut m, AutocompleteEvent::SetIgnoreBlur(true));
    match autocomplete_update(&mut m, AutocompleteEvent::Blur) {
        AutocompleteAction::FocusInput => {}
        other => panic!("unexpected {:?}", other),
    }
    assert!(m.ignore_focus);
    autocomplete_update(&mut m, AutocompleteEvent::Focus);
    assert!(!m.ignore_focus);
    autocomplete_update(&mut m, AutocompleteEvent::KeyDown(Key::Escape));
    assert!(!m.is_open && !m.ignore_blur);
    match autocomplete_update(&mut m, AutocompleteEvent::SuggestionsFetched(None)) {
        AutocompleteAction::Skip => {}
        other => panic!("unexpected {:?}", other),
    }
}

#[test]
fn clicking_a_suggestion_selects_it() {
    let mut m = model();
    m.suggestions = vec![suggestion(7, "Wannsee")];
    match autocomplete_update(&mut m, AutocompleteEvent::SuggestionClick(0)) {
        AutocompleteAction::Select(s, prevent) => {
            assert_eq!(s.name, "Wannsee");
            assert!(!prevent);
        }
        other => panic!("unexpected {:?}", other),
    }
    assert_eq!(m.search, "Wannsee");
}
