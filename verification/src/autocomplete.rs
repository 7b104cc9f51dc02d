//! The station name field of the front end, as a state machine: each event of the page moves
//! the field's state on and says what the page is to do.
use vstd::prelude::*;
use vstd::string::*;

verus! {

/// A station offered for the text typed.
#[derive(Debug)]
pub struct StationSuggestion {
    pub stop_id: u64,
    pub name: String,
}

impl Clone for StationSuggestion {
    fn clone(&self) -> (r: Self)
        ensures
            r == *self,
    {
        StationSuggestion { stop_id: self.stop_id, name: self.name.clone() }
    }
}

/// The state of the field: the text typed, the stations offered, whether the list is open,
/// which station is highlighted, and whether the next blur or focus is to be ignored.
#[derive(Debug)]
pub struct Autocomplete {
    pub search: String,
    pub suggestions: Vec<StationSuggestion>,
    pub is_open: bool,
    pub highlighted_index: Option<usize>,
    pub ignore_blur: bool,
    pub ignore_focus: bool,
}

/// A key pressed in the field. `Enter` carries the key code, which is 13 for the key itself
/// and another code when a character selector uses the key.
#[derive(Debug, Clone, Copy, PartialEq, Eq, Structural)]
pub enum Key {
    ArrowDown,
    ArrowUp,
    Enter(u32),
    Escape,
    Tab,
    Other,
}

/// What happens on the page.
#[derive(Debug)]
pub enum AutocompleteEvent {
    Focus,
    Blur,
    KeyDown(Key),
    /// A click in the field, with whether the field is the page's active element.
    InputClick(bool),
    SuggestionClick(usize),
    SuggestionHover(usize),
    Input(String),
    /// The stations found for a search, or `None` where fetching them failed.
    SuggestionsFetched(Option<Vec<StationSuggestion>>),
    SetIgnoreBlur(bool),
}

/// What the page is to do.
#[derive(Debug)]
pub enum AutocompleteAction {
    Nothing,
    /// Give the field the focus back.
    FocusInput,
    /// Keep the browser from handling the key.
    PreventDefault,
    /// Fetch the stations found at this address.
    Fetch(String),
    /// The station was chosen; the key press, if any, is kept from the browser.
    Select(StationSuggestion, bool),
    /// Nothing changed that is to be shown.
    Skip,
}

/// The characters of `/searchStation/`.
pub open spec fn search_path() -> Seq<char> {
    seq!['/', 's', 'e', 'a', 'r', 'c', 'h', 'S', 't', 'a', 't', 'i', 'o', 'n', '/']
}

/// The event can be taken in the state: a clicked station is one offered, and the station
/// highlighted when Enter is pressed in an open list is one offered.
pub open spec fn event_ok(model: Autocomplete, event: AutocompleteEvent) -> bool {
    match event {
        AutocompleteEvent::SuggestionClick(i) => i < model.suggestions@.len(),
        AutocompleteEvent::KeyDown(Key::Enter(13)) => model.is_open ==> (model.highlighted_index matches Some(
            h,
        ) ==> h < model.suggestions@.len()),
        _ => true,
    }
}

/// Moves the field on by one event and says what the page is to do.
pub fn autocomplete_update(model: &mut Autocomplete, event: AutocompleteEvent) -> (action: AutocompleteAction)
    requires
        event_ok(*old(model), event),
    ensures
        match event {
            AutocompleteEvent::Focus => if old(model).ignore_focus {
                *final(model) == Autocomplete { ignore_focus: false, ..*old(model) } && action is Nothing
            } else {
                *final(model) == Autocomplete { is_open: true, ..*old(model) } && action is Nothing
            },
            AutocompleteEvent::Blur => if old(model).ignore_blur {
                *final(model) == Autocomplete { ignore_focus: true, ..*old(model) } && action is FocusInput
            } else {
                *final(model) == Autocomplete { is_open: false, highlighted_index: None, ..*old(model) }
                    && action is Nothing
            },
            AutocompleteEvent::SetIgnoreBlur(v) => *final(model) == Autocomplete { ignore_blur: v, ..*old(model) }
                && action is Nothing,
            AutocompleteEvent::KeyDown(Key::ArrowDown) => {
                let n = old(model).suggestions@.len();
                let next = match old(model).highlighted_index {
                    Some(i) => i + 1,
                    None => 0,
                };
                &&& action is PreventDefault
                &&& if n > 0 && next < n {
                    *final(model) == Autocomplete {
                        highlighted_index: Some(next as usize),
                        is_open: true,
                        ..*old(model)
                    }
                } else {
                    *final(model) == *old(model)
                }
            },
            AutocompleteEvent::KeyDown(Key::ArrowUp) => {
                let n = old(model).suggestions@.len();
                let at = match old(model).highlighted_index {
                    Some(i) => i as int,
                    None => n as int,
                };
                &&& action is PreventDefault
                &&& if n > 0 && at > 0 {
                    *final(model) == Autocomplete {
                        highlighted_index: Some((at - 1) as usize),
                        is_open: true,
                        ..*old(model)
                    }
                } else {
                    *final(model) == *old(model)
                }
            },
            AutocompleteEvent::KeyDown(Key::Enter(code)) => if code != 13 {
                *final(model) == *old(model) && action is Nothing
            } else if !old(model).is_open {
                *final(model) == Autocomplete { ignore_blur: false, ..*old(model) } && action is Nothing
            } else {
                match old(model).highlighted_index {
                    Some(h) => {
                        &&& final(model).search@ == old(model).suggestions@[h as int].name@
                        &&& final(model).suggestions@ == old(model).suggestions@
                        &&& !final(model).is_open
                        &&& final(model).highlighted_index is None
                        &&& !final(model).ignore_blur
                        &&& final(model).ignore_focus == old(model).ignore_focus
                        &&& action == AutocompleteAction::Select(old(model).suggestions@[h as int], true)
                    },
                    None => *final(model) == Autocomplete { ignore_blur: false, is_open: false, ..*old(model) }
                        && action is Nothing,
                }
            },
            AutocompleteEvent::KeyDown(Key::Escape) => *final(model) == Autocomplete {
                ignore_blur: false,
                highlighted_index: None,
                is_open: false,
                ..*old(model)
            } && action is Nothing,
            AutocompleteEvent::KeyDown(Key::Tab) => *final(model) == Autocomplete { ignore_blur: false, ..*old(model) }
                && action is Nothing,
            AutocompleteEvent::KeyDown(Key::Other) => *final(model) == Autocomplete { is_open: true, ..*old(model) }
                && action is Nothing,
            AutocompleteEvent::InputClick(active) => if active {
                *final(model) == Autocomplete { is_open: true, ..*old(model) } && action is Nothing
            } else {
                *final(model) == *old(model) && action is Nothing
            },
            AutocompleteEvent::SuggestionHover(i) => *final(model) == Autocomplete {
                highlighted_index: Some(i),
                ..*old(model)
            } && action is Nothing,
            AutocompleteEvent::SuggestionClick(i) => {
                &&& final(model).search@ == old(model).suggestions@[i as int].name@
                &&& final(model).suggestions@ == old(model).suggestions@
                &&& !final(model).is_open
                &&& final(model).highlighted_index is None
                &&& !final(model).ignore_blur
                &&& final(model).ignore_focus == old(model).ignore_focus
                &&& action == AutocompleteAction::Select(old(model).suggestions@[i as int], false)
            },
            AutocompleteEvent::Input(v) => {
                &&& final(model).search@ == v@
                &&& final(model).suggestions@ == old(model).suggestions@
                &&& final(model).is_open == old(model).is_open
                &&& final(model).highlighted_index == old(model).highlighted_index
                &&& final(model).ignore_blur == old(model).ignore_blur
                &&& final(model).ignore_focus == old(model).ignore_focus
                &&& if vstd::utf8::encode_utf8(v@).len() >= 3 {
                    action matches AutocompleteAction::Fetch(url) && url@ == search_path() + v@
                } else {
                    action is Nothing
                }
            },
            AutocompleteEvent::SuggestionsFetched(Some(found)) => {
                &&& final(model).search@ == old(model).search@
                &&& final(model).suggestions@ == found@
                &&& final(model).is_open == old(model).is_open
                &&& final(model).highlighted_index == old(model).highlighted_index
                &&& final(model).ignore_blur == old(model).ignore_blur
                &&& final(model).ignore_focus == old(model).ignore_focus
                &&& action is Nothing
            },
            AutocompleteEvent::SuggestionsFetched(None) => *final(model) == *old(model) && action is Skip,
        },
{
    match event {
        AutocompleteEvent::Focus => {
            if model.ignore_focus {
                model.ignore_focus = false;
            } else {
                model.is_open = true;
            }
            AutocompleteAction::Nothing
        },
        AutocompleteEvent::Blur => {
            if model.ignore_blur {
                model.ignore_focus = true;
                AutocompleteAction::FocusInput
            } else {
                model.is_open = false;
                model.highlighted_index = None;
                AutocompleteAction::Nothing
            }
        },
        AutocompleteEvent::SetIgnoreBlur(value) => {
            model.ignore_blur = value;
            AutocompleteAction::Nothing
        },
        AutocompleteEvent::KeyDown(key) => match key {
            Key::ArrowDown => {
                let n = model.suggestions.len();
                if n > 0 {
                    let index: usize = match model.highlighted_index {
                        Some(i) => if i < n {
                            i + 1
                        } else {
                            n
                        },
                        None => 0,
                    };
                    if index < n {
                        model.highlighted_index = Some(index);
                        model.is_open = true;
                    }
                }
                AutocompleteAction::PreventDefault
            },
            Key::ArrowUp => {
                let n = model.suggestions.len();
                if n > 0 {
                    let index: usize = match model.highlighted_index {
                        Some(i) => i,
                        None => n,
                    };
                    if index > 0 {
                        model.highlighted_index = Some(index - 1);
                        model.is_open = true;
                    }
                }
                AutocompleteAction::PreventDefault
            },
            Key::Enter(code) => {
                if code != 13 {
                    return AutocompleteAction::Nothing;
                }
                model.ignore_blur = false;
                if !model.is_open {
                    AutocompleteAction::Nothing
                } else {
                    match model.highlighted_index {
                        Some(h) => {
                            let item = model.suggestions[h].clone();
                            model.is_open = false;
                            model.highlighted_index = None;
                            model.search = item.name.clone();
                            AutocompleteAction::Select(item, true)
                        },
                        None => {
                            model.is_open = false;
                            AutocompleteAction::Nothing
                        },
                    }
                }
            },
            Key::Escape => {
                model.ignore_blur = false;
                model.highlighted_index = None;
                model.is_open = false;
                AutocompleteAction::Nothing
            },
            Key::Tab => {
                model.ignore_blur = false;
                AutocompleteAction::Nothing
            },
            Key::Other => {
                model.is_open = true;
                AutocompleteAction::Nothing
            },
        },
        AutocompleteEvent::InputClick(active) => {
            if active {
                model.is_open = true;
            }
            AutocompleteAction::Nothing
        },
        AutocompleteEvent::SuggestionHover(i) => {
            model.highlighted_index = Some(i);
            AutocompleteAction::Nothing
        },
        AutocompleteEvent::SuggestionClick(i) => {
            let item = model.suggestions[i].clone();
            model.search = item.name.clone();
            model.ignore_blur = false;
            model.is_open = false;
            model.highlighted_index = None;
            AutocompleteAction::Select(item, false)
        },
        AutocompleteEvent::Input(value) => {
            let text = value.as_str();
            proof {
                assert(text@ == value@);
                assert(text.spec_bytes() == vstd::utf8::encode_utf8(value@));
            }
            let action = if text.as_bytes().len() >= 3 {
                let path = "/searchStation/";
                proof {
                    reveal_strlit("/searchStation/");
                    assert(path@ =~= search_path());
                }
                let mut url = String::from_str(path);
                url.append(text);
                proof {
                    assert(url@ =~= search_path() + value@);
                }
                AutocompleteAction::Fetch(url)
            } else {
                AutocompleteAction::Nothing
            };
            model.search = value;
            action
        },
        AutocompleteEvent::SuggestionsFetched(result) => match result {
            Some(found) => {
                model.suggestions = found;
                AutocompleteAction::Nothing
            },
            None => AutocompleteAction::Skip,
        },
    }
}

} // verus!
