//! The state of the main menu view.
use vstd::prelude::*;

verus! {

/// The state of the main menu: the hint line under the buttons.
#[derive(Clone, Debug)]
pub struct MenuState {
    pub title: String,
}

impl MenuState {
    /// A fresh menu with an empty hint line.
    pub fn new() -> (r: MenuState)
        ensures
            r.title@ == Seq::<char>::empty(),
    {
        MenuState { title: String::new() }
    }
}

impl Default for MenuState {
    /// A fresh menu with an empty hint line.
    fn default() -> (r: MenuState)
        ensures
            r.title@ == Seq::<char>::empty(),
    {
        MenuState::new()
    }
}

/// A state change of the main menu.
#[derive(Clone, Debug)]
pub enum MenuMsg {
    SetText(String),
}

/// Applies one message to the menu state.
pub fn update_menu(menu: &mut MenuState, msg: MenuMsg)
    ensures
        match msg { MenuMsg::SetText(s) => final (menu).title == s },
{
    match msg {
        MenuMsg::SetText(s) => {
            menu.title = s;
        },
    }
}

} // verus!
