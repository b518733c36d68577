use vstd::prelude::*;

verus! {

/// Messages of the two headers.
#[derive(Debug, PartialEq, Eq, Clone, Copy)]
pub enum Message {
    /// Hide the menu pane.
    CloseMenu,
    /// Show the menu pane.
    OpenMenu,
    /// Pick a project directory.
    OpenDirectory,
    /// Show or hide the editor.
    ToggleEditor,
    /// Show or hide the preview.
    TogglePreview,
}

/// The header above the menu pane; it holds no state.
pub struct MenuHeader {}

impl MenuHeader {
    /// The menu header.
    pub fn new() -> (r: MenuHeader) {
        MenuHeader {}
    }

    /// The menu header keeps no state, so no message changes it.
    pub fn update(&mut self, message: Message)
        ensures
            *final(self) == *old(self),
    {
    }
}

/// The header above the content: which panes are shown.
pub struct ContentHeader {
    pub menu_open: bool,
    pub editor_open: bool,
    pub preview_open: bool,
}

impl ContentHeader {
    /// A header with the menu shown or not, and editor and preview hidden.
    pub fn new(menu_open: bool) -> (r: ContentHeader)
        ensures
            r.menu_open == menu_open,
            !r.editor_open,
            !r.preview_open,
    {
        ContentHeader { menu_open, editor_open: false, preview_open: false }
    }

    /// Follows one message: the menu flag is set or cleared, a pane's flag
    /// flipped; picking a directory changes nothing here.
    pub fn update(&mut self, message: Message)
        ensures
            final(self).menu_open == match message {
                Message::CloseMenu => false,
                Message::OpenMenu => true,
                _ => old(self).menu_open,
            },
            final(self).editor_open == (old(self).editor_open != (message == Message::ToggleEditor)),
            final(self).preview_open == (old(self).preview_open != (message
                == Message::TogglePreview)),
    {
        match message {
            Message::CloseMenu => {
                self.menu_open = false;
            },
            Message::OpenMenu => {
                self.menu_open = true;
            },
            Message::ToggleEditor => {
                self.editor_open = !self.editor_open;
            },
            Message::TogglePreview => {
                self.preview_open = !self.preview_open;
            },
            Message::OpenDirectory => {},
        }
    }
}

} // verus!
