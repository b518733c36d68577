use memristor::header::{ContentHeader, MenuHeader, Message};
use memristor::settings::{ConfigStore, Settings};

#[test]
fn default_settings_have_no_root() {
    assert_eq!(Settings::default(), Settings { root_dir: None });
}

#[test]
fn config_store_lives_under_home() {
    let store = ConfigStore::in_home("/home/ada");
    assert_eq!(store.dir_path, "/home/ada/.config/memristor");
    assert_eq!(store.config_file, "/home/ada/.config/memristor/config.json");
}

#[test]
fn content_header_follows_messages() {
    let mut h = ContentHeader::new(true);
    assert!(h.menu_open && !h.editor_open && !h.preview_open);
    h.update(Message::CloseMenu);
    assert!(!h.menu_open);
    h.update(Message::OpenMenu);
    assert!(h.menu_open);
    h.update(Message::ToggleEditor);
    assert!(h.editor_open && !h.preview_open);
    h.update(Message::TogglePreview);
    h.update(Message::TogglePreview);
    assert!(!h.preview_open);
    h.update(Message::OpenDirectory);
    assert!(h.menu_open && h.editor_open && !h.preview_open);
    let mut m = MenuHeader::new();
    m.update(Message::OpenMenu);
}
