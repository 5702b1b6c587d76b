use filaments::bindings::KeyMap;
use filaments::config::{config_from_text, default_config_text, filaments_dir_of};
use filaments::keymap::{KeyCode, KeyEvent, KeyModifiers};
use filaments::regions::Region;
use filaments::signal::Signal;

#[test]
fn test_quit_in_home_region() {
    let keymap_str = "
            keymap {
                Home {
                    q Quit
                    <Ctrl-C> Quit
                }
            }
        ";

    let keymap: KeyMap = KeyMap::from_kdl(keymap_str).expect("Must be a valid keymap");

    let signal = keymap
        .get(
            Region::Home,
            &vec![KeyEvent { code: KeyCode::Char('q'), modifiers: KeyModifiers::empty() }],
        )
        .expect("Must resolve to a signal");

    assert_eq!(*signal, Signal::Quit);
}

#[test]
fn control_c_bound_in_home() {
    let keymap = KeyMap::from_kdl("keymap { Home { <Ctrl-C> Quit; j MoveDown } }").unwrap();
    let ctrl_c = KeyEvent {
        code: KeyCode::Char('c'),
        modifiers: KeyModifiers { shift: false, control: true, alt: false },
    };
    assert_eq!(keymap.get(Region::Home, &vec![ctrl_c]), Some(&Signal::Quit));
    let j = KeyEvent { code: KeyCode::Char('j'), modifiers: KeyModifiers::empty() };
    assert_eq!(keymap.get(Region::Home, &vec![j]), Some(&Signal::MoveDown));
    assert_eq!(keymap.get(Region::Zk, &vec![j]), None);
}

#[test]
fn later_binding_wins() {
    let keymap = KeyMap::from_kdl("keymap { Zk { q Quit; q Help } }").unwrap();
    let q = KeyEvent { code: KeyCode::Char('q'), modifiers: KeyModifiers::empty() };
    assert_eq!(keymap.get(Region::Zk, &vec![q]), Some(&Signal::Help));
}

#[test]
fn unknown_signal_or_bad_kdl_gives_none() {
    assert!(KeyMap::from_kdl("keymap { Home { q Frobnicate } }").is_none());
    assert!(KeyMap::from_kdl("keymap { Home { q } }").is_none());
    assert!(KeyMap::from_kdl("not { valid").is_none());
    assert!(KeyMap::from_kdl("other { }").is_none());
    assert!(KeyMap::from_kdl("keymap").is_none());
    assert!(KeyMap::from_kdl("keymap { Elsewhere { q Frobnicate } }").is_some());
}

#[test]
fn signal_names() {
    assert_eq!(Signal::bindable("Quit"), Some(Signal::Quit));
    assert_eq!(Signal::bindable("EditPriority"), Some(Signal::EditPriority));
    assert_eq!(Signal::bindable("Resize"), None);
    assert_eq!(Signal::Resize(3, 4).name(), "Resize");
    assert_eq!(Signal::RandomColor.name(), "RandomColor");
}

#[test]
fn a_binding_reads_its_first_entry() {
    let keymap = KeyMap::from_kdl("keymap { Home { q Quit Help } }").unwrap();
    let q = vec![KeyEvent { code: KeyCode::Char('q'), modifiers: KeyModifiers::empty() }];
    assert_eq!(keymap.get(Region::Home, &q), Some(&Signal::Quit));
}

#[test]
fn default_config_names_the_notebook() {
    let text = default_config_text("/home/me/notes").unwrap();
    assert_eq!(filaments_dir_of(&text), Some("/home/me/notes".to_string()));
    let (dir, keymap) = config_from_text(&text).unwrap();
    assert_eq!(dir, "/home/me/notes");
    let q = vec![KeyEvent { code: KeyCode::Char('q'), modifiers: KeyModifiers::empty() }];
    assert_eq!(keymap.get(Region::Home, &q), Some(&Signal::Quit));
}

#[test]
fn config_needs_a_directory_and_a_keymap() {
    assert!(config_from_text("keymap { Home { q Quit } }").is_none());
    assert!(config_from_text("filaments_dir \"x\"").is_none());
    assert!(config_from_text("filaments_dir 3\nkeymap { Home { q Quit } }").is_none());
    assert!(config_from_text("filaments_dir \"x\"\nkeymap { Home { q Quit } }").is_some());
    assert_eq!(filaments_dir_of("not { kdl"), None);
}
