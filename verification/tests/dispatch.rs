use clefd::chord_state::PressedKey;
use clefd::command_runner::CommandRunner;
use clefd::keybindings::{Keybindings, KeybindingTable};
use clefd::keyboard_client::{translate_keycode, KeyboardClient};
use clefd::keysym::KEYSYM_CONTROL_L;
use clefd::user_config::UserConfig;
use clefd::watcher::{WatchEventKind, WatcherDebounce};

fn key(code: u32, sym: u32, name: &str) -> PressedKey {
    PressedKey {
        code,
        sym,
        name: String::from(name),
    }
}

#[test]
fn exec_action_should_return_ok_when_keychord_not_found() {
    let keybindings = Keybindings::new();
    UserConfig::reload_config("", &keybindings).expect("Failed to create a new user config.");

    let result = CommandRunner::exec_action(&keybindings, "Control_L x");
    assert!(
        result.is_none(),
        "a chord with no binding is a successful no-op"
    );
}

#[test]
fn action_for_unbound_chord_is_a_no_op() {
    let table = KeybindingTable::new();
    assert!(CommandRunner::action_for(&table, "Control_L x").is_none());
}

#[test]
fn action_for_bound_chord_splits_the_command() {
    let table = UserConfig::parse_config("Control_L+x: newsboat -r --log x\n").expect("parses");
    let cmd = CommandRunner::action_for(&table, "Control_L x").expect("the chord is bound");
    assert_eq!(cmd.program, "newsboat");
    assert_eq!(cmd.args, vec![
        String::from("-r"),
        String::from("--log"),
        String::from("x")
    ]);
}

#[test]
fn split_command_on_blank_line_is_a_no_op() {
    assert!(CommandRunner::split_command("").is_none());
    assert!(CommandRunner::split_command("   \t ").is_none());
}

#[test]
fn split_command_without_arguments() {
    let cmd = CommandRunner::split_command("/bin/true").expect("one token");
    assert_eq!(cmd.program, "/bin/true");
    assert!(cmd.args.is_empty());
}

#[test]
fn dispatch_decision_is_the_same_for_any_exit_status() {
    // The decision carries no channel for an exit status: a command
    // that will fail is decided exactly like one that will succeed,
    // and neither blocks on completion.
    let keybindings = Keybindings::new();
    UserConfig::reload_config("Control_L+x: /bin/true\nAlt_L+y: /bin/false\n", &keybindings)
        .expect("Failed to create a new user config.");

    let ok_cmd = CommandRunner::exec_action(&keybindings, "Control_L x").expect("bound");
    assert_eq!(ok_cmd.program, "/bin/true");
    let err_cmd = CommandRunner::exec_action(&keybindings, "Alt_L y").expect("bound");
    assert_eq!(err_cmd.program, "/bin/false");
}

#[test]
fn end_to_end_chord_press_dispatches_bound_command() {
    let keybindings = Keybindings::new();
    UserConfig::reload_config("Control_L + x : /bin/true\n", &keybindings)
        .expect("initial load succeeds");

    let mut client = KeyboardClient::new();

    // Pressing the modifier alone dispatches nothing.
    let r = client.keyboard_event_handler(key(37, KEYSYM_CONTROL_L, "Control_L"), true, &keybindings);
    assert!(r.is_none());

    // Pressing the trigger completes the chord.
    let r = client.keyboard_event_handler(key(53, 'x' as u32, "x"), true, &keybindings);
    let cmd = r.expect("the chord Control_L x is bound");
    assert_eq!(cmd.program, "/bin/true");
    assert!(cmd.args.is_empty());

    // Releases never dispatch.
    let r = client.keyboard_event_handler(key(37, KEYSYM_CONTROL_L, "Control_L"), false, &keybindings);
    assert!(r.is_none());
    let r = client.keyboard_event_handler(key(53, 'x' as u32, "x"), false, &keybindings);
    assert!(r.is_none());

    // A bare x is a valid chord, but no binding names it.
    let r = client.keyboard_event_handler(key(53, 'x' as u32, "x"), true, &keybindings);
    assert!(r.is_none());
}

#[test]
fn bare_trigger_key_dispatches_when_bound() {
    let keybindings = Keybindings::new();
    UserConfig::reload_config("x: /bin/true\n", &keybindings).expect("load succeeds");

    let mut client = KeyboardClient::new();
    let r = client.keyboard_event_handler(key(53, 'x' as u32, "x"), true, &keybindings);
    assert_eq!(r.expect("a bare key is a dispatchable chord").program, "/bin/true");
}

#[test]
fn hot_reload_changes_what_a_chord_dispatches() {
    let keybindings = Keybindings::new();
    UserConfig::reload_config("x: first\n", &keybindings).expect("load succeeds");
    let mut client = KeyboardClient::new();

    let r = client.keyboard_event_handler(key(53, 'x' as u32, "x"), true, &keybindings);
    assert_eq!(r.expect("bound").program, "first");
    client.keyboard_event_handler(key(53, 'x' as u32, "x"), false, &keybindings);

    UserConfig::reload_config("x: second\n", &keybindings).expect("reload succeeds");
    let r = client.keyboard_event_handler(key(53, 'x' as u32, "x"), true, &keybindings);
    assert_eq!(r.expect("bound").program, "second");
}

#[test]
fn translate_keycode_adds_the_keymap_offset() {
    assert_eq!(translate_keycode(30), 38);
    assert_eq!(translate_keycode(0), 8);
}

#[test]
fn watcher_accepts_the_first_modification() {
    let mut debounce = WatcherDebounce::new();
    assert!(debounce.observe(WatchEventKind::Modify, 1000));
}

#[test]
fn watcher_ignores_non_modification_events() {
    let mut debounce = WatcherDebounce::new();
    assert!(!debounce.observe(WatchEventKind::Create, 1000));
    assert!(!debounce.observe(WatchEventKind::Remove, 1001));
    assert!(!debounce.observe(WatchEventKind::Other, 1002));
    // None of those counted as a reload: the next modification goes
    // through at once.
    assert!(debounce.observe(WatchEventKind::Modify, 1003));
}

#[test]
fn watcher_debounces_rapid_modifications() {
    let mut debounce = WatcherDebounce::new();
    assert!(debounce.observe(WatchEventKind::Modify, 1000));
    // Within the interval: discarded, and the accepted time stays.
    assert!(!debounce.observe(WatchEventKind::Modify, 1030));
    assert!(!debounce.observe(WatchEventKind::Modify, 1050));
    // Exactly at the boundary the change is still discarded.
    // Past it, the reload goes through.
    assert!(debounce.observe(WatchEventKind::Modify, 1051));
    // And the clock of the new acceptance is the new reference.
    assert!(!debounce.observe(WatchEventKind::Modify, 1100));
    assert!(debounce.observe(WatchEventKind::Modify, 1102));
}
