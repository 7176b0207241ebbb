use snd_review::commands::is_known_command;
use snd_review::keymap::{
    binding_contexts, bound_command, flatten_keymap, merge_bindings, set_binding, Binding, KeymapFile,
    Platform, APP_KEY_CONTEXT, WAVEFORM_HOVER_KEY_CONTEXT, WAVEFORM_KEY_CONTEXT,
};

fn entries(pairs: &[(&str, &str)]) -> Vec<Binding> {
    pairs.iter().map(|(k, c)| (k.to_string(), c.to_string())).collect()
}

fn lookup<'a>(map: &'a Vec<Binding>, keystrokes: &str) -> Option<&'a str> {
    bound_command(map, keystrokes).map(String::as_str)
}

#[test]
fn platform_overlay_replaces_shared_keys() {
    let file = || KeymapFile {
        bindings: entries(&[("o", "file.open")]),
        macos: Vec::new(),
        linux: entries(&[("o", "file.quit")]),
        windows: Vec::new(),
    };
    let linux = flatten_keymap(file(), Platform::Linux);
    let macos = flatten_keymap(file(), Platform::Macos);
    assert_eq!(lookup(&linux, "o"), Some("file.quit"));
    assert_eq!(lookup(&macos, "o"), Some("file.open"));
}

#[test]
fn merge_overlay_wins_per_keystroke() {
    let mut base = entries(&[("a", "view.fit_all"), ("space", "transport.play_pause")]);
    let user = entries(&[("a", "view.frame"), ("g", "view.fit_all")]);
    merge_bindings(&mut base, user);
    assert_eq!(lookup(&base, "a"), Some("view.frame"));
    assert_eq!(lookup(&base, "g"), Some("view.fit_all"));
    assert_eq!(lookup(&base, "space"), Some("transport.play_pause"));
    assert_eq!(base.len(), 3);
    assert_eq!(lookup(&base, "ctrl-o"), None);
}

#[test]
fn set_binding_replaces_every_earlier_entry() {
    let mut map = entries(&[("x", "edit.cut"), ("y", "edit.copy"), ("x", "edit.trim")]);
    set_binding(&mut map, "x".to_string(), "edit.paste".to_string());
    assert_eq!(map.len(), 2);
    assert_eq!(lookup(&map, "x"), Some("edit.paste"));
    assert_eq!(lookup(&map, "y"), Some("edit.copy"));
}

#[test]
fn unknown_command_ids_are_skipped() {
    assert!(!is_known_command("not.a.command"));
    assert!(binding_contexts("not.a.command").is_empty());
}

#[test]
fn keymap_bindings_are_scoped_to_the_app_view() {
    assert_eq!(binding_contexts("edit.delete"), vec![APP_KEY_CONTEXT]);
    assert_eq!(binding_contexts("transport.play_pause"), vec![APP_KEY_CONTEXT]);
}

#[test]
fn fit_and_frame_keys_are_scoped_to_the_waveform() {
    let fit = binding_contexts("view.fit_all");
    assert_eq!(fit.len(), 2);
    assert_eq!(fit, vec![WAVEFORM_KEY_CONTEXT, WAVEFORM_HOVER_KEY_CONTEXT]);
    let frame = binding_contexts("view.frame");
    assert_eq!(frame.len(), 2);
}

#[test]
fn commands_without_a_key_action_get_no_binding() {
    assert!(is_known_command("selection.add_marker"));
    assert!(binding_contexts("selection.add_marker").is_empty());
    assert!(binding_contexts("file.save").is_empty());
    assert_eq!(snd_review::commands::bindable_commands().len(), 29);
}
