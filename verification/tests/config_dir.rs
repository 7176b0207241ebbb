use snd_review::keymap::{config_dir_for, keymap_path_for, Platform};

fn s(v: &str) -> Option<String> {
    Some(v.to_string())
}

#[test]
fn config_dir_follows_each_platform() {
    assert_eq!(
        config_dir_for(Platform::Macos, s("/Users/ann"), None, None),
        s("/Users/ann/Library/Application Support/snd-review")
    );
    assert_eq!(
        config_dir_for(Platform::Windows, None, s("C:\\Users\\ann\\AppData\\Roaming"), None),
        s("C:\\Users\\ann\\AppData\\Roaming\\snd-review")
    );
    assert_eq!(
        config_dir_for(Platform::Linux, s("/home/ann"), None, s("/home/ann/.cfg")),
        s("/home/ann/.cfg/snd-review")
    );
    assert_eq!(
        config_dir_for(Platform::Linux, s("/home/ann"), None, None),
        s("/home/ann/.config/snd-review")
    );
    assert_eq!(
        config_dir_for(Platform::Linux, s("/home/ann/"), None, None),
        s("/home/ann/.config/snd-review")
    );
}

#[test]
fn config_dir_needs_its_variable() {
    assert_eq!(config_dir_for(Platform::Macos, None, s("x"), s("y")), None);
    assert_eq!(config_dir_for(Platform::Windows, s("/home/ann"), None, s("y")), None);
    assert_eq!(config_dir_for(Platform::Linux, None, s("x"), None), None);
}

#[test]
fn keymap_file_sits_in_the_config_dir() {
    assert_eq!(
        keymap_path_for(Platform::Linux, s("/home/ann"), None, None),
        s("/home/ann/.config/snd-review/keymap.json")
    );
    assert_eq!(keymap_path_for(Platform::Windows, None, None, None), None);
}
