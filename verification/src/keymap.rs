use vstd::prelude::*;

use crate::commands::{bindable_command_ids, is_bindable_command};
use crate::text::{chars_of, push_char, push_chars, str_equals};

verus! {

/// The desktop platform a keymap overlay is for.
#[derive(Debug, Clone, Copy, PartialEq, Eq, Structural)]
pub enum Platform {
    Macos,
    Linux,
    Windows,
}

/// One binding: a keystroke sequence and the command id it runs.
pub type Binding = (String, String);

/// A keymap file: shared bindings and one overlay per platform.
pub struct KeymapFile {
    pub bindings: Vec<Binding>,
    pub macos: Vec<Binding>,
    pub linux: Vec<Binding>,
    pub windows: Vec<Binding>,
}

/// Keymap actions apply while the main view is focused.
pub const APP_KEY_CONTEXT: &'static str = "App";

/// Fit and frame keys apply while the waveform is focused.
pub const WAVEFORM_KEY_CONTEXT: &'static str = "Waveform";

/// Fit and frame keys also apply while the pointer is over the waveform.
pub const WAVEFORM_HOVER_KEY_CONTEXT: &'static str = "WaveformHover";

/// What a list of bindings maps each keystroke sequence to: the command of
/// its last entry.
pub open spec fn bindings_map(entries: Seq<Binding>) -> Map<Seq<char>, Seq<char>>
    decreases entries.len(),
{
    if entries.len() == 0 {
        Map::empty()
    } else {
        bindings_map(entries.drop_last()).insert(entries.last().0@, entries.last().1@)
    }
}

/// No keystroke sequence is bound twice.
pub open spec fn keys_distinct(entries: Seq<Binding>) -> bool {
    forall|i: int, j: int| 0 <= i < j < entries.len() ==> (#[trigger] entries[i]).0@ != (#[trigger] entries[j]).0@
}

/// The entries of `entries` for keystrokes other than `key`.
pub open spec fn without_key(entries: Seq<Binding>, key: Seq<char>) -> Seq<Binding> {
    entries.filter(|e: Binding| e.0@ != key)
}

proof fn lemma_without_key(entries: Seq<Binding>, key: Seq<char>)
    ensures
        bindings_map(without_key(entries, key)) == bindings_map(entries).remove(key),
        forall|i: int|
            0 <= i < without_key(entries, key).len() ==> (#[trigger] without_key(entries, key)[i]).0@ != key,
        keys_distinct(entries) ==> keys_distinct(without_key(entries, key)),
        forall|e: Binding| #[trigger] without_key(entries, key).contains(e) ==> entries.contains(e),
    decreases entries.len(),
{
    reveal_with_fuel(Seq::<Binding>::filter, 1);
    let f = without_key(entries, key);
    if entries.len() == 0 {
        assert(bindings_map(f) =~= bindings_map(entries).remove(key));
    } else {
        let t = entries.drop_last();
        let e = entries.last();
        lemma_without_key(t, key);
        let ft = without_key(t, key);
        assert(f == if e.0@ != key {
            ft.push(e)
        } else {
            ft
        });
        assert(ft.push(e).drop_last() =~= ft);
        assert(bindings_map(f) =~= bindings_map(entries).remove(key));
        assert forall|i: int| 0 <= i < f.len() implies (#[trigger] f[i]).0@ != key by {
            if e.0@ != key && i == ft.len() {
                assert(f[i] == e);
            } else {
                assert(f[i] == ft[i]);
            }
        }
        assert forall|x: Binding| #[trigger] f.contains(x) implies entries.contains(x) by {
            let i = choose|i: int| 0 <= i < f.len() && f[i] == x;
            if e.0@ != key && i == ft.len() {
                assert(entries[entries.len() - 1] == x);
            } else {
                assert(ft[i] == x);
                assert(ft.contains(x));
                assert(t.contains(x));
                let j = choose|j: int| 0 <= j < t.len() && t[j] == x;
                assert(entries[j] == x);
            }
        }
        if keys_distinct(entries) {
            assert(keys_distinct(t)) by {
                assert forall|i: int, j: int| 0 <= i < j < t.len() implies (#[trigger] t[i]).0@ != (
                #[trigger] t[j]).0@ by {
                    assert(t[i] == entries[i] && t[j] == entries[j]);
                }
            }
            assert forall|i: int, j: int| 0 <= i < j < f.len() implies (#[trigger] f[i]).0@ != (
            #[trigger] f[j]).0@ by {
                if e.0@ != key && j == ft.len() {
                    assert(f[j] == e);
                    assert(f[i] == ft[i]);
                    assert(ft.contains(f[i]));
                    assert(t.contains(f[i]));
                    let k = choose|k: int| 0 <= k < t.len() && t[k] == f[i];
                    assert(entries[k] == f[i]);
                    assert(entries[entries.len() - 1] == e);
                } else {
                    assert(f[i] == ft[i] && f[j] == ft[j]);
                }
            }
        }
    }
}

/// Binds `key` to `command`, in place of what it was bound to.
pub fn set_binding(entries: &mut Vec<Binding>, key: String, command: String)
    ensures
        bindings_map(final(entries)@) == bindings_map(old(entries)@).insert(key@, command@),
        keys_distinct(old(entries)@) ==> keys_distinct(final(entries)@),
{
    let ghost start = entries@;
    proof {
        assert(start.len() == entries.len());
    }
    let mut rest: Vec<Binding> = Vec::new();
    std::mem::swap(&mut rest, entries);
    let mut k: usize = 0;
    while rest.len() > 0
        invariant
            start.len() <= usize::MAX,
            k + rest@.len() == start.len(),
            rest@ == start.skip(k as int),
            entries@ == without_key(start.take(k as int), key@),
        decreases rest@.len(),
    {
        let e = rest.remove(0);
        proof {
            reveal_with_fuel(Seq::<Binding>::filter, 1);
            assert(start.take(k + 1).drop_last() =~= start.take(k as int));
            assert(start.take(k + 1).last() == e);
            assert(rest@ =~= start.skip(k + 1));
        }
        if !str_equals(e.0.as_str(), key.as_str()) {
            entries.push(e);
        }
        k += 1;
    }
    proof {
        assert(start.take(k as int) =~= start);
        lemma_without_key(start, key@);
    }
    let ghost kept = entries@;
    entries.push((key, command));
    proof {
        assert(entries@.drop_last() =~= kept);
        assert(bindings_map(entries@) =~= bindings_map(start).insert(key@, command@));
        if keys_distinct(start) {
            assert forall|i: int, j: int| 0 <= i < j < entries@.len() implies (#[trigger] entries@[i]).0@ != (
            #[trigger] entries@[j]).0@ by {
                if j == kept.len() {
                    assert(entries@[i] == kept[i]);
                } else {
                    assert(entries@[i] == kept[i] && entries@[j] == kept[j]);
                }
            }
        }
    }
}

/// Adds `overlay` to `base`; a keystroke bound in both takes the overlay's
/// command.
pub fn merge_bindings(base: &mut Vec<Binding>, overlay: Vec<Binding>)
    ensures
        bindings_map(final(base)@) == bindings_map(old(base)@).union_prefer_right(bindings_map(overlay@)),
        keys_distinct(old(base)@) ==> keys_distinct(final(base)@),
{
    let ghost start = base@;
    let ghost over = overlay@;
    proof {
        assert(over.len() == overlay.len());
    }
    let mut rest = overlay;
    let mut k: usize = 0;
    proof {
        assert(bindings_map(over.take(0)) =~= Map::<Seq<char>, Seq<char>>::empty());
        assert(bindings_map(start).union_prefer_right(Map::empty()) =~= bindings_map(start));
    }
    while rest.len() > 0
        invariant
            over.len() <= usize::MAX,
            k + rest@.len() == over.len(),
            rest@ == over.skip(k as int),
            bindings_map(base@) == bindings_map(start).union_prefer_right(bindings_map(over.take(k as int))),
            keys_distinct(start) ==> keys_distinct(base@),
        decreases rest@.len(),
    {
        let ghost before = base@;
        let e = rest.remove(0);
        proof {
            assert(over.take(k + 1).drop_last() =~= over.take(k as int));
            assert(over.take(k + 1).last() == e);
            assert(rest@ =~= over.skip(k + 1));
        }
        set_binding(base, e.0, e.1);
        proof {
            assert(bindings_map(base@) =~= bindings_map(start).union_prefer_right(
                bindings_map(over.take(k + 1)),
            ));
        }
        k += 1;
    }
    proof {
        assert(over.take(k as int) =~= over);
    }
}

/// The bindings for `platform`: the shared ones with that platform's
/// overlay over them.
pub fn flatten_keymap(file: KeymapFile, platform: Platform) -> (map: Vec<Binding>)
    ensures
        bindings_map(map@) == bindings_map(file.bindings@).union_prefer_right(
            bindings_map(
                match platform {
                    Platform::Macos => file.macos@,
                    Platform::Linux => file.linux@,
                    Platform::Windows => file.windows@,
                },
            ),
        ),
{
    let KeymapFile { bindings, macos, linux, windows } = file;
    let mut map = bindings;
    let overlay = match platform {
        Platform::Macos => macos,
        Platform::Linux => linux,
        Platform::Windows => windows,
    };
    merge_bindings(&mut map, overlay);
    map
}

/// The command `keystrokes` is bound to.
pub fn bound_command<'a>(entries: &'a Vec<Binding>, keystrokes: &str) -> (r: Option<&'a String>)
    ensures
        r is Some <==> bindings_map(entries@).contains_key(keystrokes@),
        r matches Some(c) ==> c@ == bindings_map(entries@)[keystrokes@],
{
    let mut i: usize = entries.len();
    proof {
        assert(entries@.take(i as int) =~= entries@);
    }
    while i > 0
        invariant
            i <= entries@.len(),
            bindings_map(entries@).contains_key(keystrokes@) == bindings_map(entries@.take(i as int)).contains_key(
                keystrokes@,
            ),
            bindings_map(entries@).contains_key(keystrokes@) ==> bindings_map(entries@)[keystrokes@]
                == bindings_map(entries@.take(i as int))[keystrokes@],
        decreases i,
    {
        let e = &entries[i - 1];
        proof {
            assert(entries@.take(i as int).drop_last() =~= entries@.take(i - 1));
            assert(entries@.take(i as int).last() == entries@[i - 1]);
        }
        if str_equals(e.0.as_str(), keystrokes) {
            return Some(&e.1);
        }
        i -= 1;
    }
    None
}

/// The key contexts a command's keystrokes are bound in: the waveform and
/// the pointer over it for fit and frame, the main view for the other
/// commands a key can run, none for the rest.
pub fn binding_contexts(command_id: &str) -> (r: Vec<&'static str>)
    ensures
        !bindable_command_ids().contains(command_id@) ==> r@.len() == 0,
        bindable_command_ids().contains(command_id@) && (command_id@ == "view.fit_all"@ || command_id@
            == "view.frame"@) ==> r@.len() == 2 && r@[0]@ == WAVEFORM_KEY_CONTEXT@ && r@[1]@
            == WAVEFORM_HOVER_KEY_CONTEXT@,
        bindable_command_ids().contains(command_id@) && !(command_id@ == "view.fit_all"@ || command_id@
            == "view.frame"@) ==> r@.len() == 1 && r@[0]@ == APP_KEY_CONTEXT@,
{
    let mut contexts: Vec<&'static str> = Vec::new();
    if !is_bindable_command(command_id) {
        return contexts;
    }
    if str_equals(command_id, "view.fit_all") || str_equals(command_id, "view.frame") {
        contexts.push(WAVEFORM_KEY_CONTEXT);
        contexts.push(WAVEFORM_HOVER_KEY_CONTEXT);
    } else {
        contexts.push(APP_KEY_CONTEXT);
    }
    contexts
}

// ---------------------------------------------------------------------------
// Where the user's configuration lives
// ---------------------------------------------------------------------------

/// The separator a platform writes between path parts.
pub open spec fn separator(platform: Platform) -> char {
    if platform == Platform::Windows {
        '\\'
    } else {
        '/'
    }
}

/// Whether `c` ends a path part on `platform` (`/` everywhere, `\` on Windows too).
pub open spec fn ends_part(platform: Platform, c: char) -> bool {
    c == '/' || (platform == Platform::Windows && c == '\\')
}

/// `base` with `part` appended as one more path part: `part` alone after an
/// empty base, no extra separator after one that already ends in one.
pub open spec fn join_part(platform: Platform, base: Seq<char>, part: Seq<char>) -> Seq<char> {
    if base.len() == 0 {
        part
    } else if ends_part(platform, base.last()) {
        base + part
    } else {
        base + seq![separator(platform)] + part
    }
}

/// The directory of the user's configuration (`init.lua`, `keymap.json`) on
/// `platform`, given the values of `HOME`, `APPDATA` and `XDG_CONFIG_HOME`:
/// `~/Library/Application Support/snd-review` on macOS,
/// `%APPDATA%\snd-review` on Windows, and elsewhere
/// `$XDG_CONFIG_HOME/snd-review`, or `~/.config/snd-review` without it;
/// none when the variable it needs is unset.
pub open spec fn config_dir_spec(
    platform: Platform,
    home: Option<Seq<char>>,
    appdata: Option<Seq<char>>,
    xdg_config_home: Option<Seq<char>>,
) -> Option<Seq<char>> {
    match platform {
        Platform::Macos => match home {
            Some(h) => Some(
                join_part(
                    platform,
                    join_part(platform, join_part(platform, h, "Library"@), "Application Support"@),
                    "snd-review"@,
                ),
            ),
            None => None,
        },
        Platform::Windows => match appdata {
            Some(a) => Some(join_part(platform, a, "snd-review"@)),
            None => None,
        },
        Platform::Linux => match xdg_config_home {
            Some(x) => Some(join_part(platform, x, "snd-review"@)),
            None => match home {
                Some(h) => Some(join_part(platform, join_part(platform, h, ".config"@), "snd-review"@)),
                None => None,
            },
        },
    }
}

/// The characters of an optional string.
pub open spec fn opt_view(o: Option<String>) -> Option<Seq<char>> {
    match o {
        Some(s) => Some(s@),
        None => None,
    }
}

/// Appends `part` to the path `base` on `platform`.
fn join_path(platform: Platform, base: String, part: &str) -> (r: String)
    ensures
        r@ == join_part(platform, base@, part@),
{
    let mut out = base;
    let n = out.as_str().unicode_len();
    if n > 0 {
        let last = out.as_str().get_char(n - 1);
        let ends = last == '/' || (platform == Platform::Windows && last == '\\');
        if !ends {
            let sep = if platform == Platform::Windows {
                '\\'
            } else {
                '/'
            };
            push_char(&mut out, sep);
        }
    }
    let cs = chars_of(part);
    let ghost before = out@;
    push_chars(&mut out, &cs, 0, cs.len());
    proof {
        assert(cs@.subrange(0, cs@.len() as int) =~= part@);
        if n == 0 {
            assert(before + part@ =~= part@);
        }
    }
    out
}

/// The directory of the user's configuration on `platform`, from the values
/// of `HOME`, `APPDATA` and `XDG_CONFIG_HOME` (`None` where one is unset).
pub fn config_dir_for(
    platform: Platform,
    home: Option<String>,
    appdata: Option<String>,
    xdg_config_home: Option<String>,
) -> (r: Option<String>)
    ensures
        r matches Some(d) ==> config_dir_spec(
            platform,
            opt_view(home),
            opt_view(appdata),
            opt_view(xdg_config_home),
        ) == Some(d@),
        r is None <==> config_dir_spec(
            platform,
            opt_view(home),
            opt_view(appdata),
            opt_view(xdg_config_home),
        ) is None,
{
    match platform {
        Platform::Macos => match home {
            Some(h) => {
                let a = join_path(platform, h, "Library");
                let b = join_path(platform, a, "Application Support");
                Some(join_path(platform, b, "snd-review"))
            },
            None => None,
        },
        Platform::Windows => match appdata {
            Some(a) => Some(join_path(platform, a, "snd-review")),
            None => None,
        },
        Platform::Linux => match xdg_config_home {
            Some(x) => Some(join_path(platform, x, "snd-review")),
            None => match home {
                Some(h) => {
                    let c = join_path(platform, h, ".config");
                    Some(join_path(platform, c, "snd-review"))
                },
                None => None,
            },
        },
    }
}

/// The user's keymap file: `keymap.json` in [`config_dir_for`]'s directory.
pub fn keymap_path_for(
    platform: Platform,
    home: Option<String>,
    appdata: Option<String>,
    xdg_config_home: Option<String>,
) -> (r: Option<String>)
    ensures
        r matches Some(p) ==> (config_dir_spec(
            platform,
            opt_view(home),
            opt_view(appdata),
            opt_view(xdg_config_home),
        ) matches Some(d) && p@ == join_part(platform, d, "keymap.json"@)),
        r is None <==> config_dir_spec(
            platform,
            opt_view(home),
            opt_view(appdata),
            opt_view(xdg_config_home),
        ) is None,
{
    match config_dir_for(platform, home, appdata, xdg_config_home) {
        Some(d) => Some(join_path(platform, d, "keymap.json")),
        None => None,
    }
}

} // verus!
