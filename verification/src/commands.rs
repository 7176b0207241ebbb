use vstd::prelude::*;

use crate::text::{str_equals, string_of};

verus! {

/// The command ids that the keymap, the menus and scripts share.
pub open spec fn known_command_ids() -> Seq<Seq<char>> {
    seq![
        "file.open"@,
        "file.save"@,
        "file.save_as"@,
        "file.close"@,
        "file.render"@,
        "file.quit"@,
        "help.about"@,
        "view.fit_all"@,
        "view.frame"@,
        "view.zoom_in"@,
        "view.zoom_out"@,
        "view.explorer"@,
        "view.history"@,
        "view.script"@,
        "transport.home"@,
        "transport.previous"@,
        "transport.start"@,
        "transport.play_pause"@,
        "transport.stop"@,
        "transport.next"@,
        "transport.end"@,
        "transport.loop"@,
        "edit.undo"@,
        "edit.redo"@,
        "edit.cut"@,
        "edit.copy"@,
        "edit.paste"@,
        "edit.delete"@,
        "edit.remove"@,
        "edit.duplicate"@,
        "edit.trim"@,
        "edit.roll_left"@,
        "edit.roll_right"@,
        "selection.select_all"@,
        "selection.select_none"@,
        "selection.invert"@,
        "selection.marker_type_blue"@,
        "selection.marker_type_yellow"@,
        "selection.marker_type_purple"@,
        "selection.add_at_hover"@,
        "selection.add_marker"@,
        "selection.delete_marker"@,
    ]
}

/// The command ids a key can be bound to.
pub open spec fn bindable_command_ids() -> Seq<Seq<char>> {
    seq![
        "file.open"@,
        "file.quit"@,
        "help.about"@,
        "view.fit_all"@,
        "view.frame"@,
        "view.zoom_in"@,
        "view.zoom_out"@,
        "view.explorer"@,
        "view.history"@,
        "view.script"@,
        "transport.home"@,
        "transport.previous"@,
        "transport.start"@,
        "transport.play_pause"@,
        "transport.stop"@,
        "transport.next"@,
        "transport.end"@,
        "transport.loop"@,
        "edit.undo"@,
        "edit.redo"@,
        "edit.cut"@,
        "edit.copy"@,
        "edit.paste"@,
        "edit.delete"@,
        "edit.remove"@,
        "edit.duplicate"@,
        "edit.trim"@,
        "edit.roll_left"@,
        "edit.roll_right"@,
    ]
}

/// The views of the strings in `ids`.
pub open spec fn id_views(ids: Seq<&str>) -> Seq<Seq<char>> {
    ids.map_values(|s: &str| s@)
}

/// Command ids that keymap, menus, and scripts share.
pub fn known_commands() -> (r: &'static [&'static str])
    ensures
        id_views(r@) == known_command_ids(),
{
    let ids: &'static [&'static str] = &[
        "file.open",
        "file.save",
        "file.save_as",
        "file.close",
        "file.render",
        "file.quit",
        "help.about",
        "view.fit_all",
        "view.frame",
        "view.zoom_in",
        "view.zoom_out",
        "view.explorer",
        "view.history",
        "view.script",
        "transport.home",
        "transport.previous",
        "transport.start",
        "transport.play_pause",
        "transport.stop",
        "transport.next",
        "transport.end",
        "transport.loop",
        "edit.undo",
        "edit.redo",
        "edit.cut",
        "edit.copy",
        "edit.paste",
        "edit.delete",
        "edit.remove",
        "edit.duplicate",
        "edit.trim",
        "edit.roll_left",
        "edit.roll_right",
        "selection.select_all",
        "selection.select_none",
        "selection.invert",
        "selection.marker_type_blue",
        "selection.marker_type_yellow",
        "selection.marker_type_purple",
        "selection.add_at_hover",
        "selection.add_marker",
        "selection.delete_marker",
    ];
    proof {
        assert(id_views(ids@) =~= known_command_ids());
    }
    ids
}

/// Command ids that a key binding can run.
pub fn bindable_commands() -> (r: &'static [&'static str])
    ensures
        id_views(r@) == bindable_command_ids(),
{
    let ids: &'static [&'static str] = &[
        "file.open",
        "file.quit",
        "help.about",
        "view.fit_all",
        "view.frame",
        "view.zoom_in",
        "view.zoom_out",
        "view.explorer",
        "view.history",
        "view.script",
        "transport.home",
        "transport.previous",
        "transport.start",
        "transport.play_pause",
        "transport.stop",
        "transport.next",
        "transport.end",
        "transport.loop",
        "edit.undo",
        "edit.redo",
        "edit.cut",
        "edit.copy",
        "edit.paste",
        "edit.delete",
        "edit.remove",
        "edit.duplicate",
        "edit.trim",
        "edit.roll_left",
        "edit.roll_right",
    ];
    proof {
        assert(id_views(ids@) =~= bindable_command_ids());
    }
    ids
}

/// Whether `id` is one of `ids`.
pub fn list_contains(ids: &[&str], id: &str) -> (b: bool)
    ensures
        b == id_views(ids@).contains(id@),
{
    let mut i: usize = 0;
    while i < ids.len()
        invariant
            i <= ids@.len(),
            forall|k: int| 0 <= k < i ==> id_views(ids@)[k] != id@,
        decreases ids@.len() - i,
    {
        if str_equals(ids[i], id) {
            proof {
                assert(id_views(ids@)[i as int] == id@);
            }
            return true;
        }
        i += 1;
    }
    false
}

/// Whether `command_id` is one of the known command ids.
pub fn is_known_command(command_id: &str) -> (b: bool)
    ensures
        b == known_command_ids().contains(command_id@),
{
    list_contains(known_commands(), command_id)
}

/// Whether a key can be bound to `command_id`.
pub fn is_bindable_command(command_id: &str) -> (b: bool)
    ensures
        b == bindable_command_ids().contains(command_id@),
{
    list_contains(bindable_commands(), command_id)
}

/// The message for a command id that is not known.
pub open spec fn unknown_command_message(command_id: Seq<char>) -> Seq<char> {
    "unknown command `"@ + command_id + "`"@
}

/// `Ok` for a known command id, else an error naming the id.
pub fn validate_command_id(command_id: &str) -> (r: Result<(), String>)
    ensures
        r is Ok == known_command_ids().contains(command_id@),
        r matches Err(msg) ==> msg@ == unknown_command_message(command_id@),
{
    if !is_known_command(command_id) {
        let mut msg = string_of("unknown command `");
        msg.append(command_id);
        msg.append("`");
        return Err(msg);
    }
    Ok(())
}

/// What a command id runs: one action per known command id, in the order of
/// [`known_command_ids`].
#[derive(Debug, Clone, Copy, PartialEq, Eq, Structural)]
pub enum CommandAction {
    FileOpen,
    FileSave,
    FileSaveAs,
    FileClose,
    FileRender,
    FileQuit,
    HelpAbout,
    ViewFitAll,
    ViewFrame,
    ViewZoomIn,
    ViewZoomOut,
    ViewExplorer,
    ViewHistory,
    ViewScript,
    TransportHome,
    TransportPrevious,
    TransportStart,
    TransportPlayPause,
    TransportStop,
    TransportNext,
    TransportEnd,
    TransportLoop,
    EditUndo,
    EditRedo,
    EditCut,
    EditCopy,
    EditPaste,
    EditDelete,
    EditRemove,
    EditDuplicate,
    EditTrim,
    EditRollLeft,
    EditRollRight,
    SelectAll,
    SelectNone,
    SelectionInvert,
    MarkerTypeBlue,
    MarkerTypeYellow,
    MarkerTypePurple,
    AddAtHover,
    AddMarker,
    DeleteMarker,
}

/// The action of the command id at `i` in [`known_command_ids`].
pub open spec fn action_at(i: int) -> CommandAction {
    if i == 0 {
        CommandAction::FileOpen
    } else if i == 1 {
        CommandAction::FileSave
    } else if i == 2 {
        CommandAction::FileSaveAs
    } else if i == 3 {
        CommandAction::FileClose
    } else if i == 4 {
        CommandAction::FileRender
    } else if i == 5 {
        CommandAction::FileQuit
    } else if i == 6 {
        CommandAction::HelpAbout
    } else if i == 7 {
        CommandAction::ViewFitAll
    } else if i == 8 {
        CommandAction::ViewFrame
    } else if i == 9 {
        CommandAction::ViewZoomIn
    } else if i == 10 {
        CommandAction::ViewZoomOut
    } else if i == 11 {
        CommandAction::ViewExplorer
    } else if i == 12 {
        CommandAction::ViewHistory
    } else if i == 13 {
        CommandAction::ViewScript
    } else if i == 14 {
        CommandAction::TransportHome
    } else if i == 15 {
        CommandAction::TransportPrevious
    } else if i == 16 {
        CommandAction::TransportStart
    } else if i == 17 {
        CommandAction::TransportPlayPause
    } else if i == 18 {
        CommandAction::TransportStop
    } else if i == 19 {
        CommandAction::TransportNext
    } else if i == 20 {
        CommandAction::TransportEnd
    } else if i == 21 {
        CommandAction::TransportLoop
    } else if i == 22 {
        CommandAction::EditUndo
    } else if i == 23 {
        CommandAction::EditRedo
    } else if i == 24 {
        CommandAction::EditCut
    } else if i == 25 {
        CommandAction::EditCopy
    } else if i == 26 {
        CommandAction::EditPaste
    } else if i == 27 {
        CommandAction::EditDelete
    } else if i == 28 {
        CommandAction::EditRemove
    } else if i == 29 {
        CommandAction::EditDuplicate
    } else if i == 30 {
        CommandAction::EditTrim
    } else if i == 31 {
        CommandAction::EditRollLeft
    } else if i == 32 {
        CommandAction::EditRollRight
    } else if i == 33 {
        CommandAction::SelectAll
    } else if i == 34 {
        CommandAction::SelectNone
    } else if i == 35 {
        CommandAction::SelectionInvert
    } else if i == 36 {
        CommandAction::MarkerTypeBlue
    } else if i == 37 {
        CommandAction::MarkerTypeYellow
    } else if i == 38 {
        CommandAction::MarkerTypePurple
    } else if i == 39 {
        CommandAction::AddAtHover
    } else if i == 40 {
        CommandAction::AddMarker
    } else {
        CommandAction::DeleteMarker
    }
}

/// The action of the command id at `i` in [`known_commands`].
fn action_for_index(i: usize) -> (a: CommandAction)
    requires
        i < 42,
    ensures
        a == action_at(i as int),
{
    match i {
        0 => CommandAction::FileOpen,
        1 => CommandAction::FileSave,
        2 => CommandAction::FileSaveAs,
        3 => CommandAction::FileClose,
        4 => CommandAction::FileRender,
        5 => CommandAction::FileQuit,
        6 => CommandAction::HelpAbout,
        7 => CommandAction::ViewFitAll,
        8 => CommandAction::ViewFrame,
        9 => CommandAction::ViewZoomIn,
        10 => CommandAction::ViewZoomOut,
        11 => CommandAction::ViewExplorer,
        12 => CommandAction::ViewHistory,
        13 => CommandAction::ViewScript,
        14 => CommandAction::TransportHome,
        15 => CommandAction::TransportPrevious,
        16 => CommandAction::TransportStart,
        17 => CommandAction::TransportPlayPause,
        18 => CommandAction::TransportStop,
        19 => CommandAction::TransportNext,
        20 => CommandAction::TransportEnd,
        21 => CommandAction::TransportLoop,
        22 => CommandAction::EditUndo,
        23 => CommandAction::EditRedo,
        24 => CommandAction::EditCut,
        25 => CommandAction::EditCopy,
        26 => CommandAction::EditPaste,
        27 => CommandAction::EditDelete,
        28 => CommandAction::EditRemove,
        29 => CommandAction::EditDuplicate,
        30 => CommandAction::EditTrim,
        31 => CommandAction::EditRollLeft,
        32 => CommandAction::EditRollRight,
        33 => CommandAction::SelectAll,
        34 => CommandAction::SelectNone,
        35 => CommandAction::SelectionInvert,
        36 => CommandAction::MarkerTypeBlue,
        37 => CommandAction::MarkerTypeYellow,
        38 => CommandAction::MarkerTypePurple,
        39 => CommandAction::AddAtHover,
        40 => CommandAction::AddMarker,
        _ => CommandAction::DeleteMarker,
    }
}

/// The first position of `id` in `ids`, if it is there.
pub open spec fn first_position(ids: Seq<Seq<char>>, id: Seq<char>, i: int) -> bool {
    0 <= i < ids.len() && ids[i] == id && forall|j: int| 0 <= j < i ==> ids[j] != id
}

/// The action a command id runs, or none for an id that is not known.
pub open spec fn command_action_spec(id: Seq<char>) -> Option<CommandAction> {
    if known_command_ids().contains(id) {
        Some(action_at(choose|i: int| first_position(known_command_ids(), id, i)))
    } else {
        None
    }
}

/// Where `id` first stands in `ids`.
fn position_of(ids: &[&str], id: &str) -> (r: Option<usize>)
    ensures
        r matches Some(i) ==> first_position(id_views(ids@), id@, i as int),
        r is None <==> !id_views(ids@).contains(id@),
{
    let mut i: usize = 0;
    while i < ids.len()
        invariant
            i <= ids@.len(),
            forall|k: int| 0 <= k < i ==> id_views(ids@)[k] != id@,
        decreases ids@.len() - i,
    {
        if str_equals(ids[i], id) {
            proof {
                assert(id_views(ids@)[i as int] == id@);
            }
            return Some(i);
        }
        i += 1;
    }
    None
}

/// The action that `command_id` runs, as the menus, the key bindings and
/// scripts run it; an error naming the id for one that is not known.
pub fn command_action(command_id: &str) -> (r: Result<CommandAction, String>)
    ensures
        r matches Ok(a) ==> command_action_spec(command_id@) == Some(a),
        r is Err <==> command_action_spec(command_id@) is None,
        r matches Err(msg) ==> msg@ == unknown_command_message(command_id@),
{
    let ids = known_commands();
    match position_of(ids, command_id) {
        Some(i) => {
            proof {
                let ks = known_command_ids();
                assert(ks.contains(command_id@)) by {
                    assert(ks[i as int] == command_id@);
                }
                let c = choose|j: int| first_position(ks, command_id@, j);
                assert(first_position(ks, command_id@, c));
                if c < i {
                    assert(ks[c] == command_id@);
                } else if c > i {
                    assert(ks[i as int] == command_id@);
                }
                assert(c == i);
            }
            Ok(action_for_index(i))
        },
        None => {
            let mut msg = string_of("unknown command `");
            msg.append(command_id);
            msg.append("`");
            Err(msg)
        },
    }
}

} // verus!
