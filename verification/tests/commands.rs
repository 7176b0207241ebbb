use snd_review::commands::{
    command_action, is_known_command, known_commands, validate_command_id, CommandAction,
};
use snd_review::labels::{edit_title, format_bit_depth, format_len, transport_state_label};
use snd_review::edit_op::EditOp;
use snd_review::transport::TransportState;

#[test]
fn dispatch_rejects_unknown_command_ids() {
    assert_eq!(known_commands().len(), 42);
    for id in known_commands() {
        assert!(is_known_command(id));
        assert!(validate_command_id(id).is_ok());
    }
    let err = validate_command_id("not.a.command").unwrap_err();
    assert!(err.contains("unknown command"));
}

#[test]
fn unknown_command_message_names_the_id() {
    assert_eq!(
        validate_command_id("edit.nothing").unwrap_err(),
        "unknown command `edit.nothing`"
    );
    assert!(!is_known_command(""));
    assert!(is_known_command("transport.loop"));
}

#[test]
fn formats_bit_depth() {
    assert_eq!(format_bit_depth(Some(16)), "16-bit");
    assert_eq!(format_bit_depth(None), "—");
}

#[test]
fn edit_titles_and_lengths() {
    assert_eq!(edit_title(&EditOp::Init), "Initial");
    assert_eq!(edit_title(&EditOp::Roll { at: 1, delta: -2 }), "Roll");
    assert_eq!(format_len(22050), "22050 smp");
    assert_eq!(format_len(0), "0 smp");
    assert_eq!(format_bit_depth(Some(24)), "24-bit");
}

#[test]
fn transport_labels() {
    assert_eq!(transport_state_label(TransportState::Stopped), "Stopped");
    assert_eq!(transport_state_label(TransportState::Playing), "Playing");
    assert_eq!(transport_state_label(TransportState::Paused), "Paused");
}

#[test]
fn documented_script_commands_are_known() {
    for id in [
        "file.save",
        "file.save_as",
        "file.close",
        "file.render",
        "selection.select_all",
        "selection.select_none",
        "selection.invert",
        "selection.marker_type_blue",
        "selection.marker_type_yellow",
        "selection.marker_type_purple",
        "selection.add_at_hover",
        "selection.add_marker",
        "selection.delete_marker",
    ] {
        assert!(is_known_command(id), "{id}");
        assert!(validate_command_id(id).is_ok());
    }
}

#[test]
fn command_ids_map_to_their_actions() {
    assert_eq!(command_action("transport.play_pause"), Ok(CommandAction::TransportPlayPause));
    assert_eq!(command_action("edit.undo"), Ok(CommandAction::EditUndo));
    assert_eq!(command_action("file.close"), Ok(CommandAction::FileClose));
    assert_eq!(command_action("selection.delete_marker"), Ok(CommandAction::DeleteMarker));
    let mut seen = Vec::new();
    for id in known_commands() {
        let action = command_action(id).unwrap();
        assert!(!seen.contains(&action), "{id} shares an action");
        seen.push(action);
    }
    assert_eq!(seen.len(), 42);
}

#[test]
fn unknown_command_ids_are_refused_by_name() {
    assert_eq!(command_action("edit.frobnicate"), Err("unknown command `edit.frobnicate`".to_string()));
    assert_eq!(command_action(""), Err("unknown command ``".to_string()));
}
