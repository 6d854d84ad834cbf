use logtripwire::action::{lacks_command, ActionKind};

#[test]
fn only_the_command_action_needs_a_command() {
    assert!(lacks_command(ActionKind::Command, &None));
    assert!(!lacks_command(ActionKind::Command, &Some("true".to_string())));
    assert!(!lacks_command(ActionKind::Alert, &None));
    assert!(!lacks_command(ActionKind::Exit, &None));
}
