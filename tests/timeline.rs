use graph_layout::command::Remove;
use graph_layout::timeline::{DataStore, ViewMode};

#[test]
fn test_empty_datastore_timeline() {
    let mut datastore: DataStore<u32> = DataStore::default();

    assert_eq!(datastore.current_timeline_position(), None);
    assert!(!datastore.can_step_backward());
    assert!(!datastore.can_step_forward());

    datastore.step_backward();
    datastore.step_forward();
    datastore.toggle_rolling_mode();

    assert!(matches!(datastore.current_view_mode, ViewMode::Rolling));
}

#[test]
fn test_timeline_navigation() {
    let mut datastore: DataStore<u32> = DataStore::default();

    datastore.record_command(1);
    datastore.record_command(2);
    datastore.record_command(3);

    assert!(matches!(datastore.current_view_mode, ViewMode::Rolling));
    assert_eq!(datastore.current_timeline_position(), Some(2));

    assert!(datastore.can_step_backward());
    assert!(!datastore.can_step_forward());

    datastore.step_backward();
    assert!(matches!(datastore.current_view_mode, ViewMode::Specific(2)));
    assert_eq!(datastore.current_timeline_position(), Some(2));

    assert!(datastore.can_step_backward());
    assert!(!datastore.can_step_forward());

    datastore.step_backward();
    assert!(matches!(datastore.current_view_mode, ViewMode::Specific(1)));
    assert_eq!(datastore.current_timeline_position(), Some(1));

    assert!(datastore.can_step_backward());
    assert!(datastore.can_step_forward());

    datastore.step_backward();
    assert!(matches!(datastore.current_view_mode, ViewMode::Specific(0)));
    assert_eq!(datastore.current_timeline_position(), Some(0));

    assert!(!datastore.can_step_backward());
    assert!(datastore.can_step_forward());

    datastore.step_forward();
    assert!(matches!(datastore.current_view_mode, ViewMode::Specific(1)));

    datastore.step_forward();
    assert!(matches!(datastore.current_view_mode, ViewMode::Specific(2)));

    datastore.toggle_rolling_mode();
    assert!(matches!(datastore.current_view_mode, ViewMode::Rolling));
    assert_eq!(datastore.current_timeline_position(), Some(2));
}

#[test]
fn recording_does_not_move_a_fixed_view() {
    let mut datastore: DataStore<&str> = DataStore::new();
    datastore.record_command("a");
    datastore.set_view(ViewMode::Specific(0));
    datastore.record_command("b");
    assert_eq!(datastore.current_timeline_position(), Some(0));
    assert_eq!(datastore.timestamp_bounds(), Some((0, 1)));
    assert_eq!(datastore.history_len(), 2);
    assert_eq!(datastore.command_history[1], (1, vec!["b"]));
}

#[test]
fn stepping_skips_gaps_in_the_timeline() {
    let mut datastore: DataStore<u8> = DataStore::new();
    datastore.command_history = vec![(3, vec![1]), (7, vec![2, 3]), (20, vec![])];
    datastore.set_view(ViewMode::Specific(10));
    assert!(datastore.can_step_backward());
    assert!(datastore.can_step_forward());
    datastore.step_forward();
    assert_eq!(datastore.current_view_mode, ViewMode::Specific(20));
    datastore.set_view(ViewMode::Specific(10));
    datastore.step_backward();
    assert_eq!(datastore.current_view_mode, ViewMode::Specific(7));
    datastore.step_backward();
    assert_eq!(datastore.current_view_mode, ViewMode::Specific(3));
    datastore.step_backward();
    assert_eq!(datastore.current_view_mode, ViewMode::Specific(3));
    assert_eq!(datastore.history_len(), 3);
    datastore.record_command(9);
    assert_eq!(datastore.timestamp_bounds(), Some((3, 21)));
}

#[test]
fn default_view_is_rolling() {
    assert_eq!(ViewMode::default(), ViewMode::Rolling);
}

#[test]
fn remove_kinds_by_type_name() {
    assert_eq!(Remove::from_type_name("Node"), Some(Remove::Node));
    assert_eq!(Remove::from_type_name("Edge"), Some(Remove::Edge));
    assert_eq!(Remove::from_type_name("State"), Some(Remove::State));
    assert_eq!(Remove::from_type_name("Name"), Some(Remove::Name));
    assert_eq!(Remove::from_type_name("TypeName"), Some(Remove::TypeName));
    assert_eq!(Remove::from_type_name("Properties"), Some(Remove::Properties));
    assert_eq!(Remove::from_type_name("Port"), Some(Remove::Port));
    assert_eq!(Remove::from_type_name("Child"), Some(Remove::Child));
    assert_eq!(Remove::from_type_name("Widget"), None);
    assert_eq!(Remove::from_type_name("node"), None);
}
