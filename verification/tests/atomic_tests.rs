use defaults_rs::FileMeta;
use defaults_rs::SaveState;
use defaults_rs::SaveStep;
use defaults_rs::apply_step;
use defaults_rs::apply_steps;
use defaults_rs::run_save;
use defaults_rs::save_steps;

fn original() -> SaveState {
    SaveState {
        target: Some(FileMeta { bytes: vec![1, 2, 3], owner: (501, 20), mode: 0o600 }),
        temp: None,
    }
}

#[test]
fn interrupting_before_the_rename_leaves_the_original_untouched() {
    let mut st = original();
    // The save gets as far as writing and chowning the temporary file,
    // then stops: everything before the rename.
    apply_step(&mut st, &SaveStep::WriteTmp(vec![9, 9], (0, 0), 0o644));
    apply_step(&mut st, &SaveStep::ChownTmp((501, 20)));
    let t = st.target.as_ref().unwrap();
    assert_eq!(t.bytes, vec![1, 2, 3]);
    assert_eq!(t.owner, (501, 20));
    assert_eq!(t.mode, 0o600);
}

#[test]
fn a_prefix_of_the_step_list_before_the_rename_changes_nothing() {
    let mut st = original();
    let steps = save_steps(vec![9, 9], (0, 0), 0o644, Some((501, 20)), Some(0o600));
    let prefix: Vec<SaveStep> = steps
        .into_iter()
        .take_while(|s| !matches!(s, SaveStep::Rename))
        .collect();
    apply_steps(&mut st, &prefix);
    assert_eq!(st.target.as_ref().unwrap().bytes, vec![1, 2, 3]);
}

#[test]
fn a_finished_save_replaces_bytes_and_keeps_owner_and_mode() {
    let mut st = original();
    // A privileged process writes the file: the recorded owner and mode
    // are reapplied, not the writer's.
    run_save(&mut st, vec![9, 8, 7], (0, 0), 0o644, Some((501, 20)), Some(0o600));
    let t = st.target.as_ref().unwrap();
    assert_eq!(t.bytes, vec![9, 8, 7]);
    assert_eq!(t.owner, (501, 20));
    assert_eq!(t.mode, 0o600);
    assert!(st.temp.is_none());
}

#[test]
fn a_fresh_file_takes_the_writer_and_default_mode() {
    let mut st = SaveState { target: None, temp: None };
    run_save(&mut st, vec![5], (0, 0), 0o644, None, None);
    let t = st.target.as_ref().unwrap();
    assert_eq!(t.bytes, vec![5]);
    assert_eq!(t.owner, (0, 0));
    assert_eq!(t.mode, 0o644);
}
