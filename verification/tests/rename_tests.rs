use stable_tabs::engine::{Engine, PipeInput, RenameError, RenameOutcome, RenameRequest};
use stable_tabs::snapshot::{Group, Item, ItemGroup};
use stable_tabs::template::TemplateFault;

fn g(pos: u64, label: &str) -> Group {
    Group { position: pos, label: label.to_string() }
}

fn it(id: u64) -> Item {
    Item { id, is_virtual: false, is_hidden: false }
}

fn ig(pos: u64, ids: &[u64]) -> ItemGroup {
    ItemGroup { position: pos, items: ids.iter().map(|&i| it(i)).collect() }
}

fn request(id: &str, tpl: &str, stable: bool) -> PipeInput {
    PipeInput::Request(RenameRequest {
        item_id: id.to_string(),
        label_template: tpl.to_string(),
        use_stable_identity: stable,
    })
}

fn two_group_engine() -> Engine {
    let mut e = Engine::new();
    e.on_group_update(vec![g(0, "t0"), g(1, "t1")]);
    e.on_item_update(vec![ig(0, &[7, 8]), ig(1, &[9])]);
    e
}

#[test]
fn missing_and_malformed_payloads_are_rejected() {
    let mut e = two_group_engine();
    assert_eq!(e.handle_pipe(PipeInput::Missing), Err(RenameError::MissingPayload));
    assert_eq!(e.handle_pipe(PipeInput::Malformed), Err(RenameError::MalformedRequest));
}

#[test]
fn non_numeric_identifier_is_rejected() {
    let mut e = two_group_engine();
    assert_eq!(
        e.handle_pipe(request("abc", "x", true)),
        Err(RenameError::InvalidIdentifier)
    );
    assert_eq!(
        e.handle_pipe(request("", "x", true)),
        Err(RenameError::InvalidIdentifier)
    );
    assert_eq!(
        e.handle_pipe(request("99999999999999999999999", "x", true)),
        Err(RenameError::InvalidIdentifier)
    );
    // A leading plus sign parses, as Rust's integer parsing accepts it.
    match e.handle_pipe(request("+9", "n", true)) {
        Ok(RenameOutcome::Renamed(act)) => assert_eq!(act.label, "n"),
        _ => panic!("expected a rename"),
    }
}

#[test]
fn unknown_item_is_rejected_without_mutation() {
    let mut e = two_group_engine();
    let s9 = e.stable_identity(9);
    let r = e.handle_pipe(request("999", "win-{tab_position}", true));
    assert_eq!(r, Err(RenameError::UnknownItem));
    // No mapping was mutated and no template registered.
    assert_eq!(e.stable_identity(9), s9);
    assert_eq!(e.display_position(9), Some(1));
    assert_eq!(e.template_for(s9.unwrap()), None);
    assert_eq!(e.next_identity(), 3);
}

#[test]
fn template_faults_are_rejected_with_their_cause() {
    let mut e = two_group_engine();
    assert_eq!(
        e.handle_pipe(request("9", "{pos}", true)),
        Err(RenameError::TemplateError(TemplateFault::UnknownPlaceholder))
    );
    assert_eq!(
        e.handle_pipe(request("9", "{tab_position", true)),
        Err(RenameError::TemplateError(TemplateFault::UnclosedPlaceholder))
    );
    assert_eq!(
        e.handle_pipe(request("9", "a}b", true)),
        Err(RenameError::TemplateError(TemplateFault::StrayClose))
    );
    // No template was registered by any rejection.
    let sid = e.stable_identity(9).unwrap();
    assert_eq!(e.template_for(sid), None);
}

#[test]
fn doubled_braces_render_as_literals() {
    let mut e = two_group_engine();
    match e.handle_pipe(request("9", "{{n {tab_position}}}", true)) {
        Ok(RenameOutcome::Renamed(act)) => assert_eq!(act.label, "{n 2}"),
        _ => panic!("expected a rename"),
    }
}

#[test]
fn matching_label_is_a_noop() {
    let mut e = two_group_engine();
    // Display position 1 shows "t1"; a template rendering exactly "t1"
    // succeeds without issuing a rename or registering anything.
    let r = e.handle_pipe(request("9", "t1", true));
    assert_eq!(r, Ok(RenameOutcome::NoOp));
    let sid = e.stable_identity(9).unwrap();
    assert_eq!(e.template_for(sid), None);
}

#[test]
fn repeated_request_after_host_echo_is_a_noop() {
    let mut e = two_group_engine();
    let r = e.handle_pipe(request("9", "win-{tab_position}", true));
    let sid = e.stable_identity(9).unwrap();
    match r {
        Ok(RenameOutcome::Renamed(act)) => {
            assert_eq!(act.target, sid);
            assert_eq!(act.label, "win-2");
        },
        _ => panic!("expected a rename"),
    }
    // The host acknowledges the rename: same groups, new label, no
    // position change — the pass issues no further rename.
    let acts = e.on_group_update(vec![g(0, "t0"), g(1, "win-2")]);
    assert!(acts.is_empty());
    // The identical request is now a no-op: one action in total, not two.
    let r2 = e.handle_pipe(request("9", "win-{tab_position}", true));
    assert_eq!(r2, Ok(RenameOutcome::NoOp));
    assert_eq!(e.last_known_position(sid), Some(1));
}

#[test]
fn direct_position_mode_targets_shift_after_deletion() {
    let mut e = two_group_engine();
    // Fragile mode: the target is the 1-indexed display position.
    let r = e.handle_pipe(request("9", "win", false));
    let first_target = match r {
        Ok(RenameOutcome::Renamed(act)) => {
            assert_eq!(act.label, "win");
            act.target
        },
        _ => panic!("expected a rename"),
    };
    assert_eq!(first_target, 2);

    // Delete the first group: item 9 shifts to display position 0. The
    // identical request now targets a different (shifted) position — the
    // documented fragility of bypassing stable identities.
    e.on_item_update(vec![ig(0, &[9])]);
    e.on_group_update(vec![g(0, "t1")]);
    let r2 = e.handle_pipe(request("9", "win", false));
    let second_target = match r2 {
        Ok(RenameOutcome::Renamed(act)) => act.target,
        _ => panic!("expected a rename"),
    };
    assert_eq!(second_target, 1);
    assert_ne!(first_target, second_target);
}

#[test]
fn direct_position_mode_still_registers_the_template() {
    let mut e = two_group_engine();
    let r = e.handle_pipe(request("9", "w{tab_position}", false));
    match r {
        Ok(RenameOutcome::Renamed(act)) => {
            assert_eq!(act.target, 2);
            assert_eq!(act.label, "w2");
        },
        _ => panic!("expected a rename"),
    }
    let sid = e.stable_identity(9).unwrap();
    assert!(e.template_for(sid).is_some());
    assert_eq!(e.last_known_position(sid), Some(1));
}

#[test]
fn retirement_drops_the_registered_template() {
    let mut e = two_group_engine();
    e.handle_pipe(request("7", "a{tab_position}", true)).unwrap();
    let sid = e.stable_identity(7).unwrap();
    assert!(e.template_for(sid).is_some());
    // Both items of the group vanish with no replacement at position 0.
    e.on_item_update(vec![ig(1, &[9])]);
    assert_eq!(e.stable_identity(7), None);
    assert_eq!(e.stable_identity(8), None);
    assert_eq!(e.template_for(sid), None);
    assert_eq!(e.last_known_position(sid), None);
}
