use stable_tabs::engine::{Engine, PipeInput, RenameOutcome, RenameRequest};
use stable_tabs::snapshot::{Group, Item, ItemGroup};

fn g(pos: u64, label: &str) -> Group {
    Group { position: pos, label: label.to_string() }
}

fn it(id: u64) -> Item {
    Item { id, is_virtual: false, is_hidden: false }
}

fn ig(pos: u64, ids: &[u64]) -> ItemGroup {
    ItemGroup { position: pos, items: ids.iter().map(|&i| it(i)).collect() }
}

fn request(id: &str, tpl: &str, stable: bool) -> PipeInput {
    PipeInput::Request(RenameRequest {
        item_id: id.to_string(),
        label_template: tpl.to_string(),
        use_stable_identity: stable,
    })
}

#[test]
fn fresh_engine_is_empty() {
    let e = Engine::new();
    assert_eq!(e.next_identity(), 1);
    assert_eq!(e.display_position(7), None);
    assert_eq!(e.stable_identity(7), None);
    assert_eq!(e.template_for(1), None);
    assert_eq!(e.last_known_position(1), None);
}

#[test]
fn items_in_one_group_share_an_identity() {
    let mut e = Engine::new();
    let acts = e.on_group_update(vec![g(0, "t0"), g(1, "t1")]);
    assert!(acts.is_empty());
    let acts = e.on_item_update(vec![ig(0, &[7, 8]), ig(1, &[9])]);
    assert!(acts.is_empty());

    assert_eq!(e.display_position(7), Some(0));
    assert_eq!(e.display_position(8), Some(0));
    assert_eq!(e.display_position(9), Some(1));

    let s7 = e.stable_identity(7).unwrap();
    let s8 = e.stable_identity(8).unwrap();
    let s9 = e.stable_identity(9).unwrap();
    assert_eq!(s7, s8);
    assert_ne!(s7, s9);
    assert_eq!(e.next_identity(), 3);
}

#[test]
fn virtual_and_hidden_items_are_ignored() {
    let mut e = Engine::new();
    e.on_group_update(vec![g(0, "t0")]);
    let virt = Item { id: 5, is_virtual: true, is_hidden: false };
    let hid = Item { id: 6, is_virtual: false, is_hidden: true };
    e.on_item_update(vec![ItemGroup { position: 0, items: vec![virt, hid, it(7)] }]);
    assert_eq!(e.display_position(5), None);
    assert_eq!(e.display_position(6), None);
    assert_eq!(e.display_position(7), Some(0));
    assert_eq!(e.stable_identity(5), None);
    assert_eq!(e.stable_identity(6), None);
    assert_eq!(e.next_identity(), 2);
}

#[test]
fn identity_transfers_to_replacement_at_same_position() {
    let mut e = Engine::new();
    e.on_group_update(vec![g(0, "t0")]);
    e.on_item_update(vec![ig(0, &[7])]);
    let s7 = e.stable_identity(7).unwrap();

    // The host renumbers the pane: 7 vanishes, 10 appears at position 0.
    e.on_item_update(vec![ig(0, &[10])]);
    assert_eq!(e.stable_identity(7), None);
    assert_eq!(e.stable_identity(10), Some(s7));
    assert_eq!(e.next_identity(), 2);
}

#[test]
fn identity_retires_without_replacement() {
    let mut e = Engine::new();
    e.on_group_update(vec![g(0, "t0"), g(1, "t1")]);
    e.on_item_update(vec![ig(0, &[7]), ig(1, &[9])]);
    let s7 = e.stable_identity(7).unwrap();
    let s9 = e.stable_identity(9).unwrap();

    // Group 0 is deleted; its item vanishes with no replacement.
    e.on_item_update(vec![ig(0, &[9])]);
    e.on_group_update(vec![g(0, "t1")]);
    assert_eq!(e.stable_identity(7), None);
    assert_eq!(e.stable_identity(9), Some(s9));

    // A later arrival allocates a fresh value, never the retired s7.
    e.on_item_update(vec![ig(0, &[9]), ig(1, &[11])]);
    e.on_group_update(vec![g(0, "t1"), g(1, "t2")]);
    let s11 = e.stable_identity(11).unwrap();
    assert_ne!(s11, s7);
    assert!(s11 > s7);
    assert!(s11 > s9);
}

#[test]
fn allocator_is_strictly_increasing() {
    let mut e = Engine::new();
    let mut seen: Vec<u64> = Vec::new();
    e.on_group_update(vec![g(0, "a")]);
    e.on_item_update(vec![ig(0, &[1])]);
    seen.push(e.stable_identity(1).unwrap());

    e.on_group_update(vec![g(0, "a"), g(1, "b")]);
    e.on_item_update(vec![ig(0, &[1]), ig(1, &[2])]);
    seen.push(e.stable_identity(2).unwrap());

    // Remove everything, then start over: values must not repeat.
    e.on_item_update(vec![]);
    e.on_group_update(vec![]);
    e.on_group_update(vec![g(0, "c")]);
    e.on_item_update(vec![ig(0, &[3])]);
    seen.push(e.stable_identity(3).unwrap());

    for w in seen.windows(2) {
        assert!(w[0] < w[1]);
    }
}

#[test]
fn auto_relabel_fires_once_on_position_change() {
    let mut e = Engine::new();
    e.on_group_update(vec![g(0, "a"), g(1, "b"), g(2, "c")]);
    e.on_item_update(vec![ig(0, &[1]), ig(1, &[2]), ig(2, &[9])]);

    // Register a template for the group of item 9, last seen at display
    // position 2.
    let r = e.handle_pipe(request("9", "T{tab_position}", true));
    let sid = e.stable_identity(9).unwrap();
    match r {
        Ok(RenameOutcome::Renamed(act)) => {
            assert_eq!(act.target, sid);
            assert_eq!(act.label, "T3");
        },
        other => panic!("expected a rename, got {:?}", outcome_tag(&other)),
    }
    assert_eq!(e.last_known_position(sid), Some(2));

    // Reorder so that the group moves to display position 0: exactly one
    // rename is issued, rendering the 1-indexed position.
    let acts = e.on_group_update(vec![g(2, "c"), g(0, "a"), g(1, "b")]);
    let for_sid: Vec<_> = acts.iter().filter(|a| a.target == sid).collect();
    assert_eq!(for_sid.len(), 1);
    assert_eq!(for_sid[0].label, "T1");
    assert_eq!(e.last_known_position(sid), Some(0));

    // A pass that moves nothing issues nothing.
    let acts = e.on_group_update(vec![g(2, "c"), g(0, "a"), g(1, "b")]);
    assert!(acts.iter().all(|a| a.target != sid));
}

fn outcome_tag(
    r: &Result<RenameOutcome, stable_tabs::engine::RenameError>,
) -> &'static str {
    match r {
        Ok(RenameOutcome::Renamed(_)) => "renamed",
        Ok(RenameOutcome::NoOp) => "noop",
        Err(_) => "error",
    }
}

#[test]
fn scenario_rename_then_group_deletion() {
    let mut e = Engine::new();
    e.on_group_update(vec![g(0, "t0"), g(1, "t1")]);
    e.on_item_update(vec![ig(0, &[7, 8]), ig(1, &[9])]);

    // Rename request for item 9: resolves display position 1, renders
    // "win-2", targets the stable identity of position 1.
    let r = e.handle_pipe(request("9", "win-{tab_position}", true));
    let sid = e.stable_identity(9).unwrap();
    match r {
        Ok(RenameOutcome::Renamed(act)) => {
            assert_eq!(act.label, "win-2");
            assert_eq!(act.target, sid);
        },
        _ => panic!("expected a rename"),
    }
    assert!(e.template_for(sid).is_some());

    // Group 0 is deleted and items 7 and 8 vanish entirely; item 9 is now
    // at display position 0, so the auto-relabel renders "win-1".
    let acts1 = e.on_item_update(vec![ig(0, &[9])]);
    let acts2 = e.on_group_update(vec![g(0, "t1")]);
    let renames: Vec<_> =
        acts1.iter().chain(acts2.iter()).filter(|a| a.target == sid).collect();
    assert_eq!(renames.len(), 1);
    assert_eq!(renames[0].label, "win-1");
    assert_eq!(e.last_known_position(sid), Some(0));
    assert_eq!(e.stable_identity(7), None);
    assert_eq!(e.stable_identity(8), None);
}
