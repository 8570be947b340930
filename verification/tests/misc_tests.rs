use teaplot::input::{
    button_transition, cursor_update, key_transition, without_nul, CursorAction, FrameState, InputEvent,
};
use teaplot::pipeline::{Phase, Pipeline, ProgressMessage, ProgressType};
use teaplot::subtract::{classify, fan, tally_corners, SubtractionCase};

#[test]
fn shared_corners_mean_identical() {
    assert_eq!(classify(6, 0, 0, 0, 3, false), SubtractionCase::Identical);
    assert_eq!(classify(0, 0, 0, 0, 3, true), SubtractionCase::Identical);
}

#[test]
fn classification_table() {
    assert_eq!(classify(0, 0, 0, 3, 0, false), SubtractionCase::Hole);
    assert_eq!(classify(0, 0, 2, 0, 1, false), SubtractionCase::Covered);
    assert_eq!(classify(5, 1, 3, 0, 0, false), SubtractionCase::Covered);
    assert_eq!(classify(0, 5, 0, 1, 2, false), SubtractionCase::Untouched);
    assert_eq!(classify(6, 0, 0, 0, 0, false), SubtractionCase::StarOfDavid);
    assert_eq!(classify(3, 9, 0, 0, 1, false), SubtractionCase::ThreeCuts);
    assert_eq!(classify(2, 4, 0, 2, 0, false), SubtractionCase::NotchedCorner);
    assert_eq!(classify(4, 2, 0, 0, 2, false), SubtractionCase::FourCuts);
    assert_eq!(classify(4, 0, 1, 0, 0, false), SubtractionCase::FourCutsOneInside);
    assert_eq!(classify(2, 1, 0, 0, 1, true), SubtractionCase::TwoCutsApart);
    assert_eq!(classify(2, 1, 0, 0, 1, false), SubtractionCase::TwoCutsAdjacent);
    assert_eq!(classify(2, 0, 1, 0, 2, false), SubtractionCase::TwoCutsOneInside);
    assert_eq!(classify(2, 0, 2, 0, 0, false), SubtractionCase::TwoCutsTwoInside);
    assert_eq!(classify(1, 3, 0, 1, 1, false), SubtractionCase::TouchingInside);
    assert_eq!(classify(2, 2, 0, 1, 0, false), SubtractionCase::TwoCutsCornerInside);
    assert_eq!(classify(1, 0, 1, 0, 1, false), SubtractionCase::OneCutOneInside);
    assert_eq!(classify(5, 0, 0, 0, 0, false), SubtractionCase::Unmatched);
    // (0, 0, 2, 0, 1) is covered even though (0, _, _, ...) would keep it whole
    assert_eq!(classify(0, 1, 2, 0, 1, false), SubtractionCase::Unmatched);
}

#[test]
fn fan_of_a_pentagon() {
    let t = fan(&vec!['a', 'b', 'c', 'd', 'e']);
    assert_eq!(t, vec![('a', 'b', 'c'), ('a', 'c', 'd'), ('a', 'd', 'e')]);
    assert!(fan(&vec![1, 2]).is_empty());
}

#[test]
fn sync_reports_changes_in_order() {
    let mut s = FrameState::new(true);
    let now = FrameState {
        is_window_focused: false,
        is_control_pressed: true,
        is_shift_pressed: false,
        is_alt_pressed: true,
        is_super_pressed: false,
    };
    let ev = s.sync(now);
    assert_eq!(ev, vec![InputEvent::Focus(false), InputEvent::ModCtrl(true), InputEvent::ModAlt(true)]);
    assert_eq!(s, now);
    assert!(s.sync(now).is_empty());
}

#[test]
fn key_and_button_priorities() {
    assert_eq!(key_transition(true, true), Some(false));
    assert_eq!(key_transition(false, true), Some(true));
    assert_eq!(key_transition(false, false), None);
    assert_eq!(button_transition(true, true), Some(true));
    assert_eq!(button_transition(false, true), Some(false));
    assert_eq!(button_transition(false, false), None);
}

#[test]
fn cursor_decisions() {
    assert_eq!(cursor_update(Some(0), Some(2), true, false, false), (Some(2), CursorAction::Show(2)));
    assert_eq!(cursor_update(Some(2), Some(2), true, false, false), (Some(2), CursorAction::Keep));
    assert_eq!(cursor_update(Some(2), Some(2), true, false, true), (Some(2), CursorAction::Hide));
    assert_eq!(cursor_update(Some(2), None, true, false, false), (None, CursorAction::Hide));
    assert_eq!(cursor_update(Some(2), Some(1), false, false, false), (Some(2), CursorAction::Keep));
    assert_eq!(cursor_update(Some(2), Some(1), true, true, false), (Some(2), CursorAction::Keep));
}

#[test]
fn nul_bytes_are_removed() {
    assert_eq!(without_nul(b"a\0b\0\0c"), b"abc".to_vec());
    assert_eq!(without_nul(b"plain"), b"plain".to_vec());
    assert!(without_nul(b"\0\0").is_empty());
}

#[test]
fn pipeline_runs_in_phases() {
    let mut p: Pipeline<&str, u32, char> = Pipeline::new();
    assert_eq!(p.phase(), Some(Phase::Waiting));
    let id = p.restart(true);
    assert_eq!(id, 1);
    assert!(p.receive(ProgressMessage { kind: ProgressType::Model("m"), render_id: 1 }));
    assert_eq!(p.phase(), Some(Phase::Shaded));
    assert!(p.receive(ProgressMessage { kind: ProgressType::Render(3), render_id: 1 }));
    assert_eq!(p.phase(), Some(Phase::Culled));
    assert!(p.receive(ProgressMessage { kind: ProgressType::Lighting('l'), render_id: 1 }));
    assert_eq!(p.phase(), Some(Phase::Lit));
    assert_eq!(p.restart(false), 2);
    assert_eq!(p.phase(), Some(Phase::Shaded));
    assert!(!p.receive(ProgressMessage { kind: ProgressType::Render(4), render_id: 1 }));
    assert_eq!(p.render(), &None);
    p.begin_edit();
    assert!(!p.receive(ProgressMessage { kind: ProgressType::Render(5), render_id: 2 }));
    p.end_edit();
    assert!(p.receive(ProgressMessage { kind: ProgressType::Render(6), render_id: 2 }));
    assert_eq!(p.render(), &Some(6));
    assert_eq!(p.model(), &Some("m"));
}

#[test]
fn lighting_without_render_is_no_phase() {
    let mut p: Pipeline<u8, u8, u8> = Pipeline::new();
    assert!(p.receive(ProgressMessage { kind: ProgressType::Lighting(1), render_id: 0 }));
    assert_eq!(p.phase(), None);
    assert_eq!(p.lighting(), &Some(1));
}

#[test]
fn tally_of_a_touching_corner() {
    // Corner 0 of the triangle is the cutter's corner 3; corner 1 lies
    // inside the cutter on an edge that nothing crosses, next to corner 2,
    // which is neither inside nor shared: corner 1 only touches the cutter.
    let same = vec![0, 1, 2, 0, 4, 5];
    let t = tally_corners(&same, &vec![false, true, false], &vec![false, false, false], &vec![0, 0, 0]);
    assert_eq!(t.inside, vec![false; 6]);
    assert_eq!(t.shared, vec![true, true, false, false, false, false]);
    assert_eq!((t.inside_count, t.cutter_inside_count, t.shared_count), (0, 0, 2));
}

#[test]
fn tally_keeps_crossed_corners_inside() {
    let same = vec![0, 1, 2, 3, 4, 5];
    let t = tally_corners(&same, &vec![false, true, false], &vec![true, false, false], &vec![1, 1, 0]);
    assert_eq!(t.inside, vec![false, true, false, false, false, false]);
    assert_eq!(t.cutter_inside, vec![false, false, false, true, false, false]);
    assert_eq!(t.shared, vec![false; 6]);
    assert_eq!((t.inside_count, t.cutter_inside_count, t.shared_count), (1, 1, 0));
}

#[test]
fn tally_of_identical_triangles() {
    let same = vec![0, 1, 2, 0, 1, 2];
    let t = tally_corners(&same, &vec![false; 3], &vec![false; 3], &vec![0, 0, 0]);
    assert_eq!(t.shared_count, 3);
    assert_eq!(classify(0, 0, t.inside_count, t.cutter_inside_count, t.shared_count, false), SubtractionCase::Identical);
}
