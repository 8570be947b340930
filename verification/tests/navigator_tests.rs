use teaplot::navigator::{AppView, Navigator, SliceThing, HISTORY_LIMIT};

fn nav() -> Navigator<()> {
    Navigator::new(())
}

#[test]
fn fresh_navigator_shows_main() {
    let n = nav();
    assert_eq!(n.current(), AppView::Main);
    assert!(n.stack().is_empty());
    assert!(n.redo().is_empty());
    assert!(n.clip);
}

#[test]
fn push_shows_the_pushed_view() {
    let mut n = nav();
    n.push(AppView::Painter { face: 3 });
    assert_eq!(n.current(), AppView::Painter { face: 3 });
    n.push(AppView::SliceView { face: SliceThing::TwoFace(1, 2), idx: 7 });
    assert_eq!(n.current(), AppView::SliceView { face: SliceThing::TwoFace(1, 2), idx: 7 });
    assert_eq!(n.stack().len(), 2);
}

#[test]
fn back_then_forward_restores() {
    let mut n = nav();
    n.push(AppView::Painter { face: 1 });
    n.push(AppView::NotFound);
    n.go_back();
    assert_eq!(n.current(), AppView::Painter { face: 1 });
    assert_eq!(n.redo(), &vec![AppView::NotFound]);
    n.go_forward();
    assert_eq!(n.current(), AppView::NotFound);
    assert_eq!(n.stack(), &vec![AppView::Painter { face: 1 }, AppView::NotFound]);
    assert!(n.redo().is_empty());
}

#[test]
fn back_and_forward_on_empty_stacks_do_nothing() {
    let mut n = nav();
    n.go_back();
    n.go_forward();
    assert!(n.stack().is_empty());
    assert!(n.redo().is_empty());
    assert_eq!(n.current(), AppView::Main);
}

#[test]
fn push_keeps_the_forward_stack() {
    let mut n = nav();
    n.push(AppView::NotFound);
    n.go_back();
    n.push(AppView::Painter { face: 2 });
    assert_eq!(n.redo(), &vec![AppView::NotFound]);
}

#[test]
fn stack_is_trimmed_past_the_limit() {
    let mut n = nav();
    for i in 0..HISTORY_LIMIT {
        n.push(AppView::Painter { face: i });
    }
    assert_eq!(n.stack().len(), 100);
    n.push(AppView::Painter { face: 100 });
    // 101 views, the oldest 20 dropped
    assert_eq!(n.stack().len(), 81);
    assert_eq!(n.stack()[0], AppView::Painter { face: 20 });
    assert_eq!(n.current(), AppView::Painter { face: 100 });
}

#[test]
fn redo_is_trimmed_past_the_limit() {
    let mut n = nav();
    for i in 0..101 {
        n.push(AppView::Painter { face: i });
    }
    // the stack now holds faces 20..=100
    for _ in 0..81 {
        n.go_back();
    }
    assert!(n.stack().is_empty());
    assert_eq!(n.redo().len(), 81);
    let mut m = Navigator::from_parts(vec![AppView::NotFound], (0..100).map(|i| AppView::Painter { face: i }).collect(), false, 5u8);
    m.go_back();
    assert_eq!(m.redo().len(), 81);
    assert_eq!(m.redo()[80], AppView::NotFound);
    assert_eq!(m.redo()[0], AppView::Painter { face: 20 });
    assert!(!m.clip);
    assert_eq!(m.zoom, 5u8);
}

#[test]
fn replace_swaps_the_current_view() {
    let mut n = nav();
    n.replace(AppView::NotFound);
    assert_eq!(n.stack(), &vec![AppView::NotFound]);
    n.push(AppView::Painter { face: 1 });
    n.replace(AppView::Painter { face: 2 });
    assert_eq!(n.stack(), &vec![AppView::NotFound, AppView::Painter { face: 2 }]);
}

#[test]
fn pop_returns_the_current_view() {
    let mut n = nav();
    assert_eq!(n.pop(), None);
    n.push(AppView::Painter { face: 9 });
    assert_eq!(n.pop(), Some(AppView::Painter { face: 9 }));
    assert!(n.stack().is_empty());
}

#[test]
fn reset_zoom_sets_home_and_keeps_history() {
    let mut n: Navigator<(i32, i32)> = Navigator::new((5, 5));
    n.push(AppView::Painter { face: 2 });
    n.clip = false;
    n.reset_zoom((1030, 765));
    assert_eq!(n.zoom, (1030, 765));
    assert_eq!(n.current(), AppView::Painter { face: 2 });
    assert!(!n.clip);
}
