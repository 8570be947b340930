use teaplot::plot::{ColorType, HpglCommand, HpglPlot, Optimizer};

fn paths_of(o: &Optimizer) -> Vec<Vec<(i32, i32)>> {
    (0..o.len()).map(|i| o.path(i).clone()).collect()
}

#[test]
fn pens_of_styles() {
    assert_eq!(ColorType::Outline.pen(), 6);
    assert_eq!(ColorType::Contour.pen(), 7);
    assert_eq!(ColorType::Pink.pen(), 0);
    assert_eq!(ColorType::Shaded(40).pen(), 0);
}

#[test]
fn simplify_joins_end_to_start() {
    let mut o = Optimizer::new();
    o.add_line((0, 0), (1, 0));
    o.add_line((1, 0), (2, 0));
    assert!(o.simplify());
    // the second path ends where nothing starts, but starts where the first ends
    assert_eq!(paths_of(&o), vec![vec![(0, 0), (1, 0), (2, 0)], vec![(0, 0), (1, 0)]]);
    assert!(o.simplify());
    assert_eq!(paths_of(&o), vec![vec![(1, 0), (0, 0), (1, 0), (2, 0)]]);
    assert!(!o.simplify());
}

#[test]
fn simplify_joins_shared_start() {
    let mut o = Optimizer::new();
    o.add_line((5, 5), (6, 6));
    o.add_line((5, 5), (4, 4));
    assert!(o.simplify());
    assert_eq!(paths_of(&o), vec![vec![(4, 4), (5, 5), (6, 6)]]);
}

#[test]
fn simplify_leaves_apart_strokes_alone() {
    let mut o = Optimizer::new();
    o.add_line((0, 0), (1, 1));
    o.add_line((5, 5), (6, 6));
    assert!(!o.simplify());
    assert_eq!(paths_of(&o), vec![vec![(0, 0), (1, 1)], vec![(5, 5), (6, 6)]]);
}

#[test]
fn optimize_reaches_a_fixpoint() {
    let mut o = Optimizer::new();
    o.add_line((0, 0), (1, 0));
    o.add_line((2, 0), (3, 0));
    o.add_line((1, 0), (2, 0));
    o.add_line((3, 0), (4, 0));
    o.optimize();
    let before = paths_of(&o);
    assert!(!o.simplify());
    assert_eq!(paths_of(&o), before);
    // every stroke is still drawn
    for seg in [[(0, 0), (1, 0)], [(1, 0), (2, 0)], [(2, 0), (3, 0)], [(3, 0), (4, 0)]] {
        let found = before.iter().any(|p| {
            p.windows(2).any(|w| (w[0] == seg[0] && w[1] == seg[1]) || (w[0] == seg[1] && w[1] == seg[0]))
        });
        assert!(found, "{:?}", seg);
    }
}

#[test]
fn pen_zero_draws_nothing() {
    let mut p = HpglPlot::new();
    p.draw_segment(0, (1, 1), (2, 2));
    assert_eq!(p.commands(), vec![HpglCommand::Initialize]);
}

#[test]
fn commands_draw_nearest_path_next() {
    let mut p = HpglPlot::new();
    p.draw_segment(7, (0, 0), (10, 0));
    p.draw_segment(7, (100, 100), (110, 100));
    p.draw_segment(7, (12, 0), (20, 0));
    p.draw_segment(6, (1, 2), (3, 4));
    let c = p.commands();
    assert_eq!(
        c,
        vec![
            HpglCommand::Initialize,
            HpglCommand::SelectPen(7),
            HpglCommand::PenUp(0, 0),
            HpglCommand::PenDown(10, 0),
            HpglCommand::PenUp(12, 0),
            HpglCommand::PenDown(20, 0),
            HpglCommand::PenUp(100, 100),
            HpglCommand::PenDown(110, 100),
            HpglCommand::SelectPen(6),
            HpglCommand::PenUp(1, 2),
            HpglCommand::PenDown(3, 4),
        ]
    );
}

#[test]
fn joined_paths_plot_absolute() {
    let mut p = HpglPlot::new();
    p.draw_segment(6, (0, 0), (1, 0));
    p.draw_segment(6, (1, 0), (1, 1));
    p.draw_segment(6, (0, 0), (1, 0));
    p.optimize();
    let c = p.commands();
    assert_eq!(c[0], HpglCommand::Initialize);
    assert_eq!(c[1], HpglCommand::SelectPen(6));
    assert!(c.iter().any(|x| matches!(x, HpglCommand::PlotAbsolute(_, _))));
}

#[test]
fn extreme_coordinates_do_not_overflow() {
    let mut p = HpglPlot::new();
    p.draw_segment(7, (i32::MIN, i32::MIN), (i32::MAX, i32::MAX));
    p.draw_segment(7, (i32::MAX, i32::MIN), (0, 0));
    let c = p.commands();
    assert_eq!(c.len(), 6);
}

#[test]
fn optimize_never_empties_a_pen() {
    let mut o = Optimizer::new();
    o.add_line((0, 0), (1, 0));
    o.add_line((1, 0), (1, 1));
    o.add_line((1, 1), (0, 1));
    o.add_line((0, 1), (0, 0));
    o.optimize();
    assert!(o.len() >= 1);
    assert!(!o.simplify());

    let mut p = HpglPlot::new();
    p.draw_segment(7, (0, 0), (1, 0));
    p.draw_segment(7, (1, 0), (1, 1));
    p.draw_segment(7, (1, 1), (0, 1));
    p.draw_segment(7, (0, 1), (0, 0));
    p.optimize();
    let c = p.commands();
    assert_eq!(c[0], HpglCommand::Initialize);
    assert_eq!(c[1], HpglCommand::SelectPen(7));
    assert!(matches!(c[2], HpglCommand::PenUp(_, _)));
    assert!(matches!(c[3], HpglCommand::PenDown(_, _)));
}
