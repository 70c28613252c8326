// The edge dock state machine and the tray menu.
use kapi::dock::{DockConfig, DockEffect, DockInput, DockMachine, DockSide, DockState};
use kapi::tray::{menu_labels, TrayState};

fn input(now_ms: u64, cursor: (i32, i32)) -> DockInput {
    DockInput {
        now_ms,
        side: DockSide::Right,
        enabled: true,
        visible: true,
        cursor: Some(cursor),
        window_pos: Some((1600, 100)),
        hotzone: 12,
        expand_delay_ms: 0,
    }
}

#[test]
fn dock_defaults_and_settings() {
    let mut c = DockConfig::default();
    assert!(!c.enabled);
    assert_eq!(c.position, "right");
    assert_eq!(c.hotzone_width, 12);
    assert_eq!(c.expand_delay_ms, 0);
    c.set(true, "left".to_string(), 20, 300);
    assert!(c.enabled);
    assert_eq!(c.position, "left");
    assert_eq!(c.hotzone_width, 20);
    assert_eq!(c.expand_delay_ms, 300);
}

#[test]
fn dock_side_parsing() {
    assert_eq!(DockSide::parse("left"), DockSide::Left);
    assert_eq!(DockSide::parse("LeFt"), DockSide::Left);
    assert_eq!(DockSide::parse("right"), DockSide::Right);
    assert_eq!(DockSide::parse("lefty"), DockSide::Right);
    assert_eq!(DockSide::parse(""), DockSide::Right);
}

#[test]
fn first_tick_places_the_dock() {
    let mut m = DockMachine::new(0);
    let e = m.step(&input(10, (0, 0)));
    assert_eq!(e, vec![DockEffect::Reposition(DockSide::Right), DockEffect::EmitHidden]);
    assert_eq!(m.applied_side, Some(DockSide::Right));
    assert_eq!(m.state, DockState::Hidden);
}

#[test]
fn hovering_the_edge_expands_and_leaving_collapses() {
    let mut m = DockMachine::new(0);
    m.step(&input(0, (0, 0)));
    // past the cooldown, the cursor enters the right-edge strip: with no delay it expands at once
    let e = m.step(&input(200, (1915, 300)));
    assert_eq!(e, vec![DockEffect::IgnoreCursor(false), DockEffect::EmitExpanded]);
    assert_eq!(m.state, DockState::Expanded);
    assert!(!m.pass_through);
    // staying inside changes nothing
    assert!(m.step(&input(400, (1700, 300))).is_empty());
    // the cursor leaves the window: collapse to hidden
    let e = m.step(&input(500, (100, 300)));
    assert_eq!(e, vec![DockEffect::EmitHidden]);
    assert_eq!(m.state, DockState::Hidden);
    // outside while hidden: clicks pass through again
    let e = m.step(&input(700, (100, 300)));
    assert_eq!(e, vec![DockEffect::IgnoreCursor(true)]);
    assert!(m.pass_through);
}

#[test]
fn expand_delay_waits_while_hovering() {
    let mut m = DockMachine::new(0);
    m.step(&input(0, (0, 0)));
    let mut i = input(200, (1915, 300));
    i.expand_delay_ms = 150;
    assert!(m.step(&i).is_empty());
    assert_eq!(m.pending_expand_ms, Some(350));
    i.now_ms = 300;
    assert!(m.step(&i).is_empty());
    i.now_ms = 400;
    assert_eq!(m.step(&i), vec![DockEffect::IgnoreCursor(false), DockEffect::EmitExpanded]);
    assert_eq!(m.pending_expand_ms, None);
}

#[test]
fn leaving_before_the_delay_cancels_expansion() {
    let mut m = DockMachine::new(0);
    m.step(&input(0, (0, 0)));
    let mut i = input(200, (1915, 300));
    i.expand_delay_ms = 150;
    m.step(&i);
    i.now_ms = 300;
    i.cursor = Some((100, 300));
    m.step(&i);
    assert_eq!(m.pending_expand_ms, None);
    assert_eq!(m.state, DockState::Hidden);
}

#[test]
fn disabled_dock_hides() {
    let mut m = DockMachine::new(0);
    m.step(&input(0, (0, 0)));
    let mut i = input(500, (1915, 300));
    i.enabled = false;
    assert_eq!(m.step(&i), vec![DockEffect::Hide]);
    assert_eq!(m.state, DockState::Hidden);
    i.visible = false;
    assert!(m.step(&i).is_empty());
}

#[test]
fn cooldown_suppresses_hover() {
    let mut m = DockMachine::new(0);
    m.step(&input(0, (0, 0)));
    let e = m.step(&input(50, (1915, 300)));
    assert!(e.is_empty());
    assert_eq!(m.pending_expand_ms, None);
}

#[test]
fn tray_labels_by_language() {
    assert_eq!(menu_labels("en-US"), ("Show Panel", "Settings", "Quit"));
    assert_eq!(menu_labels("zh-CN"), ("主面板", "设置", "退出"));
    assert_eq!(menu_labels("e"), ("主面板", "设置", "退出"));
    let mut t = TrayState::default();
    assert!(t.set_language("en".to_string()));
    assert!(!t.set_language("en".to_string()));
    assert!(t.set_language("zh".to_string()));
    assert_eq!(t.language, "zh");
}
