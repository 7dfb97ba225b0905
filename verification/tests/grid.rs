use hexmod_yog::grid::{
    dir_between, on_click, on_drag, on_open, on_release, on_reset, on_stack_packet, GridSession,
    CH_CAST, CH_OPEN, CH_STACK, UI_ID,
};
use hexmod_yog::math::{HexCoord, HexDir, HexPattern};

#[test]
fn channel_names() {
    assert_eq!(UI_ID, "hexcasting:grid");
    assert_eq!(CH_CAST, "hexcasting:cast");
    assert_eq!(CH_STACK, "hexcasting:stack");
    assert_eq!(CH_OPEN, "hexcasting:open_grid");
}

#[test]
fn directions_between_dots() {
    let c = HexCoord(2, 3);
    for (i, n) in c.neighbors().iter().enumerate() {
        assert_eq!(dir_between(c, *n), Some(HexDir::from_ordinal(i as u8)));
    }
    assert_eq!(dir_between(c, c), None);
    assert_eq!(dir_between(c, HexCoord(4, 3)), None);
}

fn draw(g: &mut GridSession, dots: &[HexCoord]) {
    on_click(g, Some(dots[0]));
    for d in &dots[1..] {
        on_drag(g, *d);
    }
}

#[test]
fn strokes_become_patterns() {
    let mut g = GridSession::new();
    draw(&mut g, &[HexCoord(0, 0), HexCoord(1, 0), HexCoord(2, -1)]);
    let p = on_release(&mut g).unwrap();
    assert_eq!(p, HexPattern::new(HexDir::East, vec![HexDir::NorthEast]));
    assert_eq!(p.serialized_form(), "BA");
    // A single dot is no pattern.
    on_click(&mut g, Some(HexCoord(5, 5)));
    assert_eq!(on_release(&mut g), None);
    // Releasing without a stroke does nothing.
    assert_eq!(on_release(&mut g), None);
}

#[test]
fn drag_rules() {
    let mut g = GridSession::new();
    // Dragging before any click does nothing.
    on_drag(&mut g, HexCoord(1, 0));
    assert_eq!(on_release(&mut g), None);

    draw(&mut g, &[HexCoord(0, 0), HexCoord(1, 0), HexCoord(1, 0), HexCoord(3, 0)]);
    // Repeating the last dot and jumping to a non-neighbour are ignored.
    let p = on_release(&mut g).unwrap();
    assert_eq!(p, HexPattern::new(HexDir::East, vec![]));

    // Dragging back onto the previous dot undoes the last segment.
    draw(&mut g, &[HexCoord(0, 0), HexCoord(1, 0), HexCoord(1, 1), HexCoord(1, 0)]);
    let p = on_release(&mut g).unwrap();
    assert_eq!(p, HexPattern::new(HexDir::East, vec![]));

    // A segment may not be drawn twice, but dots may repeat.
    let diamond = [
        HexCoord(0, 0),
        HexCoord(1, 0),
        HexCoord(1, 1),
        HexCoord(0, 1),
        HexCoord(0, 0),
        HexCoord(1, 0),
    ];
    draw(&mut g, &diamond);
    let p = on_release(&mut g).unwrap();
    assert_eq!(p.all_dirs(), vec![HexDir::East, HexDir::SouthEast, HexDir::West, HexDir::NorthWest]);
}

#[test]
fn stack_packets_update_view_and_colour() {
    let mut g = GridSession::new();
    draw(&mut g, &[HexCoord(0, 0), HexCoord(1, 0)]);
    on_release(&mut g).unwrap();
    on_stack_packet(&mut g, b"#ok\tReveal\n7\r\n\"x\"\n");
    assert_eq!(g.stack_lines(), &vec!["7".to_string(), "\"x\"".to_string()]);
    on_stack_packet(&mut g, b"#mishap\tthe stack is empty");
    assert!(g.stack_lines().is_empty());
    on_stack_packet(&mut g, b"hello\n\nworld\r");
    assert_eq!(g.stack_lines(), &vec!["".to_string(), "world\r".to_string()]);
    on_stack_packet(&mut g, b"");
    assert!(g.stack_lines().is_empty());
    on_stack_packet(&mut g, b"#ok\tx\nnull");
    on_reset(&mut g);
    assert!(g.stack_lines().is_empty());
}

#[test]
fn opening_keeps_the_stack_view() {
    let mut g = GridSession::new();
    on_stack_packet(&mut g, b"#ok\treset\nnull");
    draw(&mut g, &[HexCoord(0, 0), HexCoord(0, 1)]);
    on_open(&mut g);
    assert_eq!(on_release(&mut g), None);
    assert_eq!(g.stack_lines(), &vec!["null".to_string()]);
}
