use hanoi::screen::{
    draw_stacks, get_ring_color, get_ring_pieces, get_stack_pieces, Screen, EMPTY,
};
use hanoi::solver::{move_stack, Move};
use hanoi::stack::{Color, MoveError, Stack};

fn names(moves: &Vec<Move>) -> Vec<(String, String)> {
    moves.iter().map(|m| (m.from.clone(), m.to.clone())).collect()
}

fn is_descending(rings: &Vec<usize>) -> bool {
    rings.windows(2).all(|w| w[0] > w[1])
}

fn solve_full(n: usize) -> (Stack, Stack, Stack, u32, Vec<Move>, Result<(), MoveError>) {
    let mut a = Stack::new_of_size("A", n, Color::Red);
    let mut b = Stack::new("B", vec![], Color::Blue);
    let mut c = Stack::new("C", vec![], Color::Yellow);
    let mut step: u32 = 0;
    let mut moves: Vec<Move> = Vec::new();
    let r = move_stack(&mut a, &mut b, &mut c, &mut step, None, &mut moves);
    (a, b, c, step, moves, r)
}

#[test]
fn new_of_size_builds_full_tower() {
    let s = Stack::new_of_size("Red", 5, Color::Red);
    assert_eq!(s.rings, vec![5, 4, 3, 2, 1]);
    assert_eq!(s.name, "Red");
    assert_eq!(s.color, Color::Red);
    let e = Stack::new_of_size("E", 0, Color::Blue);
    assert!(e.rings.is_empty());
}

#[test]
fn new_keeps_given_rings() {
    let s = Stack::new("Blue", vec![7, 3], Color::Blue);
    assert_eq!(s.rings, vec![7, 3]);
    assert_eq!(s.name, "Blue");
}

#[test]
fn move_ring_onto_larger_ring() {
    let mut a = Stack::new("A", vec![3, 1], Color::Red);
    let mut b = Stack::new("B", vec![2], Color::Blue);
    assert_eq!(a.move_ring(&mut b), Ok(()));
    assert_eq!(a.rings, vec![3]);
    assert_eq!(b.rings, vec![2, 1]);
}

#[test]
fn move_ring_onto_empty_peg() {
    let mut a = Stack::new("A", vec![3], Color::Red);
    let mut b = Stack::new("B", vec![], Color::Blue);
    assert_eq!(a.move_ring(&mut b), Ok(()));
    assert!(a.rings.is_empty());
    assert_eq!(b.rings, vec![3]);
}

#[test]
fn illegal_placement_is_refused() {
    let mut a = Stack::new("A", vec![2], Color::Red);
    let mut b = Stack::new("B", vec![1], Color::Blue);
    assert_eq!(a.move_ring(&mut b), Err(MoveError::IllegalPlacement));
    assert_eq!(a.rings, vec![2]);
    assert_eq!(b.rings, vec![1]);
}

#[test]
fn empty_source_is_refused() {
    let mut a = Stack::new("A", vec![], Color::Red);
    let mut b = Stack::new("B", vec![4], Color::Blue);
    assert_eq!(a.move_ring(&mut b), Err(MoveError::EmptySource));
    assert!(a.rings.is_empty());
    assert_eq!(b.rings, vec![4]);
}

#[test]
fn full_tower_takes_two_to_the_n_minus_one_moves() {
    for n in 1..=10usize {
        let (a, b, c, step, moves, r) = solve_full(n);
        assert_eq!(r, Ok(()));
        assert_eq!(step as usize, (1usize << n) - 1);
        assert_eq!(moves.len(), (1usize << n) - 1);
        assert!(a.rings.is_empty());
        assert_eq!(b.rings, Stack::new_of_size("X", n, Color::White).rings);
        assert!(c.rings.is_empty());
    }
}

#[test]
fn every_intermediate_state_is_descending() {
    let n = 6;
    let (_, _, _, _, moves, r) = solve_full(n);
    assert_eq!(r, Ok(()));
    let mut a = Stack::new_of_size("A", n, Color::Red);
    let mut b = Stack::new("B", vec![], Color::Blue);
    let mut c = Stack::new("C", vec![], Color::Yellow);
    for m in moves.iter() {
        let result = match (m.from.as_str(), m.to.as_str()) {
            ("A", "B") => a.move_ring(&mut b),
            ("A", "C") => a.move_ring(&mut c),
            ("B", "A") => b.move_ring(&mut a),
            ("B", "C") => b.move_ring(&mut c),
            ("C", "A") => c.move_ring(&mut a),
            ("C", "B") => c.move_ring(&mut b),
            _ => panic!("unknown move"),
        };
        assert_eq!(result, Ok(()));
        assert!(is_descending(&a.rings));
        assert!(is_descending(&b.rings));
        assert!(is_descending(&c.rings));
    }
    assert_eq!(b.rings, vec![6, 5, 4, 3, 2, 1]);
}

#[test]
fn round_trip_restores_pegs() {
    let mut a = Stack::new_of_size("A", 4, Color::Red);
    let mut b = Stack::new("B", vec![], Color::Blue);
    let mut c = Stack::new("C", vec![], Color::Yellow);
    let mut step: u32 = 0;
    let mut moves: Vec<Move> = Vec::new();
    assert_eq!(move_stack(&mut a, &mut b, &mut c, &mut step, None, &mut moves), Ok(()));
    assert_eq!(b.rings, vec![4, 3, 2, 1]);
    assert_eq!(move_stack(&mut b, &mut a, &mut c, &mut step, None, &mut moves), Ok(()));
    assert_eq!(a.rings, vec![4, 3, 2, 1]);
    assert!(b.rings.is_empty());
    assert!(c.rings.is_empty());
    assert_eq!(step, 30);
}

#[test]
fn zero_rings_take_no_moves() {
    let (a, b, c, step, moves, r) = solve_full(0);
    assert_eq!(r, Ok(()));
    assert_eq!(step, 0);
    assert!(moves.is_empty());
    assert!(a.rings.is_empty() && b.rings.is_empty() && c.rings.is_empty());
}

#[test]
fn one_ring_takes_one_move() {
    let (a, b, _, step, moves, r) = solve_full(1);
    assert_eq!(r, Ok(()));
    assert_eq!(step, 1);
    assert_eq!(names(&moves), vec![("A".to_string(), "B".to_string())]);
    assert!(a.rings.is_empty());
    assert_eq!(b.rings, vec![1]);
}

#[test]
fn three_rings_move_sequence() {
    let (a, b, c, step, moves, r) = solve_full(3);
    assert_eq!(r, Ok(()));
    assert_eq!(step, 7);
    let expected: Vec<(String, String)> = [
        ("A", "B"),
        ("A", "C"),
        ("B", "C"),
        ("A", "B"),
        ("C", "A"),
        ("C", "B"),
        ("A", "B"),
    ]
    .iter()
    .map(|(f, t)| (f.to_string(), t.to_string()))
    .collect();
    assert_eq!(names(&moves), expected);
    assert!(a.rings.is_empty());
    assert_eq!(b.rings, vec![3, 2, 1]);
    assert!(c.rings.is_empty());
}

#[test]
fn partial_depth_moves_only_top_rings() {
    let mut a = Stack::new_of_size("A", 4, Color::Red);
    let mut b = Stack::new("B", vec![], Color::Blue);
    let mut c = Stack::new("C", vec![], Color::Yellow);
    let mut step: u32 = 10;
    let mut moves: Vec<Move> = Vec::new();
    let depth: usize = 2;
    assert_eq!(move_stack(&mut a, &mut b, &mut c, &mut step, Some(&depth), &mut moves), Ok(()));
    assert_eq!(a.rings, vec![4, 3]);
    assert_eq!(b.rings, vec![2, 1]);
    assert!(c.rings.is_empty());
    assert_eq!(step, 13);
}

#[test]
fn solve_aborts_on_illegal_placement() {
    let mut a = Stack::new("A", vec![4, 3, 2, 1], Color::Red);
    let mut b = Stack::new("B", vec![], Color::Blue);
    let mut c = Stack::new("C", vec![2], Color::Yellow);
    let mut step: u32 = 0;
    let mut moves: Vec<Move> = Vec::new();
    let r = move_stack(&mut a, &mut b, &mut c, &mut step, None, &mut moves);
    assert_eq!(r, Err(MoveError::IllegalPlacement));
    let expected: Vec<(String, String)> = [("A", "C"), ("A", "B"), ("C", "B")]
        .iter()
        .map(|(f, t)| (f.to_string(), t.to_string()))
        .collect();
    assert_eq!(names(&moves), expected);
    assert_eq!(a.rings, vec![4, 3]);
    assert_eq!(b.rings, vec![2, 1]);
    assert_eq!(c.rings, vec![2]);
    assert_eq!(step, 3);
}

#[test]
fn solve_aborts_on_empty_source() {
    let mut a = Stack::new("A", vec![1], Color::Red);
    let mut b = Stack::new("B", vec![], Color::Blue);
    let mut c = Stack::new("C", vec![], Color::Yellow);
    let mut step: u32 = 0;
    let mut moves: Vec<Move> = Vec::new();
    let depth: usize = 2;
    let r = move_stack(&mut a, &mut b, &mut c, &mut step, Some(&depth), &mut moves);
    assert_eq!(r, Err(MoveError::EmptySource));
    assert!(a.rings.is_empty());
    assert!(b.rings.is_empty());
    assert_eq!(c.rings, vec![1]);
}

#[test]
fn ring_colors_by_size_modulo_four() {
    assert_eq!(get_ring_color(&0), Color::Red);
    assert_eq!(get_ring_color(&1), Color::BrightGreen);
    assert_eq!(get_ring_color(&2), Color::Yellow);
    assert_eq!(get_ring_color(&3), Color::Blue);
    assert_eq!(get_ring_color(&8), Color::Red);
}

#[test]
fn ring_and_peg_pieces() {
    assert_eq!(get_ring_pieces(&3), ("\x1b[34m╭\x1b[0m", "\x1b[34m─\x1b[0m", "\x1b[34m╮\x1b[0m"));
    assert_eq!(get_stack_pieces(&Color::White), ("║", "╩", "═"));
    assert_eq!(get_stack_pieces(&Color::BrightGreen), ("║", "╩", "═"));
    assert_eq!(get_stack_pieces(&Color::Red).0, "\x1b[31m║\x1b[0m");
}

#[test]
fn new_screen_is_blank() {
    let s = Screen::new(2, 3);
    for r in 0..2 {
        assert_eq!(s.row(r), &[EMPTY, EMPTY, EMPTY]);
        for c in 0..3 {
            assert_eq!(*s.index(r, c), " ");
        }
    }
    assert_eq!(s.render(), "   \n   \n");
}

#[test]
fn set_and_index_mut_write_one_cell() {
    let mut s = Screen::new(2, 2);
    s.set(1, 0, "x");
    assert_eq!(*s.index(1, 0), "x");
    assert_eq!(s.render(), "  \nx \n");
    {
        let cell = s.index_mut(0, 1);
        assert_eq!(*cell, " ");
        *cell = "y";
    }
    assert_eq!(*s.index(0, 1), "y");
}

#[test]
fn print_ring_draws_caps_and_body() {
    let mut s = Screen::new(1, 7);
    s.print_ring(2, 3, 0);
    let y = |p: &str| format!("\x1b[33m{}\x1b[0m", p);
    let expected = format!(" {}{}{}{}{} \n", y("╭"), y("─"), y("─"), y("─"), y("╮"));
    assert_eq!(s.render(), expected);
}

#[test]
fn print_ring_of_size_zero_is_one_glyph() {
    let mut s = Screen::new(1, 3);
    s.print_ring(0, 1, 0);
    assert_eq!(s.row(0)[1], "\x1b[31m─\x1b[0m");
    assert_eq!(s.row(0)[0], " ");
    assert_eq!(s.row(0)[2], " ");
}

#[test]
fn print_stack_draws_rings_pole_and_base() {
    let mut s = Screen::new(4, 7);
    let peg = Stack::new("W", vec![1], Color::White);
    s.print_stack(&peg, 3, 0, 0);
    let g = |p: &str| format!("\x1b[32;1m{}\x1b[0m", p);
    let expected = format!(
        "   ║   \n   ║   \n  {}{}{}  \n ═════ \n",
        g("╭"),
        g("─"),
        g("╮")
    );
    assert_eq!(s.render(), expected);
}

#[test]
fn print_empty_stack_has_centre_base_piece() {
    let mut s = Screen::new(3, 5);
    let peg = Stack::new("W", vec![], Color::White);
    s.print_stack(&peg, 2, 0, 0);
    assert_eq!(s.render(), "  ║  \n  ║  \n══╩══\n");
}

#[test]
fn draw_stacks_lays_pegs_side_by_side() {
    let a = Stack::new("A", vec![2, 1], Color::White);
    let b = Stack::new("B", vec![], Color::White);
    let text = draw_stacks(&vec![&a, &b]);
    let lines: Vec<&str> = text.split('\n').collect();
    assert_eq!(lines.len(), 4);
    assert_eq!(lines[3], "");
    assert_eq!(lines[2], "═════  ══╩══  ");
    assert!(lines[0].contains("\x1b[32;1m╭\x1b[0m"));
    assert!(lines[1].contains("\x1b[33m╭\x1b[0m"));
    assert!(lines[0].ends_with("  ║    "));
}

#[test]
fn draw_stacks_with_no_rings() {
    let a = Stack::new("A", vec![], Color::White);
    let b = Stack::new("B", vec![], Color::White);
    let c = Stack::new("C", vec![], Color::White);
    let text = draw_stacks(&vec![&a, &b, &c]);
    let pole = "  ║    ".repeat(3);
    let base = "══╩══  ".repeat(3);
    assert_eq!(text, format!("{}\n{}\n{}\n", pole, pole, base));
}

#[test]
fn draw_stacks_with_one_ring() {
    let a = Stack::new("A", vec![1], Color::White);
    let b = Stack::new("B", vec![], Color::White);
    let c = Stack::new("C", vec![], Color::White);
    let text = draw_stacks(&vec![&a, &b, &c]);
    let g = |p: &str| format!("\x1b[32;1m{}\x1b[0m", p);
    let empty_pole = "  ║    ".repeat(2);
    let row0 = format!("  ║    {}", empty_pole);
    let row1 = format!(" {}{}{}   {}", g("╭"), g("─"), g("╮"), empty_pole);
    let row2 = format!("═════  {}", "══╩══  ".repeat(2));
    assert_eq!(text, format!("{}\n{}\n{}\n", row0, row1, row2));
}
