use water_sort::error::Error;
use water_sort::game::{Color, GameState, Tube};

fn red() -> Color {
    Color::new("Red".to_string(), 255, 0, 0)
}

fn blue() -> Color {
    Color::new("Blue".to_string(), 0, 0, 255)
}

fn names(t: &Tube) -> Vec<String> {
    t.content().iter().map(|c| c.get_name().to_string()).collect()
}

#[test]
fn colors_differ_by_name() {
    let a = Color::new("Red".to_string(), 255, 0, 0);
    let b = Color::new("Crimson".to_string(), 255, 0, 0);
    assert!(a != b);
    assert!(a == red());
    assert_eq!(a.rgb(), (255, 0, 0));
    assert_eq!(a.get_name(), "Red");
}

#[test]
fn pour_moves_single_top_unit() {
    let mut t1 = Tube::new(2, vec![red(), blue()]);
    let mut t2 = Tube::new(2, vec![blue()]);
    assert!(t1.pour(&mut t2).is_ok());
    assert_eq!(names(&t1), vec!["Red"]);
    assert_eq!(names(&t2), vec!["Blue", "Blue"]);
    assert!(t2.is_complete());
    let g = GameState::new(vec![t1, t2]);
    assert!(!g.check_win());
}

#[test]
fn pour_moves_whole_run() {
    let mut t1 = Tube::new(4, vec![red(), blue(), blue(), blue()]);
    let mut t2 = Tube::new(4, vec![blue()]);
    assert!(t1.pour(&mut t2).is_ok());
    assert_eq!(names(&t1), vec!["Red"]);
    assert_eq!(names(&t2), vec!["Blue", "Blue", "Blue", "Blue"]);
}

#[test]
fn pour_limited_by_room() {
    let mut t1 = Tube::new(4, vec![red(), blue(), blue(), blue()]);
    let mut t2 = Tube::new(4, vec![red(), red(), blue()]);
    assert!(t1.pour(&mut t2).is_ok());
    assert_eq!(t1.content().len(), 3);
    assert_eq!(t2.content().len(), 4);
    assert_eq!(names(&t2), vec!["Red", "Red", "Blue", "Blue"]);
}

#[test]
fn pour_into_empty_keeps_total() {
    let mut t1 = Tube::new(3, vec![blue(), red(), red()]);
    let mut t2 = Tube::new(3, vec![]);
    let before = t1.content().len() + t2.content().len();
    assert!(t1.pour(&mut t2).is_ok());
    assert_eq!(t1.content().len() + t2.content().len(), before);
    assert!(t2.content().len() <= t2.capacity());
    assert_eq!(names(&t2), vec!["Red", "Red"]);
}

#[test]
fn error_max_capacity() {
    let t1 = Tube::new(2, vec![]);
    let t2 = Tube::new(2, vec![red(), blue()]);
    assert!(matches!(t1.is_pour_valid(&t2), Err(Error::MaxCapacity)));
}

#[test]
fn error_no_content() {
    let t1 = Tube::new(2, vec![]);
    let t2 = Tube::new(2, vec![red()]);
    assert!(matches!(t1.is_pour_valid(&t2), Err(Error::NoContent)));
}

#[test]
fn error_cant_move_from_complete() {
    let t1 = Tube::new(2, vec![red(), red()]);
    let t2 = Tube::new(2, vec![red()]);
    assert!(matches!(t1.is_pour_valid(&t2), Err(Error::CantMove)));
}

#[test]
fn error_cant_move_into_complete() {
    let t1 = Tube::new(2, vec![red()]);
    let t2 = Tube::new(1, vec![red()]);
    assert!(matches!(t1.is_pour_valid(&t2), Err(Error::MaxCapacity)));
    let t3 = Tube::new(3, vec![blue(), red()]);
    let t4 = Tube::new(2, vec![red(), red()]);
    assert!(matches!(t3.is_pour_valid(&t4), Err(Error::MaxCapacity)));
}

#[test]
fn error_diff_color() {
    let t1 = Tube::new(2, vec![red()]);
    let t2 = Tube::new(2, vec![blue()]);
    assert!(matches!(t1.is_pour_valid(&t2), Err(Error::DiffColor)));
}

#[test]
fn error_order_full_before_empty() {
    let t1 = Tube::new(2, vec![]);
    let t2 = Tube::new(2, vec![red(), red()]);
    assert!(matches!(t1.is_pour_valid(&t2), Err(Error::MaxCapacity)));
}

#[test]
fn valid_pour_accepted_and_tubes_untouched() {
    let t1 = Tube::new(3, vec![blue(), red()]);
    let t2 = Tube::new(3, vec![red()]);
    assert!(t1.is_pour_valid(&t2).is_ok());
    assert!(t1.is_pour_valid(&t2).is_ok());
    assert_eq!(names(&t1), vec!["Blue", "Red"]);
    assert_eq!(names(&t2), vec!["Red"]);
}

#[test]
fn refused_pour_changes_nothing() {
    let mut t1 = Tube::new(2, vec![red()]);
    let mut t2 = Tube::new(2, vec![blue()]);
    assert!(matches!(t1.pour(&mut t2), Err(Error::DiffColor)));
    assert_eq!(names(&t1), vec!["Red"]);
    assert_eq!(names(&t2), vec!["Blue"]);
}

#[test]
fn partial_monochrome_tube_is_not_a_win() {
    let g = GameState::new(vec![Tube::new(4, vec![red(), red()])]);
    assert!(!g.check_win());
}

#[test]
fn full_mixed_tube_is_not_a_win() {
    let g = GameState::new(vec![Tube::new(2, vec![red(), blue()]), Tube::new(2, vec![])]);
    assert!(!g.check_win());
}

#[test]
fn sorted_state_is_a_win() {
    let g = GameState::new(vec![Tube::new(2, vec![red(), red()]), Tube::new(2, vec![])]);
    assert!(g.check_win());
    assert!(GameState::new(vec![]).check_win());
}

#[test]
fn no_moves_when_tops_differ() {
    let g = GameState::new(vec![
        Tube::new(2, vec![blue(), red()]),
        Tube::new(2, vec![red(), blue()]),
    ]);
    assert_eq!(g.available_moves(), vec![]);
}

#[test]
fn moves_listed_in_order() {
    let g = GameState::new(vec![
        Tube::new(3, vec![red()]),
        Tube::new(3, vec![blue(), red()]),
        Tube::new(3, vec![]),
    ]);
    assert_eq!(g.available_moves(), vec![(0, 1), (1, 0), (0, 2), (1, 2)]);
}

#[test]
fn moves_agree_with_validity() {
    let g = GameState::new(vec![
        Tube::new(3, vec![red(), blue()]),
        Tube::new(3, vec![blue()]),
        Tube::new(3, vec![red(), red(), red()]),
        Tube::new(3, vec![]),
    ]);
    let moves = g.available_moves();
    let tubes = g.tubes();
    for i in 0..tubes.len() {
        for j in 0..tubes.len() {
            if i != j {
                assert_eq!(moves.contains(&(i, j)), tubes[i].is_pour_valid(&tubes[j]).is_ok());
            }
        }
    }
}

#[test]
fn make_move_returns_new_state() {
    let g = GameState::new(vec![Tube::new(2, vec![red(), blue()]), Tube::new(2, vec![blue()])]);
    let next = g.make_move(0, 1).unwrap();
    assert_eq!(names(&next.tubes()[0]), vec!["Red"]);
    assert_eq!(names(&next.tubes()[1]), vec!["Blue", "Blue"]);
    assert_eq!(names(&g.tubes()[0]), vec!["Red", "Blue"]);
    assert!(next != g);
}

#[test]
fn make_move_out_of_range() {
    let g = GameState::new(vec![Tube::new(2, vec![red()]), Tube::new(2, vec![])]);
    assert!(matches!(g.make_move(0, 2), Err(Error::InvalidMove(_))));
    assert!(matches!(g.make_move(5, 1), Err(Error::InvalidMove(_))));
}

#[test]
fn make_move_in_place_error_keeps_state() {
    let mut g = GameState::new(vec![Tube::new(2, vec![red()]), Tube::new(2, vec![blue()])]);
    let before = g.clone();
    assert!(matches!(g.make_move_in_place(0, 1), Err(Error::DiffColor)));
    assert!(g == before);
}

#[test]
fn self_move_changes_nothing() {
    let mut g = GameState::new(vec![Tube::new(2, vec![red()]), Tube::new(2, vec![blue()])]);
    let before = g.clone();
    assert!(g.make_move_in_place(1, 1).is_ok());
    assert!(g == before);
    let single = GameState::new(vec![Tube::new(2, vec![red()])]);
    let next = single.make_move(0, 0).unwrap();
    assert_eq!(names(&next.tubes()[0]), vec!["Red"]);
    assert!(next == single);
}

#[test]
fn self_move_gets_pour_errors() {
    let g = GameState::new(vec![Tube::new(2, vec![red(), blue()]), Tube::new(2, vec![])]);
    assert!(matches!(g.make_move(0, 0), Err(Error::MaxCapacity)));
    assert!(matches!(g.make_move(1, 1), Err(Error::NoContent)));
    assert!(matches!(g.make_move(2, 2), Err(Error::InvalidMove(_))));
}

#[test]
fn diff_color_on_mismatched_tops() {
    let t1 = Tube::new(3, vec![red(), blue()]);
    let t2 = Tube::new(3, vec![blue(), red()]);
    assert!(matches!(t1.is_pour_valid(&t2), Err(Error::DiffColor)));
    assert!(matches!(t2.is_pour_valid(&t1), Err(Error::DiffColor)));
}

#[test]
fn make_move_in_place_pours() {
    let mut g = GameState::new(vec![Tube::new(2, vec![red()]), Tube::new(2, vec![red()])]);
    assert!(g.make_move_in_place(0, 1).is_ok());
    assert!(g.check_win());
    assert_eq!(g.tube_num(), 2);
}

#[test]
fn tubes_compare_by_capacity_and_content() {
    assert!(Tube::new(2, vec![red()]) == Tube::new(2, vec![red()]));
    assert!(Tube::new(2, vec![red()]) != Tube::new(3, vec![red()]));
    assert!(Tube::new(2, vec![red()]) != Tube::new(2, vec![blue()]));
    assert!(Tube::new(2, vec![red()]) != Tube::new(2, vec![red(), red()]));
}
