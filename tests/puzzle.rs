use std::collections::{HashMap, VecDeque};

use slide24::grid::{is_adjacent, is_won};
use slide24::inversions::count_inversions;
use slide24::puzzle::{FrameInput, GameState, Puzzle, SHUFFLE_ATTEMPTS};

fn idle() -> FrameInput {
    FrameInput {
        shuffle: false,
        next_image: false,
        previous_image: false,
        toggle_display: false,
        click: false,
        hit: None,
    }
}

fn click(hit: Option<usize>) -> FrameInput {
    FrameInput { click: true, hit, ..idle() }
}

fn is_permutation(tiles: &[i32; 9]) -> bool {
    let mut sorted = tiles.to_vec();
    sorted.sort();
    sorted == vec![0, 1, 2, 3, 4, 5, 6, 7, 8]
}

#[test]
fn new_puzzle_is_solved_and_idle() {
    let p = Puzzle::new(2);
    assert_eq!(p.tiles(), [0, 1, 2, 3, 4, 5, 6, 7, 8]);
    assert_eq!(p.empty_tile(), 8);
    assert_eq!(p.selected_tile(), None);
    assert_eq!(p.state(), GameState::Start);
    assert!(p.draw_image_mode());
    assert_eq!(p.image_selection(), 0);
}

#[test]
fn shuffle_gives_solvable_permutations() {
    for seed in 0..200u64 {
        macroquad::rand::srand(seed);
        let mut p = Puzzle::new(1);
        p.shuffle();
        let t = p.tiles();
        assert!(is_permutation(&t));
        assert_eq!(count_inversions(&t.to_vec(), 8) % 2, 0);
    }
}

#[test]
fn shuffle_request_starts_playing() {
    macroquad::rand::srand(7);
    let mut p = Puzzle::new(1);
    p.update(&FrameInput { shuffle: true, ..idle() });
    let t = p.tiles();
    assert!(is_permutation(&t));
    assert_eq!(count_inversions(&t.to_vec(), 8) % 2, 0);
    if is_won(&t) {
        assert_eq!(p.state(), GameState::Won);
    } else {
        assert_eq!(p.state(), GameState::Playing);
    }
}

#[test]
fn legal_swap_keeps_permutation_and_clears_selection() {
    let mut p = Puzzle::new(1);
    p.click(Some(7));
    assert_eq!(p.selected_tile(), Some(7));
    p.click(Some(8));
    assert_eq!(p.tiles(), [0, 1, 2, 3, 4, 5, 6, 8, 7]);
    assert_eq!(p.selected_tile(), None);
    assert!(is_permutation(&p.tiles()));
}

#[test]
fn empty_cell_may_be_selected_first() {
    let mut p = Puzzle::new(1);
    p.click(Some(8));
    p.click(Some(5));
    assert_eq!(p.tiles(), [0, 1, 2, 3, 4, 8, 6, 7, 5]);
    assert_eq!(p.selected_tile(), None);
}

#[test]
fn move_that_is_not_adjacent_is_rejected() {
    let mut p = Puzzle::new(1);
    p.click(Some(4));
    p.click(Some(8));
    assert_eq!(p.tiles(), [0, 1, 2, 3, 4, 5, 6, 7, 8]);
    assert_eq!(p.selected_tile(), None);
}

#[test]
fn move_without_empty_cell_is_rejected() {
    let mut p = Puzzle::new(1);
    p.click(Some(0));
    p.click(Some(1));
    assert_eq!(p.tiles(), [0, 1, 2, 3, 4, 5, 6, 7, 8]);
    assert_eq!(p.selected_tile(), None);
}

#[test]
fn same_cell_twice_deselects() {
    let mut p = Puzzle::new(1);
    p.click(Some(8));
    p.click(Some(8));
    assert_eq!(p.tiles(), [0, 1, 2, 3, 4, 5, 6, 7, 8]);
    assert_eq!(p.selected_tile(), None);
}

#[test]
fn miss_clears_selection() {
    let mut p = Puzzle::new(1);
    p.click(Some(3));
    p.click(None);
    assert_eq!(p.selected_tile(), None);
    p.click(None);
    assert_eq!(p.selected_tile(), None);
    assert_eq!(p.tiles(), [0, 1, 2, 3, 4, 5, 6, 7, 8]);
}

#[test]
fn frame_without_click_keeps_selection() {
    let mut p = Puzzle::new(1);
    p.update(&click(Some(7)));
    p.update(&FrameInput { hit: Some(8), ..idle() });
    assert_eq!(p.selected_tile(), Some(7));
    p.update(&click(Some(8)));
    assert_eq!(p.tiles(), [0, 1, 2, 3, 4, 5, 6, 8, 7]);
}

/// Shortest sequence of (selected, target) clicks that solves `start`,
/// found by breadth-first search over legal moves of the empty cell.
fn solution(start: [i32; 9]) -> Vec<(usize, usize)> {
    let goal = [0, 1, 2, 3, 4, 5, 6, 7, 8];
    let mut parent: HashMap<[i32; 9], ([i32; 9], usize, usize)> = HashMap::new();
    let mut queue = VecDeque::new();
    queue.push_back(start);
    parent.insert(start, (start, 0, 0));
    while let Some(g) = queue.pop_front() {
        if g == goal {
            break;
        }
        let e = g.iter().position(|&v| v == 8).unwrap();
        for n in 0..9usize {
            if is_adjacent(e, n) {
                let mut next = g;
                next.swap(e, n);
                if !parent.contains_key(&next) {
                    parent.insert(next, (g, n, e));
                    queue.push_back(next);
                }
            }
        }
    }
    let mut moves = Vec::new();
    let mut cur = goal;
    while cur != start {
        let (prev, from, to) = parent[&cur];
        moves.push((from, to));
        cur = prev;
    }
    moves.reverse();
    moves
}

#[test]
fn win_fires_once_per_solve() {
    macroquad::rand::srand(42);
    let mut p = Puzzle::new(1);
    assert!(!p.check_win());
    assert_eq!(p.state(), GameState::Start);
    p.update(&FrameInput { shuffle: true, ..idle() });
    while p.state() == GameState::Won {
        p.update(&FrameInput { shuffle: true, ..idle() });
    }
    assert_eq!(p.state(), GameState::Playing);
    let moves = solution(p.tiles());
    assert!(!moves.is_empty());
    for (k, (from, to)) in moves.iter().enumerate() {
        assert_eq!(p.state(), GameState::Playing);
        p.update(&click(Some(*from)));
        p.update(&click(Some(*to)));
        assert!(is_permutation(&p.tiles()));
        assert_eq!(p.selected_tile(), None);
        if k + 1 < moves.len() {
            assert_eq!(p.state(), GameState::Playing);
        }
    }
    assert_eq!(p.tiles(), [0, 1, 2, 3, 4, 5, 6, 7, 8]);
    assert_eq!(p.state(), GameState::Won);
    assert!(!p.check_win());
    p.update(&idle());
    assert_eq!(p.state(), GameState::Won);
    assert_eq!(p.tiles(), [0, 1, 2, 3, 4, 5, 6, 7, 8]);
}

#[test]
fn solved_grid_does_not_win_before_start() {
    let mut p = Puzzle::new(1);
    p.update(&idle());
    assert_eq!(p.state(), GameState::Start);
    assert!(!p.check_win());
    assert_eq!(p.state(), GameState::Start);
}

#[test]
fn image_keys_wrap_around() {
    let mut p = Puzzle::new(3);
    assert!(p.update(&FrameInput { next_image: true, ..idle() }));
    assert_eq!(p.image_selection(), 1);
    p.select_next_image();
    assert_eq!(p.image_selection(), 2);
    p.select_next_image();
    assert_eq!(p.image_selection(), 0);
    assert!(p.update(&FrameInput { previous_image: true, ..idle() }));
    assert_eq!(p.image_selection(), 2);
    p.select_previous_image();
    assert_eq!(p.image_selection(), 1);
    assert!(!p.update(&idle()));
}

#[test]
fn image_keys_without_images() {
    let mut p = Puzzle::new(0);
    p.select_next_image();
    assert_eq!(p.image_selection(), 0);
    p.select_previous_image();
    assert_eq!(p.image_selection(), 0);
}

#[test]
fn display_key_toggles_mode() {
    let mut p = Puzzle::new(1);
    p.update(&FrameInput { toggle_display: true, ..idle() });
    assert!(!p.draw_image_mode());
    p.update(&FrameInput { toggle_display: true, ..idle() });
    assert!(p.draw_image_mode());
}

#[test]
fn empty_cell_is_found() {
    let mut p = Puzzle::new(1);
    assert_eq!(p.empty_index(), 8);
    assert!(p.is_empty(8));
    assert!(!p.is_empty(0));
    p.click(Some(5));
    p.click(Some(8));
    assert_eq!(p.empty_index(), 5);
    assert!(p.is_empty(5));
    assert!(!p.is_empty(8));
}

#[test]
fn shuffle_keeps_other_state() {
    macroquad::rand::srand(5);
    let mut p = Puzzle::new(4);
    p.select_next_image();
    p.click(Some(2));
    p.shuffle();
    assert_eq!(p.image_selection(), 1);
    assert_eq!(p.selected_tile(), Some(2));
    assert_eq!(p.state(), GameState::Start);
    let e = p.empty_index();
    assert_eq!(p.tiles()[e], 8);
}

/// A session whose grid is an odd layout, reached by single passes.
fn odd_session(seed: u64) -> Puzzle {
    macroquad::rand::srand(seed);
    let mut p = Puzzle::new(1);
    loop {
        p.shuffle_tiles();
        if count_inversions(&p.tiles().to_vec(), 8) % 2 == 1 {
            return p;
        }
    }
}

#[test]
fn shuffle_tiles_keeps_permutation() {
    macroquad::rand::srand(9);
    let mut p = Puzzle::new(1);
    for _ in 0..50 {
        p.shuffle_tiles();
        assert!(is_permutation(&p.tiles()));
    }
}

#[test]
fn accept_layout_keeps_even_layout() {
    let mut p = Puzzle::new(1);
    p.click(Some(7));
    p.click(Some(8));
    assert!(p.accept_layout(0));
    assert_eq!(p.tiles(), [0, 1, 2, 3, 4, 5, 6, 8, 7]);
    assert!(p.accept_layout(SHUFFLE_ATTEMPTS - 1));
    assert_eq!(p.tiles(), [0, 1, 2, 3, 4, 5, 6, 8, 7]);
}

#[test]
fn accept_layout_asks_again_on_odd_layout() {
    let mut p = odd_session(1);
    let before = p.tiles();
    assert!(!p.accept_layout(0));
    assert_eq!(p.tiles(), before);
    assert!(!p.accept_layout(SHUFFLE_ATTEMPTS - 2));
    assert_eq!(p.tiles(), before);
}

#[test]
fn accept_layout_settles_solved_after_last_odd_pass() {
    let mut p = odd_session(2);
    assert!(p.accept_layout(SHUFFLE_ATTEMPTS - 1));
    assert_eq!(p.tiles(), [0, 1, 2, 3, 4, 5, 6, 7, 8]);
    assert_eq!(p.state(), GameState::Start);
}
