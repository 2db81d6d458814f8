//! The puzzle session: grid, two-click selection, shuffling and the game
//! state, driven one frame of input at a time.
use vstd::prelude::*;
use crate::grid::{
    adjacent, is_adjacent, is_permutation, is_won, solved, swap_tiles, swapped, EMPTY_TILE,
    lemma_permutation_has_value, lemma_swap_keeps_permutation, draws_in_range, fisher_yates,
    fisher_yates_pass, lemma_fisher_yates_keeps_permutation,
};
use crate::inversions::{
    count_inversions, inversions_without, lemma_increasing_no_inversions, without,
};

verus! {

/// How many random layouts a shuffle draws before it settles for the solved one.
pub const SHUFFLE_ATTEMPTS: u32 = 1000;

/// Phase of the game.
#[derive(Clone, Copy, Debug, PartialEq, Eq, Structural)]
pub enum GameState {
    /// Before the first shuffle.
    Start,
    /// From a shuffle until the grid is solved.
    Playing,
    /// The grid was solved; stays so until the next shuffle.
    Won,
}

/// What happened during one frame, as edges: each flag is set only on the
/// frame its key or button went down.
#[derive(Clone, Copy, Debug)]
pub struct FrameInput {
    pub shuffle: bool,
    pub next_image: bool,
    pub previous_image: bool,
    pub toggle_display: bool,
    pub click: bool,
    /// The cell under the pointer, if any.
    pub hit: Option<usize>,
}

/// The puzzle session.
pub struct Puzzle {
    tiles: [i32; 9],
    empty_tile: i32,
    selected_tile: Option<usize>,
    draw_image_mode: bool,
    image_count: usize,
    image_selection: usize,
    state: GameState,
}

/// Abstract state of a session.
pub struct PuzzleModel {
    pub tiles: Seq<i32>,
    pub empty_tile: i32,
    pub selected: Option<usize>,
    pub draw_image_mode: bool,
    pub image_count: nat,
    pub image_selection: nat,
    pub state: GameState,
}

/// A solvable layout: a permutation whose inversions, the empty marker
/// left out, are even in number.
pub open spec fn solvable(s: Seq<i32>) -> bool {
    is_permutation(s) && inversions_without(s, EMPTY_TILE) % 2 == 0
}

/// A move between `a` and `b` is legal: they are neighbours and exactly one
/// of them holds the empty marker.
pub open spec fn legal_move(tiles: Seq<i32>, empty: i32, a: int, b: int) -> bool {
    adjacent(a, b) && ((tiles[a] == empty) != (tiles[b] == empty))
}

/// Grid and selection after a click that hit `hit` (or nothing).
pub open spec fn click_step(tiles: Seq<i32>, empty: i32, selected: Option<usize>, hit: Option<usize>) -> (
    Seq<i32>,
    Option<usize>,
) {
    match hit {
        None => (tiles, None),
        Some(p) => match selected {
            None => (tiles, Some(p)),
            Some(prev) => if legal_move(tiles, empty, prev as int, p as int) {
                (swapped(tiles, prev as int, p as int), None)
            } else {
                (tiles, None)
            },
        },
    }
}

/// The game state after one win check on `tiles`.
pub open spec fn win_step(state: GameState, tiles: Seq<i32>) -> GameState {
    if state == GameState::Playing && solved(tiles) {
        GameState::Won
    } else {
        state
    }
}

/// Whether a win check on `tiles` in `state` ends the game.
pub open spec fn win_fires(state: GameState, tiles: Seq<i32>) -> bool {
    state == GameState::Playing && solved(tiles)
}

/// Index of the image after `sel`, wrapping to the first.
pub open spec fn next_index(sel: nat, count: nat) -> nat {
    if sel + 1 >= count {
        0
    } else {
        (sel + 1) as nat
    }
}

/// Index of the image before `sel`, wrapping to the last.
pub open spec fn previous_index(sel: nat, count: nat) -> nat {
    if sel == 0 {
        if count == 0 {
            0
        } else {
            (count - 1) as nat
        }
    } else {
        (sel - 1) as nat
    }
}

/// The layout has an even number of inversions, the empty marker left out.
pub open spec fn even_layout(s: Seq<i32>) -> bool {
    inversions_without(s, EMPTY_TILE) % 2 == 0
}

/// `s` after one Fisher-Yates pass for each draw sequence of `passes`, in order.
pub open spec fn after_passes(s: Seq<i32>, passes: Seq<Seq<u32>>) -> Seq<i32>
    decreases passes.len(),
{
    if passes.len() == 0 {
        s
    } else {
        fisher_yates(after_passes(s, passes.drop_last()), passes.last(), 8)
    }
}

/// The grid in solved order.
pub open spec fn solved_grid() -> Seq<i32> {
    seq![0i32, 1, 2, 3, 4, 5, 6, 7, 8]
}

/// A shuffle of `start` that made the passes `passes` ends in `result`: at
/// least one and at most `SHUFFLE_ATTEMPTS` passes, each with draws in range,
/// every pass but the last giving an odd layout; `result` is the last pass's
/// layout when that is even, and otherwise, all `SHUFFLE_ATTEMPTS` passes
/// having been odd, the solved grid.
pub open spec fn shuffle_outcome(start: Seq<i32>, passes: Seq<Seq<u32>>, result: Seq<i32>) -> bool {
    &&& 1 <= passes.len() <= SHUFFLE_ATTEMPTS
    &&& forall|k: int| 0 <= k < passes.len() ==> draws_in_range(#[trigger] passes[k])
    &&& forall|j: int|
        1 <= j < passes.len() ==> !even_layout(#[trigger] after_passes(start, passes.take(j)))
    &&& if even_layout(after_passes(start, passes)) {
        result == after_passes(start, passes)
    } else {
        passes.len() == SHUFFLE_ATTEMPTS && result == solved_grid()
    }
}

/// The grid a frame starts its click handling from: the outcome of a
/// shuffle when one was asked for, else the grid as it was.
pub open spec fn start_grid(before: Seq<i32>, shuffle: bool, t: Seq<i32>) -> bool {
    if shuffle {
        exists|passes: Seq<Seq<u32>>| #[trigger] shuffle_outcome(before, passes, t)
    } else {
        t == before
    }
}

/// Relies on macroquad::rand::rand, the global generator of quad-rand: a
/// pseudo-random `u32`, of which nothing is promised.
#[verifier::external_body]
fn random_u32() -> u32 {
    macroquad::rand::rand()
}

/// A draw from the random source below `bound`.
fn next_uniform(bound: u32) -> (r: u32)
    requires
        bound > 0,
    ensures
        r < bound,
{
    random_u32() % bound
}

/// The solved grid has no inversions, so it is solvable.
pub proof fn lemma_solved_is_solvable(s: Seq<i32>)
    requires
        solved(s),
    ensures
        solvable(s),
{
    let first = s.subrange(0, 8);
    lemma_without_absent(first);
    assert(s.drop_last() =~= first);
    assert(s.last() == EMPTY_TILE);
    reveal(Seq::filter);
    assert(without(s, EMPTY_TILE) == first);
    lemma_increasing_no_inversions(first);
    assert forall|i: int, j: int| 0 <= i < 9 && 0 <= j < 9 && i != j implies s[i] != s[j] by {}
}

proof fn lemma_without_absent(s: Seq<i32>)
    requires
        forall|k: int| 0 <= k < s.len() ==> #[trigger] s[k] < EMPTY_TILE,
    ensures
        without(s, EMPTY_TILE) == s,
    decreases s.len(),
{
    reveal(Seq::filter);
    if s.len() > 0 {
        lemma_without_absent(s.drop_last());
        assert(without(s, EMPTY_TILE) =~= s.drop_last().push(s.last()));
        assert(s.drop_last().push(s.last()) =~= s);
    }
}

/// A legal move between a selected cell and the hit cell exchanges the
/// two, leaves the grid a permutation and clears the selection.
pub proof fn lemma_legal_move_outcome(tiles: Seq<i32>, prev: usize, hit: usize)
    requires
        is_permutation(tiles),
        prev < 9,
        hit < 9,
        legal_move(tiles, EMPTY_TILE, prev as int, hit as int),
    ensures
        click_step(tiles, EMPTY_TILE, Some(prev), Some(hit)) == (
            swapped(tiles, prev as int, hit as int),
            None::<usize>,
        ),
        is_permutation(click_step(tiles, EMPTY_TILE, Some(prev), Some(hit)).0),
{
    lemma_swap_keeps_permutation(tiles, prev as int, hit as int);
}

/// The win fires once per solve: once it has fired the game is Won, and no
/// later check, on any grid, fires again or leaves Won.
pub proof fn lemma_win_fires_once(state: GameState, tiles: Seq<i32>, later: Seq<i32>)
    ensures
        win_fires(state, tiles) ==> win_step(state, tiles) == GameState::Won,
        !win_fires(GameState::Won, later),
        win_step(GameState::Won, later) == GameState::Won,
        win_fires(state, tiles) ==> !win_fires(win_step(state, tiles), later),
{
}

impl View for Puzzle {
    type V = PuzzleModel;

    closed spec fn view(&self) -> PuzzleModel {
        PuzzleModel {
            tiles: self.tiles@,
            empty_tile: self.empty_tile,
            selected: self.selected_tile,
            draw_image_mode: self.draw_image_mode,
            image_count: self.image_count as nat,
            image_selection: self.image_selection as nat,
            state: self.state,
        }
    }
}

impl Puzzle {
    /// The session's invariant: the grid is a permutation of 0 to 8, the
    /// empty marker is 8, a selection is an in-range cell and the image
    /// index is in range.
    pub open spec fn wf(&self) -> bool {
        &&& is_permutation(self@.tiles)
        &&& self@.empty_tile == EMPTY_TILE
        &&& (self@.selected matches Some(p) ==> p < 9)
        &&& (self@.image_count == 0 ==> self@.image_selection == 0)
        &&& (self@.image_count > 0 ==> self@.image_selection < self@.image_count)
    }

    /// A fresh session over `image_count` images: solved grid, nothing
    /// selected, image mode on, first image, not started.
    pub fn new(image_count: usize) -> (r: Puzzle)
        ensures
            r.wf(),
            solved(r@.tiles),
            r@.selected is None,
            r@.draw_image_mode,
            r@.image_count == image_count,
            r@.image_selection == 0,
            r@.state == GameState::Start,
    {
        Puzzle {
            tiles: [0, 1, 2, 3, 4, 5, 6, 7, 8],
            empty_tile: EMPTY_TILE,
            selected_tile: None,
            draw_image_mode: true,
            image_count,
            image_selection: 0,
            state: GameState::Start,
        }
    }

    /// Whether cell `pos` holds the empty marker.
    pub fn is_empty(&self, pos: usize) -> (r: bool)
        requires
            self.wf(),
            pos < 9,
        ensures
            r == (self@.tiles[pos as int] == self@.empty_tile),
    {
        self.tiles[pos] == self.empty_tile
    }

    /// The cell that holds the empty marker.
    pub fn empty_index(&self) -> (r: usize)
        requires
            self.wf(),
        ensures
            r < 9,
            self@.tiles[r as int] == self@.empty_tile,
    {
        let mut i: usize = 0;
        while i < 9
            invariant
                i <= 9,
                self.wf(),
                forall|k: int| 0 <= k < i ==> #[trigger] self@.tiles[k] != self@.empty_tile,
            decreases 9 - i,
        {
            if self.tiles[i] == self.empty_tile {
                return i;
            }
            i = i + 1;
        }
        proof {
            lemma_permutation_has_value(self@.tiles, self@.empty_tile);
        }
        8
    }

    /// Counts the inversions of `array` with this session's empty marker
    /// left out.
    pub fn count_inversions(&self, array: &Vec<i32>) -> (r: u64)
        requires
            array.len() <= u32::MAX,
        ensures
            r == inversions_without(array@, self@.empty_tile),
    {
        count_inversions(array, self.empty_tile)
    }

    /// One Fisher-Yates pass over all nine cells: draws a value below 9,
    /// then below 8, and so on down to below 2, from the random source, and
    /// applies the pass with them. Only the grid changes.
    pub fn shuffle_tiles(&mut self)
        requires
            old(self).wf(),
        ensures
            final(self).wf(),
            exists|d: Seq<u32>|
                draws_in_range(d) && #[trigger] fisher_yates(old(self)@.tiles, d, 8)
                    == final(self)@.tiles,
            final(self)@ == (PuzzleModel { tiles: final(self)@.tiles, ..old(self)@ }),
    {
        let mut draws: [u32; 8] = [0, 0, 0, 0, 0, 0, 0, 0];
        let mut k: usize = 0;
        while k < 8
            invariant
                k <= 8,
                forall|m: int| 0 <= m < k ==> #[trigger] draws@[m] <= 8 - m,
            decreases 8 - k,
        {
            draws[k] = next_uniform(9 - k as u32);
            k = k + 1;
        }
        proof {
            lemma_fisher_yates_keeps_permutation(self.tiles@, draws@, 8);
        }
        fisher_yates_pass(&mut self.tiles, &draws);
    }

    /// Decides on the layout that pass number `attempt` (counted from 0)
    /// gave: an even layout is kept and ends the shuffle; an odd one calls
    /// for another pass, unless this was the last of `SHUFFLE_ATTEMPTS`
    /// passes, when the grid is set solved and the shuffle ends. Only the
    /// grid changes.
    pub fn accept_layout(&mut self, attempt: u32) -> (done: bool)
        requires
            old(self).wf(),
            attempt < SHUFFLE_ATTEMPTS,
        ensures
            final(self).wf(),
            done == (even_layout(old(self)@.tiles) || attempt + 1 == SHUFFLE_ATTEMPTS),
            final(self)@.tiles == if !even_layout(old(self)@.tiles) && attempt + 1
                == SHUFFLE_ATTEMPTS {
                solved_grid()
            } else {
                old(self)@.tiles
            },
            done ==> even_layout(final(self)@.tiles),
            final(self)@ == (PuzzleModel { tiles: final(self)@.tiles, ..old(self)@ }),
    {
        let layout = vstd::slice::slice_to_vec(&self.tiles);
        if self.count_inversions(&layout) % 2 == 0 {
            true
        } else if attempt + 1 == SHUFFLE_ATTEMPTS {
            self.tiles = [0, 1, 2, 3, 4, 5, 6, 7, 8];
            proof {
                lemma_solved_is_solvable(self@.tiles);
                assert(self@.tiles =~= solved_grid());
            }
            true
        } else {
            false
        }
    }

    /// Lays out a random solvable grid: Fisher-Yates passes are made until
    /// one gives a layout with an even number of inversions, and that layout
    /// is kept. A random source that gives no such layout in
    /// `SHUFFLE_ATTEMPTS` passes is degenerate, and the grid is then left
    /// solved. Only the grid changes.
    pub fn shuffle(&mut self)
        requires
            old(self).wf(),
        ensures
            final(self).wf(),
            solvable(final(self)@.tiles),
            exists|passes: Seq<Seq<u32>>|
                #[trigger] shuffle_outcome(old(self)@.tiles, passes, final(self)@.tiles),
            final(self)@ == (PuzzleModel { tiles: final(self)@.tiles, ..old(self)@ }),
    {
        let ghost start = self@.tiles;
        let ghost mut passes: Seq<Seq<u32>> = Seq::empty();
        let mut attempts: u32 = 0;
        let mut done = false;
        while !done
            invariant
                attempts <= SHUFFLE_ATTEMPTS,
                passes.len() == attempts,
                self.wf(),
                start == old(self)@.tiles,
                self@ == (PuzzleModel { tiles: self@.tiles, ..old(self)@ }),
                !done ==> attempts < SHUFFLE_ATTEMPTS,
                !done ==> self@.tiles == after_passes(start, passes),
                !done && attempts > 0 ==> !even_layout(self@.tiles),
                done ==> shuffle_outcome(start, passes, self@.tiles),
                done ==> even_layout(self@.tiles),
                forall|k: int| 0 <= k < passes.len() ==> draws_in_range(#[trigger] passes[k]),
                forall|j: int|
                    1 <= j < passes.len() ==> !even_layout(
                        #[trigger] after_passes(start, passes.take(j)),
                    ),
            decreases SHUFFLE_ATTEMPTS - attempts,
        {
            let ghost before = self@.tiles;
            self.shuffle_tiles();
            proof {
                let d = choose|d: Seq<u32>|
                    draws_in_range(d) && #[trigger] fisher_yates(before, d, 8) == self@.tiles;
                let old_passes = passes;
                passes = passes.push(d);
                assert(passes.drop_last() =~= old_passes);
                assert forall|j: int| 1 <= j < passes.len() implies !even_layout(
                    #[trigger] after_passes(start, passes.take(j)),
                ) by {
                    if j < old_passes.len() {
                        assert(passes.take(j) =~= old_passes.take(j));
                    } else {
                        assert(passes.take(j) =~= old_passes);
                    }
                }
            }
            done = self.accept_layout(attempts);
            attempts = attempts + 1;
        }
    }

    /// Handles a click that hit cell `hit`, or nothing. With nothing
    /// selected, a hit selects the cell. With a cell selected, a legal move
    /// between it and the hit cell exchanges the two; any other hit, or a
    /// miss, only clears the selection.
    pub fn click(&mut self, hit: Option<usize>)
        requires
            old(self).wf(),
            hit matches Some(p) ==> p < 9,
        ensures
            final(self).wf(),
            (final(self)@.tiles, final(self)@.selected) == click_step(
                old(self)@.tiles,
                old(self)@.empty_tile,
                old(self)@.selected,
                hit,
            ),
            final(self)@ == (PuzzleModel {
                tiles: final(self)@.tiles,
                selected: final(self)@.selected,
                ..old(self)@
            }),
    {
        match hit {
            None => {
                self.selected_tile = None;
            },
            Some(pressed) => match self.selected_tile {
                None => {
                    self.selected_tile = Some(pressed);
                },
                Some(prev) => {
                    let prev_empty = self.is_empty(prev);
                    let pressed_empty = self.is_empty(pressed);
                    if prev_empty != pressed_empty && is_adjacent(prev, pressed) {
                        proof {
                            lemma_swap_keeps_permutation(self.tiles@, prev as int, pressed as int);
                        }
                        swap_tiles(&mut self.tiles, prev, pressed);
                    }
                    self.selected_tile = None;
                },
            },
        }
    }

    /// Checks for a win while playing: a solved grid turns Playing into
    /// Won. Returns whether that happened; nothing else changes.
    pub fn check_win(&mut self) -> (fired: bool)
        requires
            old(self).wf(),
        ensures
            final(self).wf(),
            fired == win_fires(old(self)@.state, old(self)@.tiles),
            final(self)@ == (PuzzleModel {
                state: win_step(old(self)@.state, old(self)@.tiles),
                ..old(self)@
            }),
    {
        if self.state == GameState::Playing && is_won(&self.tiles) {
            self.state = GameState::Won;
            true
        } else {
            false
        }
    }

    /// Moves to the next image, wrapping to the first.
    pub fn select_next_image(&mut self)
        requires
            old(self).wf(),
        ensures
            final(self).wf(),
            final(self)@ == (PuzzleModel {
                image_selection: next_index(old(self)@.image_selection, old(self)@.image_count),
                ..old(self)@
            }),
    {
        if self.image_selection >= self.image_count || self.image_count - self.image_selection <= 1 {
            self.image_selection = 0;
        } else {
            self.image_selection = self.image_selection + 1;
        }
    }

    /// Moves to the previous image, wrapping to the last.
    pub fn select_previous_image(&mut self)
        requires
            old(self).wf(),
        ensures
            final(self).wf(),
            final(self)@ == (PuzzleModel {
                image_selection: previous_index(old(self)@.image_selection, old(self)@.image_count),
                ..old(self)@
            }),
    {
        if self.image_selection == 0 {
            if self.image_count > 0 {
                self.image_selection = self.image_count - 1;
            }
        } else {
            self.image_selection = self.image_selection - 1;
        }
    }

    /// Runs one frame: a shuffle request starts a game on a freshly shuffled grid,
    /// the image keys move through the images, the display key toggles image
    /// mode, a click goes to the selection, and last a win is checked.
    /// Returns whether the image keys were used, so that the picture is
    /// loaded again.
    pub fn update(&mut self, input: &FrameInput) -> (image_changed: bool)
        requires
            old(self).wf(),
            input.hit matches Some(p) ==> p < 9,
        ensures
            final(self).wf(),
            image_changed == (input.next_image || input.previous_image),
            exists|t: Seq<i32>|
                #[trigger] start_grid(old(self)@.tiles, input.shuffle, t) && (
                final(self)@.tiles,
                final(self)@.selected,
            ) == if input.click {
                click_step(t, EMPTY_TILE, old(self)@.selected, input.hit)
            } else {
                (t, old(self)@.selected)
            },
            final(self)@.state == win_step(
                if input.shuffle {
                    GameState::Playing
                } else {
                    old(self)@.state
                },
                final(self)@.tiles,
            ),
            final(self)@.image_selection == {
                let after_next = if input.next_image {
                    next_index(old(self)@.image_selection, old(self)@.image_count)
                } else {
                    old(self)@.image_selection
                };
                if input.previous_image {
                    previous_index(after_next, old(self)@.image_count)
                } else {
                    after_next
                }
            },
            final(self)@.draw_image_mode == (old(self)@.draw_image_mode != input.toggle_display),
            final(self)@.image_count == old(self)@.image_count,
            final(self)@.empty_tile == old(self)@.empty_tile,
    {
        if input.shuffle {
            self.state = GameState::Playing;
            self.shuffle();
        }
        let ghost t = self@.tiles;
        if input.next_image {
            self.select_next_image();
        }
        if input.previous_image {
            self.select_previous_image();
        }
        if input.toggle_display {
            self.draw_image_mode = !self.draw_image_mode;
        }
        if input.click {
            self.click(input.hit);
        }
        self.check_win();
        assert(start_grid(old(self)@.tiles, input.shuffle, t));
        input.next_image || input.previous_image
    }

    /// The grid in reading order.
    pub fn tiles(&self) -> (r: [i32; 9])
        ensures
            r@ == self@.tiles,
    {
        self.tiles
    }

    /// The value that marks the open slot.
    pub fn empty_tile(&self) -> (r: i32)
        ensures
            r == self@.empty_tile,
    {
        self.empty_tile
    }

    /// The cell waiting for a second click, if any.
    pub fn selected_tile(&self) -> (r: Option<usize>)
        ensures
            r == self@.selected,
    {
        self.selected_tile
    }

    /// The phase of the game.
    pub fn state(&self) -> (r: GameState)
        ensures
            r == self@.state,
    {
        self.state
    }

    /// Whether tiles are drawn as image parts rather than numbers.
    pub fn draw_image_mode(&self) -> (r: bool)
        ensures
            r == self@.draw_image_mode,
    {
        self.draw_image_mode
    }

    /// Index of the image in use.
    pub fn image_selection(&self) -> (r: usize)
        ensures
            r == self@.image_selection,
    {
        self.image_selection
    }
}

} // verus!