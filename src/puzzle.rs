//! The state of a puzzle on screen and how it answers the messages of its
//! controls.
use vstd::prelude::*;
use crate::board::{
    apply_moves, lemma_board_has_cells, click_result, dims_ok, initialize_fields, solved_board, swap_cells, trigger_field,
    valid_dims,
};
use crate::state_table::same_tiles;

verus! {

/// A message to the puzzle.
#[derive(Debug)]
pub enum SlidePuzzleMsg {
    /// Replace the whole board.
    CompleteFieldsUpdate(Vec<u8>),
    /// Change the width and start over from the solved board.
    WidthUpdate(usize),
    /// Change the height and start over from the solved board.
    HeightUpdate(usize),
    /// Exchange the contents of two cells.
    Swap((usize, usize)),
    /// A click on a cell.
    ClickedField(usize),
    /// Change the background image.
    BackgroundUrlUpdate(String),
}

/// A board with its dimensions and background image.
pub struct SlidePuzzle {
    fields: Vec<u8>,
    width: usize,
    height: usize,
    background_url: String,
}

/// What a `SlidePuzzle` holds, as mathematical values.
pub struct PuzzleView {
    pub fields: Seq<u8>,
    pub width: int,
    pub height: int,
    pub background_url: Seq<char>,
}

impl View for SlidePuzzle {
    type V = PuzzleView;

    closed spec fn view(&self) -> PuzzleView {
        PuzzleView {
            fields: self.fields@,
            width: self.width as int,
            height: self.height as int,
            background_url: self.background_url@,
        }
    }
}

/// Whether `msg` can be applied: a swap names two cells of the board.
pub open spec fn msg_applies(state: PuzzleView, msg: SlidePuzzleMsg) -> bool {
    match msg {
        SlidePuzzleMsg::Swap((a, b)) => a < state.fields.len() && b < state.fields.len(),
        _ => true,
    }
}

/// The state after `msg`. A change of width or height to dimensions that a
/// board cannot have is ignored.
pub open spec fn next_state(state: PuzzleView, msg: SlidePuzzleMsg) -> PuzzleView {
    match msg {
        SlidePuzzleMsg::Swap((a, b)) => PuzzleView {
            fields: swap_cells(state.fields, a as int, b as int),
            ..state
        },
        SlidePuzzleMsg::ClickedField(c) => PuzzleView {
            fields: click_result(state.fields, state.width, state.height, c as int),
            ..state
        },
        SlidePuzzleMsg::WidthUpdate(w) => if w != state.width && valid_dims(w as int, state.height) {
            PuzzleView { fields: solved_board(w * state.height), width: w as int, ..state }
        } else {
            state
        },
        SlidePuzzleMsg::HeightUpdate(h) => if h != state.height && valid_dims(state.width, h as int) {
            PuzzleView { fields: solved_board(state.width * h), height: h as int, ..state }
        } else {
            state
        },
        SlidePuzzleMsg::BackgroundUrlUpdate(u) => PuzzleView { background_url: u@, ..state },
        SlidePuzzleMsg::CompleteFieldsUpdate(f) => PuzzleView { fields: f@, ..state },
    }
}

/// What `update` reports: a swap of two distinct cells always asks for a
/// redraw; any other message asks for one when it changed the state.
pub open spec fn reports_change(before: PuzzleView, after: PuzzleView, msg: SlidePuzzleMsg) -> bool {
    match msg {
        SlidePuzzleMsg::Swap((a, b)) => a != b,
        _ => after != before,
    }
}

impl SlidePuzzle {
    /// A solved puzzle of the given dimensions.
    pub fn create(width: usize, height: usize, background_url: String) -> (r: SlidePuzzle)
        requires
            valid_dims(width as int, height as int),
        ensures
            r@ == (PuzzleView {
                fields: solved_board(width * height),
                width: width as int,
                height: height as int,
                background_url: background_url@,
            }),
    {
        proof {
            lemma_board_has_cells(width as int, height as int);
        }
        let fields = initialize_fields(width * height);
        SlidePuzzle { fields, width, height, background_url }
    }

    /// The cells of the board.
    pub fn fields(&self) -> (r: &Vec<u8>)
        ensures
            r@ == self@.fields,
    {
        &self.fields
    }

    /// The number of columns.
    pub fn width(&self) -> (r: usize)
        ensures
            r == self@.width,
    {
        self.width
    }

    /// The number of rows.
    pub fn height(&self) -> (r: usize)
        ensures
            r == self@.height,
    {
        self.height
    }

    /// The background image.
    pub fn background_url(&self) -> (r: &String)
        ensures
            r@ == self@.background_url,
    {
        &self.background_url
    }

    /// Apply `msg`; the result tells whether the board needs a redraw.
    pub fn update(&mut self, msg: SlidePuzzleMsg) -> (r: bool)
        requires
            msg_applies(old(self)@, msg),
        ensures
            final(self)@ == next_state(old(self)@, msg),
            r == reports_change(old(self)@, final(self)@, msg),
    {
        let ghost before = self@;
        match msg {
            SlidePuzzleMsg::Swap((a, b)) => {
                if a == b {
                    assert(self.fields@ =~= swap_cells(before.fields, a as int, b as int));
                    return false;
                }
                let first = self.fields[a];
                let second = self.fields[b];
                self.fields.set(a, second);
                self.fields.set(b, first);
                assert(self.fields@ =~= swap_cells(before.fields, a as int, b as int));
                true
            },
            SlidePuzzleMsg::ClickedField(c) => {
                let next = trigger_field(&self.fields, self.width, self.height, c);
                let changed = !same_tiles(&next, &self.fields);
                self.fields = next;
                proof {
                    if !changed {
                        assert(self@ =~= before);
                    } else {
                        assert(self@.fields != before.fields);
                    }
                }
                changed
            },
            SlidePuzzleMsg::WidthUpdate(w) => {
                if w == self.width || !dims_ok(w, self.height) {
                    return false;
                }
                proof {
                    lemma_board_has_cells(w as int, self.height as int);
                }
                self.fields = initialize_fields(w * self.height);
                self.width = w;
                assert(self@.width != before.width);
                true
            },
            SlidePuzzleMsg::HeightUpdate(h) => {
                if h == self.height || !dims_ok(self.width, h) {
                    return false;
                }
                proof {
                    lemma_board_has_cells(self.width as int, h as int);
                }
                self.fields = initialize_fields(self.width * h);
                self.height = h;
                assert(self@.height != before.height);
                true
            },
            SlidePuzzleMsg::BackgroundUrlUpdate(u) => {
                let changed = u != self.background_url;
                self.background_url = u;
                proof {
                    if !changed {
                        assert(self@ =~= before);
                    } else {
                        assert(self@.background_url != before.background_url);
                    }
                }
                changed
            },
            SlidePuzzleMsg::CompleteFieldsUpdate(f) => {
                let changed = !same_tiles(&f, &self.fields);
                self.fields = f;
                proof {
                    if !changed {
                        assert(self@ =~= before);
                    } else {
                        assert(self@.fields != before.fields);
                    }
                }
                changed
            },
        }
    }
}

/// Apply `swaps` to `fields`, in order.
pub fn apply_swaps(fields: &mut Vec<u8>, swaps: &[(usize, usize)])
    requires
        forall|i: int|
            0 <= i < swaps@.len() ==> (#[trigger] swaps@[i]).0 < old(fields)@.len() && swaps@[i].1
                < old(fields)@.len(),
    ensures
        final(fields)@ == apply_moves(old(fields)@, swaps@),
{
    let ghost whole = apply_moves(fields@, swaps@);
    let ghost len = fields@.len();
    let mut i: usize = 0;
    assert(swaps@.skip(0) =~= swaps@);
    while i < swaps.len()
        invariant
            i <= swaps@.len(),
            fields@.len() == len,
            forall|k: int|
                0 <= k < swaps@.len() ==> (#[trigger] swaps@[k]).0 < len && swaps@[k].1 < len,
            whole == apply_moves(fields@, swaps@.skip(i as int)),
        decreases swaps@.len() - i,
    {
        let (a, b) = swaps[i];
        let ghost before = fields@;
        let first = fields[a];
        let second = fields[b];
        fields.set(a, second);
        fields.set(b, first);
        assert(fields@ =~= swap_cells(before, a as int, b as int));
        assert(swaps@.skip(i as int)[0] == (a, b));
        assert(swaps@.skip(i as int).drop_first() =~= swaps@.skip(i + 1));
        i = i + 1;
    }
    assert(swaps@.skip(i as int) =~= Seq::<(usize, usize)>::empty());
}

} // verus!
